# prompt_relay

Prompt-cache metering and request compression for a relay between Anthropic-style clients and an
upstream that reports no cache usage of its own.

The relay fingerprints the growing prefixes of each prompt, remembers the fingerprints for as long
as a prompt cache would, and tells from them how much of a prompt was read from the cache and how
much was newly cached. It also makes requests smaller before they are sent: white space, tool
results, tool inputs and tool definitions.

## Layout

`src/` is verified with Verus.

| module | what it holds |
| --- | --- |
| `text`, `json`, `json_text` | texts as sequences of characters; JSON values, their compact and their canonical text |
| `request`, `prompt`, `segments` | a request, the steps in which its prompt is read, and the chain of cacheable prefixes |
| `meter` | the store of cached prefixes: expiry, capacity, snapshots |
| `binary64`, `usage` | proportions as binary64 arithmetic gives them; plans, and splitting a real total |
| `conversation`, `truncation`, `tool_compression`, `compressor` | the upstream conversation, and how it is made smaller |
| `*_laws` | what holds over several operations, as public proof functions |

Six items are trusted: `String::push`, serde_json's text of a string, SHA-256, `str::to_lowercase`,
`slice::sort_by_key` and the system clock. Each stands behind a small function whose doc comment
says what is claimed of it.

Tokens are not counted here. `segments::token_sources` lists what is to be counted, the caller
counts, and `usage::compute_cache_usage` takes the counts. Functions whose name ends in `_at` take
the time as an argument; the others read the clock and say what holds whatever it reads.

`app/` puts the library to work: the lock, the file, the background task, and the estimators.
`tests/` runs the library, in part against the standard library, serde_json and floating point.
