//! How a request is read: what each part adds to the prompt and to the chain of breakpoints.

use vstd::prelude::*;
use vstd::utf8::*;

use crate::chain_laws;
use crate::counting_laws;
use crate::json::{FieldView, JsonView};
use crate::json_text;
use crate::prompt;
use crate::prompt::{SourceView, StepView};
use crate::request;
use crate::request::{CacheControl, MessageView, RequestView, SystemView, ToolView};
use crate::segments;
use crate::segments::{Reading, Segment};
use crate::text;

verus! {

// ---------------------------------------------------------------------------
// Marks
// ---------------------------------------------------------------------------

/// Whether a time to live is written as one hour.
pub open spec fn says_one_hour(ttl: Option<Seq<char>>) -> bool {
    ttl matches Some(s) && s.len() == 2 && s[0] == '1' && (s[1] == 'h' || s[1] == 'H')
}

/// A mark lasts an hour where it says so, and five minutes otherwise.
pub proof fn law_marks_last_an_hour_or_five_minutes(ttl: Option<Seq<char>>)
    ensures
        says_one_hour(ttl) ==> prompt::ttl_secs(ttl) == 3600,
        !says_one_hour(ttl) ==> prompt::ttl_secs(ttl) == 300,
{
    reveal_strlit("1h");
    match ttl {
        Some(s) => {
            let hour = "1h"@;
            if text::same_ignoring_ascii_case(s, hour) {
                assert(text::ascii_lower(s[0]) == text::ascii_lower(hour[0]));
                assert(text::ascii_lower(s[1]) == text::ascii_lower(hour[1]));
                assert(s[0] == '1');
                assert(s[1] == 'h' || s[1] == 'H');
            }
            if says_one_hour(ttl) {
                assert(text::ascii_lower('H') == 'h');
                assert forall|i: int| 0 <= i < s.len() implies text::ascii_lower(#[trigger] s[i])
                    == text::ascii_lower(hour[i]) by {}
            }
        },
        None => {},
    }
}

/// A request to cache stands for a mark with the time to live that it names, if it names one.
pub proof fn law_requests_to_cache_are_marks(cache_control: CacheControl, ttl: String)
    ensures
        request::requested_ttl(None) is None,
        cache_control.ttl == Some(ttl) ==> request::requested_ttl(Some(cache_control)) == Some(
            Some(ttl@),
        ),
        cache_control.ttl is None ==> request::requested_ttl(Some(cache_control)) == Some(
            None::<Seq<char>>,
        ),
{
}

/// The steps of a mark: one breakpoint where there is a mark, with its time to live.
pub open spec fn is_mark(cache_control: Option<Option<Seq<char>>>, steps: Seq<StepView>) -> bool {
    match cache_control {
        Some(ttl) => steps.len() == 1 && steps[0] == (StepView::Breakpoint {
            ttl_secs: if says_one_hour(ttl) {
                3600
            } else {
                300
            },
        }),
        None => steps.len() == 0,
    }
}

proof fn lemma_mark(cache_control: Option<Option<Seq<char>>>)
    ensures
        is_mark(cache_control, prompt::mark_steps(cache_control)),
{
    if let Some(ttl) = cache_control {
        law_marks_last_an_hour_or_five_minutes(ttl);
    }
}

// ---------------------------------------------------------------------------
// The parts of a request
// ---------------------------------------------------------------------------

/// A request is read as its tools, its system prompt and its messages, in this order; one without
/// any of them has nothing to be read.
pub proof fn law_parts_are_read_in_order(req: RequestView)
    ensures
        prompt::request_steps(req) == prompt::request_steps(
            RequestView { system: None, messages: Seq::empty(), ..req },
        ) + prompt::request_steps(
            RequestView { tools: None, messages: Seq::empty(), ..req },
        ) + prompt::request_steps(RequestView { tools: None, system: None, ..req }),
        req.tools is None && req.system is None && req.messages.len() == 0
            ==> prompt::request_steps(req).len() == 0,
{
    let none = Seq::<StepView>::empty();
    let tools = prompt::tool_steps(match req.tools {
        Some(t) => t,
        None => Seq::empty(),
    });
    let systems = prompt::system_steps(match req.system {
        Some(s) => s,
        None => Seq::empty(),
    });
    let said = prompt::message_steps(req.messages);
    assert(prompt::tool_steps(Seq::empty()) =~= none);
    assert(prompt::system_steps(Seq::empty()) =~= none);
    assert(prompt::message_steps(Seq::empty()) =~= none);
    assert(tools + none + none =~= tools);
    assert(none + systems + none =~= systems);
    assert(none + none + said =~= said);
}

/// Whether `more` are the steps with one text and a mark, if there is one, behind them. What is
/// counted of it may be nothing.
pub open spec fn goes_on_with(
    steps: Seq<StepView>,
    more: Seq<StepView>,
    signature: Seq<char>,
    counted: Seq<char>,
    cache_control: Option<Option<Seq<char>>>,
) -> bool {
    &&& more.len() > steps.len()
    &&& more.take(steps.len() as int) == steps
    &&& more[steps.len() as int] == (StepView::Feed {
        signature,
        source: if counted.len() > 0 {
            Some(SourceView::Text(counted))
        } else {
            None
        },
    })
    &&& is_mark(cache_control, more.skip(steps.len() as int + 1))
}

proof fn lemma_goes_on(
    steps: Seq<StepView>,
    signature: Seq<char>,
    counted: Seq<char>,
    cache_control: Option<Option<Seq<char>>>,
)
    ensures
        goes_on_with(
            steps,
            steps.push(prompt::feed_text(signature, counted)) + prompt::mark_steps(cache_control),
            signature,
            counted,
            cache_control,
        ),
{
    let feed = prompt::feed_text(signature, counted);
    let mark = prompt::mark_steps(cache_control);
    let more = steps.push(feed) + mark;
    lemma_mark(cache_control);
    assert(more.take(steps.len() as int) =~= steps);
    assert(more.skip(steps.len() as int + 1) =~= mark);
}

/// One more tool is read as its name, its description and its schema, and as its mark.
pub proof fn law_tools_are_read(req: RequestView, tools: Seq<ToolView>, t: ToolView)
    requires
        req.system is None,
        req.messages.len() == 0,
    ensures
        ({
            let schema = json_text::compact(JsonView::Object(t.input_schema));
            goes_on_with(
                prompt::request_steps(RequestView { tools: Some(tools), ..req }),
                prompt::request_steps(RequestView { tools: Some(tools.push(t)), ..req }),
                "tool:"@ + t.name + seq!['|'] + t.description + seq!['|'] + schema,
                t.name + seq![' '] + t.description + seq![' '] + schema,
                t.cache_control,
            )
        }),
{
    let none = Seq::<StepView>::empty();
    reveal_strlit(" ");
    reveal_strlit("|");
    assert(" "@ =~= seq![' ']);
    assert("|"@ =~= seq!['|']);
    let a = prompt::tool_steps(tools);
    let b = prompt::tool_steps(tools.push(t));
    assert(tools.push(t).drop_last() =~= tools);
    lemma_goes_on(
        a,
        prompt::tool_signature_text(t),
        prompt::tool_counted_text(t),
        t.cache_control,
    );
    assert(prompt::system_steps(Seq::empty()) =~= none);
    assert(prompt::message_steps(req.messages) =~= none);
    assert(a + none + none =~= a);
    assert(b + none + none =~= b);
}

/// One more block of the system prompt is read as its text, behind `sys:`, and as its mark. All
/// billing headers are read as the same.
pub proof fn law_system_blocks_are_read(req: RequestView, systems: Seq<SystemView>, s: SystemView)
    requires
        req.messages.len() == 0,
    ensures
        goes_on_with(
            prompt::request_steps(RequestView { system: Some(systems), ..req }),
            prompt::request_steps(RequestView { system: Some(systems.push(s)), ..req }),
            "sys:"@ + if "x-anthropic-billing-header:"@.is_prefix_of(s.text) {
                "__anthropic_billing_header__"@
            } else {
                s.text
            },
            s.text,
            s.cache_control,
        ),
{
    let none = Seq::<StepView>::empty();
    let tools = prompt::tool_steps(match req.tools {
        Some(t) => t,
        None => Seq::empty(),
    });
    let a = prompt::system_steps(systems);
    let b = prompt::system_steps(systems.push(s));
    assert(systems.push(s).drop_last() =~= systems);
    let feed = prompt::feed_text(prompt::system_signature_text(s), s.text);
    let mark = prompt::mark_steps(s.cache_control);
    assert(prompt::message_steps(req.messages) =~= none);
    assert(tools + a + none =~= tools + a);
    assert(tools + b + none =~= (tools + a).push(feed) + mark);
    lemma_goes_on(tools + a, prompt::system_signature_text(s), s.text, s.cache_control);
}

/// One more message is read as its role, its content and its end. A text is read as it is; what is
/// neither a text nor a list of blocks is not read.
pub proof fn law_messages_are_read(req: RequestView, m: MessageView, s: Seq<char>)
    ensures
        ({
            let steps = prompt::request_steps(req);
            let more = prompt::request_steps(counting_laws::with_message(req, m));
            let n = steps.len() as int;
            &&& more.len() >= n + 2
            &&& more.take(n) == steps
            &&& more[n] == (StepView::Feed { signature: m.role, source: None })
            &&& more.last() == StepView::MessageEnd
            &&& m.content == JsonView::Text(s) ==> more.len() == n + 3 && goes_on_with(
                more.take(n + 1),
                more.take(n + 2),
                s,
                s,
                None,
            )
            &&& m.content == JsonView::Array(Seq::empty()) || (!(m.content is Text)
                && !(m.content is Array)) ==> more.len() == n + 2
        }),
{
    let steps = prompt::request_steps(req);
    let more = prompt::request_steps(counting_laws::with_message(req, m));
    let n = steps.len() as int;
    let role = StepView::Feed { signature: m.role, source: None };
    counting_laws::lemma_steps_of_message(req, m);
    let content = prompt::content_steps(m.content);
    assert(more.take(n) =~= steps);
    if m.content == JsonView::Text(s) {
        assert(more.take(n + 1) =~= steps.push(role));
        assert(more.take(n + 2) =~= steps.push(role).push(prompt::feed_text(s, s))
            + prompt::mark_steps(None));
        lemma_goes_on(steps.push(role), s, s, None);
    } else if m.content == JsonView::Array(Seq::empty()) {
        assert(content =~= Seq::<StepView>::empty());
    }
}

/// The mark of a block: the time to live that it gives, if that is a string.
pub open spec fn mark_of(block: JsonView) -> Option<Option<Seq<char>>> {
    match json_text::field(block, "cache_control"@) {
        Some(cc) => Some(
            match json_text::field(cc, "ttl"@) {
                Some(JsonView::Text(ttl)) => Some(ttl),
                _ => None,
            },
        ),
        None => None,
    }
}

/// One more block at the end of the last message is read, before the end of the message, as its
/// signature and as its mark; an image is counted as an image.
pub proof fn law_blocks_are_read(
    req: RequestView,
    role: Seq<char>,
    blocks: Seq<JsonView>,
    last: JsonView,
)
    ensures
        ({
            let fewer = prompt::request_steps(
                counting_laws::with_message(
                    req,
                    MessageView { role, content: JsonView::Array(blocks) },
                ),
            ).drop_last();
            let more = prompt::request_steps(
                counting_laws::with_message(
                    req,
                    MessageView { role, content: JsonView::Array(blocks.push(last)) },
                ),
            ).drop_last();
            let n = fewer.len() as int;
            &&& !counting_laws::is_image_block(last) ==> goes_on_with(
                fewer,
                more,
                prompt::block_signature_text(last),
                prompt::block_counted_text(last),
                mark_of(last),
            )
            &&& counting_laws::is_image_block(last) ==> {
                &&& more.len() > n
                &&& more.take(n) == fewer
                &&& more[n] is Feed
                &&& more[n]->signature == prompt::block_signature_text(last)
                &&& more[n]->source matches Some(x) && counting_laws::is_image_of(last, x)
                &&& is_mark(mark_of(last), more.skip(n + 1))
            }
        }),
{
    let a = MessageView { role, content: JsonView::Array(blocks) };
    let b = MessageView { role, content: JsonView::Array(blocks.push(last)) };
    counting_laws::lemma_steps_of_message(req, a);
    counting_laws::lemma_steps_of_message(req, b);
    assert(blocks.push(last).drop_last() =~= blocks);
    let start = prompt::request_steps(req).push(StepView::Feed { signature: role, source: None });
    let fewer = prompt::request_steps(counting_laws::with_message(req, a)).drop_last();
    let more = prompt::request_steps(counting_laws::with_message(req, b)).drop_last();
    let feed = prompt::block_feed(last);
    let mark = prompt::mark_steps(prompt::block_mark(last));
    assert(prompt::block_mark(last) == mark_of(last));
    assert(fewer =~= start + prompt::block_steps(blocks));
    assert(more =~= fewer.push(feed) + mark);
    lemma_mark(prompt::block_mark(last));
    if counting_laws::is_image_block(last) {
        let n = fewer.len() as int;
        assert(more.take(n) =~= fewer);
        assert(more.skip(n + 1) =~= mark);
        counting_laws::lemma_kinds_are_not_empty();
        chain_laws::lemma_kinds_are_different();
    } else {
        lemma_goes_on(
            fewer,
            prompt::block_signature_text(last),
            prompt::block_counted_text(last),
            prompt::block_mark(last),
        );
    }
}

// ---------------------------------------------------------------------------
// Signatures of blocks
// ---------------------------------------------------------------------------

/// The kind of a block; empty where it has none.
pub open spec fn kind_of(v: JsonView) -> Seq<char> {
    match json_text::field(v, "type"@) {
        Some(JsonView::Text(kind)) => kind,
        _ => Seq::empty(),
    }
}

/// The string of a block under a key; empty where it has none.
pub open spec fn string_of(v: JsonView, key: Seq<char>) -> Seq<char> {
    match json_text::field(v, key) {
        Some(JsonView::Text(s)) => s,
        _ => Seq::empty(),
    }
}

/// How the value of a block under a key is written; empty where it has none.
pub open spec fn written_of(v: JsonView, key: Seq<char>) -> Seq<char> {
    match json_text::field(v, key) {
        Some(x) => json_text::canonical(x),
        None => Seq::empty(),
    }
}

/// The signature of a block names its kind, whatever this is, and then says what the block holds:
/// what is said or thought, the name and the input of a call, whether a result is an error and its
/// content, the media type and the data of an image, and everything but marks of any other block.
pub proof fn law_signatures_say_what_blocks_hold(v: JsonView)
    ensures
        ({
            let signature = prompt::block_signature_text(v);
            let kind = kind_of(v);
            let head = "block:"@ + kind + seq!['|'];
            let rest = signature.skip(head.len() as int);
            let failed = json_text::field(v, "is_error"@) == Some(JsonView::Bool(true));
            let source = json_text::field(v, "source"@);
            &&& head.is_prefix_of(signature)
            &&& kind == "text"@ ==> rest == string_of(v, "text"@)
            &&& kind == "thinking"@ ==> rest == string_of(v, "thinking"@)
            &&& kind == "redacted_thinking"@ ==> rest == string_of(v, "data"@)
            &&& kind == "tool_use"@ ==> rest == string_of(v, "name"@) + seq!['|'] + written_of(
                v,
                "input"@,
            )
            &&& kind == "tool_result"@ && failed ==> rest == "true"@ + seq!['|'] + written_of(
                v,
                "content"@,
            )
            &&& kind == "tool_result"@ && !failed ==> rest == "false"@ + seq!['|'] + written_of(
                v,
                "content"@,
            )
            &&& kind == "image"@ && source is Some && string_of(source->0, "data"@).len() > 0
                ==> rest == string_of(source->0, "media_type"@) + seq!['|'] + string_of(
                source->0,
                "data"@,
            )
            &&& kind == "image"@ && source is Some && string_of(source->0, "data"@).len() == 0
                ==> rest == string_of(source->0, "media_type"@) + seq!['|'] + json_text::canonical(
                v,
            )
            &&& kind == "image"@ && source is None ==> rest == seq!['|'] + json_text::canonical(v)
            &&& counting_laws::is_of_another_kind(v) ==> rest == json_text::canonical(
                prompt::stripped(v),
            )
        }),
{
    chain_laws::lemma_kinds_are_different();
    counting_laws::lemma_kinds_are_not_empty();
    reveal_strlit("|");
    reveal_strlit("block:");
    reveal_strlit("text");
    reveal_strlit("thinking");
    reveal_strlit("redacted_thinking");
    reveal_strlit("tool_use");
    reveal_strlit("tool_result");
    reveal_strlit("image");
    reveal_strlit("block:text|");
    reveal_strlit("block:thinking|");
    reveal_strlit("block:redacted_thinking|");
    reveal_strlit("block:tool_use|");
    reveal_strlit("block:tool_result|");
    reveal_strlit("block:image|");
    assert("|"@ =~= seq!['|']);
    assert("block:text|"@ =~= "block:"@ + "text"@ + seq!['|']);
    assert("block:thinking|"@ =~= "block:"@ + "thinking"@ + seq!['|']);
    assert("block:redacted_thinking|"@ =~= "block:"@ + "redacted_thinking"@ + seq!['|']);
    assert("block:tool_use|"@ =~= "block:"@ + "tool_use"@ + seq!['|']);
    assert("block:tool_result|"@ =~= "block:"@ + "tool_result"@ + seq!['|']);
    assert("block:image|"@ =~= "block:"@ + "image"@ + seq!['|']);
    let signature = prompt::block_signature_text(v);
    let kind = kind_of(v);
    assert(kind == json_text::text_or_empty(v, "type"@));
    let head = "block:"@ + kind + seq!['|'];
    let failed = json_text::field(v, "is_error"@) == Some(JsonView::Bool(true));
    let source = json_text::field(v, "source"@);
    if kind == "text"@ {
        lemma_head(head, string_of(v, "text"@));
    } else if kind == "thinking"@ {
        lemma_head(head, string_of(v, "thinking"@));
    } else if kind == "redacted_thinking"@ {
        lemma_head(head, string_of(v, "data"@));
    } else if kind == "tool_use"@ {
        let rest = string_of(v, "name"@) + seq!['|'] + written_of(v, "input"@);
        lemma_head(head, rest);
        assert(signature =~= head + rest);
    } else if kind == "tool_result"@ {
        let flag = if failed {
            "true"@
        } else {
            "false"@
        };
        let rest = flag + seq!['|'] + written_of(v, "content"@);
        lemma_head(head, rest);
        assert(signature =~= head + rest);
    } else if kind == "image"@ {
        let (media_type, data) = prompt::image_source(v);
        let rest = media_type + seq!['|'] + (if data.len() == 0 {
            json_text::canonical(v)
        } else {
            data
        });
        lemma_head(head, rest);
        assert(signature =~= head + rest);
        if source is None {
            assert(rest =~= seq!['|'] + json_text::canonical(v));
        }
    } else {
        lemma_head(head, json_text::canonical(prompt::stripped(v)));
    }
}

proof fn lemma_head(head: Seq<char>, rest: Seq<char>)
    ensures
        head.is_prefix_of(head + rest),
        (head + rest).skip(head.len() as int) == rest,
{
    assert(head =~= (head + rest).take(head.len() as int));
    assert((head + rest).skip(head.len() as int) =~= rest);
}

/// A value without marks has them taken out at every depth: an item of a list stays, with its marks
/// taken out; a field of an object stays likewise, unless it is a mark. What is neither stays.
pub proof fn law_marks_are_taken_out_at_every_depth(
    v: JsonView,
    items: Seq<JsonView>,
    fields: Seq<FieldView>,
    f: FieldView,
)
    ensures
        !(v is Array) && !(v is Object) ==> prompt::stripped(v) == v,
        prompt::stripped(JsonView::Array(Seq::empty())) == JsonView::Array(Seq::empty()),
        prompt::stripped(JsonView::Object(Seq::empty())) == JsonView::Object(Seq::empty()),
        ({
            let before = prompt::stripped(JsonView::Array(items));
            let after = prompt::stripped(JsonView::Array(items.push(v)));
            before is Array && after == JsonView::Array(
                before->Array_0.push(prompt::stripped(v)),
            )
        }),
        ({
            let before = prompt::stripped(JsonView::Object(fields));
            let after = prompt::stripped(JsonView::Object(fields.push(f)));
            &&& before is Object
            &&& f.key == "cache_control"@ ==> after == before
            &&& f.key != "cache_control"@ ==> after == JsonView::Object(
                before->Object_0.push(
                    FieldView { key: f.key, value: prompt::stripped(f.value) },
                ),
            )
        }),
{
    assert(items.push(v).drop_last() =~= items);
    assert(fields.push(f).drop_last() =~= fields);
    reveal_with_fuel(prompt::stripped, 3);
    reveal_with_fuel(prompt::stripped_items, 3);
    reveal_with_fuel(prompt::stripped_fields, 3);
}

// ---------------------------------------------------------------------------
// The chain
// ---------------------------------------------------------------------------

/// Before anything is read there are no tokens, no breakpoints and no mark.
pub proof fn law_reading_begins_empty(seed: Seq<char>, counts: Seq<u32>, caching: bool)
    ensures
        ({
            let r = segments::read_steps(seed, Seq::empty(), counts, caching);
            &&& r.prefix == seed
            &&& r.prompt_tokens == 0
            &&& r.segments.len() == 0
            &&& r.active_ttl is None
        }),
{
}

/// What is fed to the prompt comes behind what was fed before, sets no breakpoint and takes none
/// back.
pub proof fn law_texts_are_fed_in_order(
    seed: Seq<char>,
    steps: Seq<StepView>,
    signature: Seq<char>,
    source: Option<SourceView>,
    counts: Seq<u32>,
)
    ensures
        ({
            let before = segments::read_steps(seed, steps, counts, true);
            let after = segments::read_steps(
                seed,
                steps.push(StepView::Feed { signature, source }),
                counts,
                true,
            );
            &&& after.prefix == before.prefix + signature
            &&& after.segments == before.segments
            &&& after.active_ttl == before.active_ttl
            &&& source is None ==> after.prompt_tokens == before.prompt_tokens
        }),
{
    assert(steps.push(StepView::Feed { signature, source }).drop_last() =~= steps);
}

/// Whether the chain has a breakpoint at the end of what was read, with a time to live: one more
/// than before or, where the last one was here already, that one with the longer time to live.
/// Nothing is cached where no token has been read.
pub open spec fn breaks_here(before: Reading, after: Seq<Segment>, ttl_secs: i64) -> bool {
    let here = segments::fingerprint(before.prefix);
    let chain = before.segments;
    let was_here = chain.len() > 0 && chain.last().hash == here && chain.last().cumulative_tokens
        == before.prompt_tokens;
    &&& before.prompt_tokens == 0 ==> after == chain
    &&& before.prompt_tokens > 0 ==> {
        &&& after.len() > 0
        &&& after.last().hash == here
        &&& after.last().cumulative_tokens == before.prompt_tokens
        &&& !was_here ==> after.drop_last() == chain && after.last().ttl_secs == ttl_secs
        &&& was_here ==> {
            &&& after.drop_last() == chain.drop_last()
            &&& after.last().ttl_secs >= ttl_secs
            &&& after.last().ttl_secs >= chain.last().ttl_secs
            &&& after.last().ttl_secs == ttl_secs || after.last().ttl_secs == chain.last().ttl_secs
        }
    }
}

proof fn lemma_breaks_here(
    seed: Seq<char>,
    steps: Seq<StepView>,
    counts: Seq<u32>,
    ttl_secs: i64,
)
    ensures
        ({
            let r = segments::read_steps(seed, steps, counts, true);
            breaks_here(r, segments::with_segment(r, ttl_secs), ttl_secs)
        }),
{
    let r = segments::read_steps(seed, steps, counts, true);
    chain_laws::lemma_tokens_ascend(seed, steps, counts, true);
    let after = segments::with_segment(r, ttl_secs);
    if r.prompt_tokens > 0 {
        if after.len() == r.segments.len() {
            assert(after.drop_last() =~= r.segments.drop_last());
        } else {
            assert(after.drop_last() =~= r.segments);
        }
    }
}

/// A mark sets a breakpoint where it stands, and its time to live is that of the messages to come.
pub proof fn law_marks_set_breakpoints(
    seed: Seq<char>,
    steps: Seq<StepView>,
    ttl_secs: i64,
    counts: Seq<u32>,
)
    ensures
        ({
            let before = segments::read_steps(seed, steps, counts, true);
            let after = segments::read_steps(
                seed,
                steps.push(StepView::Breakpoint { ttl_secs }),
                counts,
                true,
            );
            &&& after.prefix == before.prefix
            &&& after.prompt_tokens == before.prompt_tokens
            &&& after.active_ttl == Some(ttl_secs)
            &&& breaks_here(before, after.segments, ttl_secs)
        }),
{
    assert(steps.push(StepView::Breakpoint { ttl_secs }).drop_last() =~= steps);
    lemma_breaks_here(seed, steps, counts, ttl_secs);
}

/// The end of a message sets a breakpoint with the time to live of the last mark; where there was
/// no mark it sets none.
pub proof fn law_ends_of_messages_set_breakpoints(
    seed: Seq<char>,
    steps: Seq<StepView>,
    counts: Seq<u32>,
)
    ensures
        ({
            let before = segments::read_steps(seed, steps, counts, true);
            let after = segments::read_steps(
                seed,
                steps.push(StepView::MessageEnd),
                counts,
                true,
            );
            &&& after.prefix == before.prefix
            &&& after.prompt_tokens == before.prompt_tokens
            &&& after.active_ttl == before.active_ttl
            &&& before.active_ttl is None ==> after.segments == before.segments
            &&& before.active_ttl matches Some(ttl) ==> breaks_here(before, after.segments, ttl)
        }),
{
    assert(steps.push(StepView::MessageEnd).drop_last() =~= steps);
    let before = segments::read_steps(seed, steps, counts, true);
    if let Some(ttl) = before.active_ttl {
        lemma_breaks_here(seed, steps, counts, ttl);
    }
}

/// What is fed to the prompt, in order.
pub open spec fn fed(steps: Seq<StepView>) -> Seq<char>
    decreases steps.len(),
{
    if steps.len() == 0 {
        Seq::empty()
    } else {
        match steps.last() {
            StepView::Feed { signature, source: _ } => fed(steps.drop_last()) + signature,
            _ => fed(steps.drop_last()),
        }
    }
}

proof fn lemma_fed(seed: Seq<char>, steps: Seq<StepView>, counts: Seq<u32>)
    ensures
        segments::read_steps(seed, steps, counts, true).prefix == seed + fed(steps),
    decreases steps.len(),
{
    if steps.len() > 0 {
        lemma_fed(seed, steps.drop_last(), counts);
    }
    assert(segments::read_steps(seed, steps, counts, true).prefix =~= seed + fed(steps));
}

/// The prompt of a request is everything that its parts feed to it, in order, behind what tells the
/// account, the model and the choice of tools.
pub proof fn law_prompts_hold_everything(req: RequestView, credential_id: u64, counts: Seq<u32>)
    requires
        credential_id != 0,
    ensures
        segments::reading(req, credential_id, counts).prefix == segments::seed_text(
            credential_id,
            req.model,
            req.tool_choice,
        ) + fed(prompt::request_steps(req)),
{
    lemma_fed(
        segments::seed_text(credential_id, req.model, req.tool_choice),
        prompt::request_steps(req),
        counts,
    );
}

/// The breakpoints of a request are those of its steps, read from the beginning.
pub proof fn law_requests_are_read_step_by_step(
    req: RequestView,
    credential_id: u64,
    counts: Seq<u32>,
)
    requires
        credential_id != 0,
    ensures
        segments::reading(req, credential_id, counts).segments == segments::read_steps(
            segments::seed_text(credential_id, req.model, req.tool_choice),
            prompt::request_steps(req),
            counts,
            true,
        ).segments,
{
}

/// A prompt begins with the account, the model and the choice of tools, `null` where there is none.
pub proof fn law_prompts_begin_with_their_scope(
    credential_id: u64,
    model: Seq<char>,
    tool_choice: Option<JsonView>,
)
    ensures
        segments::seed_text(credential_id, model, tool_choice) == "credential:"@ + text::decimal(
            credential_id as nat,
        ) + seq!['{'] + json_text::quoted("model"@) + seq![':'] + json_text::quoted(model)
            + seq![','] + json_text::quoted("tool_choice"@) + seq![':'] + (match tool_choice {
            Some(v) => json_text::canonical(v),
            None => "null"@,
        }) + seq!['}'],
{
    let chosen = match tool_choice {
        Some(v) => v,
        None => JsonView::Null,
    };
    let fields = segments::prelude(model, tool_choice);
    reveal_strlit("model");
    reveal_strlit("tool_choice");
    assert(text::text_le("model"@, "tool_choice"@)) by {
        assert("model"@[0] < "tool_choice"@[0]);
    }
    assert(fields =~= seq![
        FieldView { key: "model"@, value: JsonView::Text(model) },
        FieldView { key: "tool_choice"@, value: chosen },
    ]);
    lemma_two_fields_are_written("model"@, JsonView::Text(model), "tool_choice"@, chosen);
    lemma_put_together(
        "credential:"@ + text::decimal(credential_id as nat),
        json_text::quoted("model"@),
        json_text::quoted(model),
        json_text::quoted("tool_choice"@),
        json_text::canonical(chosen),
    );
}

/// How an object with two fields in order is written.
#[verifier::spinoff_prover]
proof fn lemma_two_fields_are_written(
    k1: Seq<char>,
    v1: JsonView,
    k2: Seq<char>,
    v2: JsonView,
)
    requires
        text::text_le(k1, k2),
    ensures
        json_text::canonical(
            JsonView::Object(
                seq![FieldView { key: k1, value: v1 }, FieldView { key: k2, value: v2 }],
            ),
        ) == seq!['{'] + (json_text::quoted(k1) + seq![':'] + json_text::canonical(v1) + seq![',']
            + (json_text::quoted(k2) + seq![':'] + json_text::canonical(v2))) + seq!['}'],
{
    let f1 = FieldView { key: k1, value: v1 };
    let f2 = FieldView { key: k2, value: v2 };
    let fields = seq![f1, f2];
    let none = Seq::<FieldView>::empty();
    let w1 = json_text::WrittenView {
        key: k1,
        text: json_text::quoted(k1) + seq![':'] + json_text::canonical(v1),
    };
    let w2 = json_text::WrittenView {
        key: k2,
        text: json_text::quoted(k2) + seq![':'] + json_text::canonical(v2),
    };
    let nothing = Seq::<json_text::WrittenView>::empty();
    assert(fields.drop_last() =~= seq![f1]);
    assert(seq![f1].drop_last() =~= none);
    assert(json_text::written_fields(none) =~= nothing);
    assert(json_text::written_fields(seq![f1]) =~= seq![w1]);
    assert(json_text::written_fields(fields) =~= seq![w1, w2]);
    assert(seq![w1, w2].drop_last() =~= seq![w1]);
    assert(seq![w1].drop_last() =~= nothing);
    assert(json_text::sorted_by_key(nothing) =~= nothing);
    assert(json_text::insert_by_key(nothing, w1) =~= seq![w1]);
    assert(json_text::sorted_by_key(seq![w1]) =~= seq![w1]);
    assert(json_text::insert_by_key(seq![w1], w2) =~= seq![w1, w2]);
    assert(json_text::sorted_by_key(seq![w1, w2]) =~= seq![w1, w2]);
    let texts = json_text::written_texts(seq![w1, w2]);
    assert(texts =~= seq![w1.text].push(w2.text));
    text::lemma_join_push(seq![w1.text], w2.text, seq![',']);
    assert(text::join(seq![w1.text], seq![',']) == w1.text);
}

proof fn lemma_put_together(
    head: Seq<char>,
    k1: Seq<char>,
    v1: Seq<char>,
    k2: Seq<char>,
    v2: Seq<char>,
)
    ensures
        head + (seq!['{'] + (k1 + seq![':'] + v1 + seq![','] + (k2 + seq![':'] + v2)) + seq!['}'])
            == head + seq!['{'] + k1 + seq![':'] + v1 + seq![','] + k2 + seq![':'] + v2
            + seq!['}'],
{
    assert(head + (seq!['{'] + (k1 + seq![':'] + v1 + seq![','] + (k2 + seq![':'] + v2))
        + seq!['}']) =~= head + seq!['{'] + k1 + seq![':'] + v1 + seq![','] + k2 + seq![':'] + v2
        + seq!['}']);
}

/// One more message with a text puts its role and its text behind the prompt.
pub proof fn law_messages_come_behind_the_prompt(
    req: RequestView,
    role: Seq<char>,
    s: Seq<char>,
    credential_id: u64,
    counts: Seq<u32>,
)
    requires
        credential_id != 0,
    ensures
        segments::reading(
            counting_laws::with_message(req, MessageView { role, content: JsonView::Text(s) }),
            credential_id,
            counts,
        ).prefix == segments::reading(req, credential_id, counts).prefix + role + s,
{
    let m = MessageView { role, content: JsonView::Text(s) };
    let seed = segments::seed_text(credential_id, req.model, req.tool_choice);
    let steps = prompt::request_steps(req);
    counting_laws::lemma_steps_of_message(req, m);
    let a = steps.push(StepView::Feed { signature: role, source: None });
    let feed = prompt::feed_text(s, s);
    assert((a + prompt::content_steps(m.content)) =~= a.push(feed));
    assert(steps.push(StepView::Feed { signature: role, source: None }).drop_last() =~= steps);
    assert(a.push(feed).drop_last() =~= a);
    assert(a.push(feed).push(StepView::MessageEnd).drop_last() =~= a.push(feed));
    reveal_with_fuel(segments::read_steps, 4);
}

/// The fingerprint of a prompt is the number that the first eight bytes of its digest are, the
/// first of them the highest.
pub proof fn law_fingerprints_are_the_first_eight_bytes(prefix: Seq<char>)
    requires
        segments::sha256(encode_utf8(prefix)).len() == 32,
    ensures
        ({
            let d = segments::sha256(encode_utf8(prefix));
            segments::fingerprint(prefix) == 0x100_0000_0000_0000 * d[0] + 0x1_0000_0000_0000 * d[1]
                + 0x100_0000_0000 * d[2] + 0x1_0000_0000 * d[3] + 0x100_0000 * d[4] + 0x1_0000
                * d[5] + 0x100 * d[6] + d[7]
        }),
{
    let d = segments::sha256(encode_utf8(prefix));
    let head = d.take(8);
    reveal_with_fuel(segments::big_endian, 9);
    assert(head.drop_last() =~= d.take(7));
    assert(d.take(7).drop_last() =~= d.take(6));
    assert(d.take(6).drop_last() =~= d.take(5));
    assert(d.take(5).drop_last() =~= d.take(4));
    assert(d.take(4).drop_last() =~= d.take(3));
    assert(d.take(3).drop_last() =~= d.take(2));
    assert(d.take(2).drop_last() =~= d.take(1));
    assert(d.take(1).drop_last() =~= d.take(0));
    assert(d.take(0).len() == 0);
}

} // verus!
