//! The chain of cacheable prefixes of a prompt.

use sha2::Digest;
use vstd::prelude::*;
use vstd::utf8::*;

use crate::json;
use crate::json::{FieldView, Json, JsonField, JsonView};
use crate::json_text;
use crate::prompt;
use crate::prompt::{PromptStep, SourceView, StepView, TokenSource};
use crate::request::{MessagesRequest, RequestView};
use crate::text;

verus! {

broadcast use {json::group_json_view, vstd::string::group_string_axioms};

/// A prefix of a prompt, from its beginning to a breakpoint.
#[derive(Debug, Clone, Copy)]
pub struct Segment {
    /// The fingerprint of the prefix.
    pub hash: u64,
    /// The tokens of the prefix.
    pub cumulative_tokens: u32,
    /// The time to live, in seconds.
    pub ttl_secs: i64,
}

// ---------------------------------------------------------------------------
// Fingerprints
// ---------------------------------------------------------------------------

/// The SHA-256 digest of some bytes.
pub uninterp spec fn sha256(bytes: Seq<u8>) -> Seq<u8>;

/// The SHA-256 digest of `data`, from `sha2::Sha256::digest`.
///
/// Claimed of that function: what it returns depends on the bytes alone, and has 32 bytes.
#[verifier::external_body]
fn sha256_digest(data: &[u8]) -> (r: Vec<u8>)
    ensures
        r@ == sha256(data@),
        r@.len() == 32,
{
    sha2::Sha256::digest(data).to_vec()
}

/// The number that some bytes stand for, the most significant byte first.
pub open spec fn big_endian(bytes: Seq<u8>) -> nat
    decreases bytes.len(),
{
    if bytes.len() == 0 {
        0
    } else {
        256 * big_endian(bytes.drop_last()) + bytes.last() as nat
    }
}

/// The number that the first eight bytes stand for, the most significant byte first.
pub fn leading_u64(bytes: &Vec<u8>) -> (r: u64)
    requires
        bytes@.len() >= 8,
    ensures
        r == big_endian(bytes@.take(8)),
{
    let mut r: u64 = 0;
    let mut i: usize = 0;
    while i < 8
        invariant
            bytes@.len() >= 8,
            i <= 8,
            r == big_endian(bytes@.take(i as int)),
            i == 0 ==> r == 0,
            i == 1 ==> r <= 0xff,
            i == 2 ==> r <= 0xffff,
            i == 3 ==> r <= 0xff_ffff,
            i == 4 ==> r <= 0xffff_ffff,
            i == 5 ==> r <= 0xff_ffff_ffff,
            i == 6 ==> r <= 0xffff_ffff_ffff,
            i == 7 ==> r <= 0xff_ffff_ffff_ffff,
        decreases 8 - i,
    {
        assert(bytes@.take(i + 1).drop_last() =~= bytes@.take(i as int));
        r = 256 * r + bytes[i] as u64;
        i = i + 1;
    }
    r
}

/// The fingerprint of a text: the first eight bytes of the digest of its UTF-8 form.
pub open spec fn fingerprint(prefix: Seq<char>) -> u64 {
    big_endian(sha256(encode_utf8(prefix)).take(8)) as u64
}

/// The fingerprint of a text.
pub fn fingerprint_of(prefix: &str) -> (r: u64)
    ensures
        r == fingerprint(prefix@),
{
    let digest = sha256_digest(prefix.as_bytes());
    leading_u64(&digest)
}

/// What stands before the prompt: the model, and how tools are to be chosen.
pub open spec fn prelude(model: Seq<char>, tool_choice: Option<JsonView>) -> Seq<FieldView> {
    seq![
        FieldView { key: "model"@, value: JsonView::Text(model) },
        FieldView {
            key: "tool_choice"@,
            value: match tool_choice {
                Some(v) => v,
                None => JsonView::Null,
            },
        },
    ]
}

/// The text at the beginning of every prefix: whose account is used, the model, and how tools are
/// to be chosen.
pub open spec fn seed_text(
    credential_id: u64,
    model: Seq<char>,
    tool_choice: Option<JsonView>,
) -> Seq<char> {
    "credential:"@ + text::decimal(credential_id as nat) + json_text::canonical(
        JsonView::Object(prelude(model, tool_choice)),
    )
}

fn seed(credential_id: u64, req: &MessagesRequest) -> (r: String)
    ensures
        r@ == seed_text(credential_id, req@.model, req@.tool_choice),
{
    let mut out = "credential:".to_string();
    let id = text::decimal_text(credential_id);
    out.append(id.as_str());
    let mut fields: Vec<JsonField> = Vec::new();
    fields.push(JsonField { key: "model".to_string(), value: Json::Text(req.model.clone()) });
    let choice = match &req.tool_choice {
        Some(v) => v.clone(),
        None => Json::Null,
    };
    fields.push(JsonField { key: "tool_choice".to_string(), value: choice });
    assert(json::fields_view(fields@) =~= prelude(req@.model, req@.tool_choice));
    let before = Json::Object(fields);
    let before_text = json_text::canonical_json(&before);
    out.append(before_text.as_str());
    out
}

// ---------------------------------------------------------------------------
// What is to be counted
// ---------------------------------------------------------------------------

/// What is counted in some steps, in order.
pub open spec fn sources(steps: Seq<StepView>) -> Seq<SourceView>
    decreases steps.len(),
{
    if steps.len() == 0 {
        Seq::empty()
    } else {
        let before = sources(steps.drop_last());
        match steps.last() {
            StepView::Feed { signature: _, source: Some(s) } => before.push(s),
            _ => before,
        }
    }
}

pub open spec fn sources_view(s: Seq<TokenSource>) -> Seq<SourceView> {
    s.map_values(|x: TokenSource| x@)
}

/// Everything in the prompt of a request that is to be counted in tokens, in order.
pub fn token_sources(req: &MessagesRequest) -> (r: Vec<TokenSource>)
    ensures
        sources_view(r@) == sources(prompt::request_steps(req@)),
{
    let steps = prompt::prompt_steps(req);
    let mut out: Vec<TokenSource> = Vec::new();
    let mut i: usize = 0;
    let ghost all = prompt::steps_view(steps@);
    assert(sources_view(out@) =~= sources(all.take(0)));
    while i < steps.len()
        invariant
            i <= steps@.len(),
            all == prompt::steps_view(steps@),
            sources_view(out@) == sources(all.take(i as int)),
        decreases steps@.len() - i,
    {
        assert(all.take(i + 1).drop_last() =~= all.take(i as int));
        match &steps[i] {
            PromptStep::Feed { signature: _, source: Some(s) } => {
                let copy = match s {
                    TokenSource::Text(t) => TokenSource::Text(t.clone()),
                    TokenSource::Image { media_type, data } => TokenSource::Image {
                        media_type: media_type.clone(),
                        data: data.clone(),
                    },
                };
                assert(sources_view(out@.push(copy)) =~= sources_view(out@).push(s@));
                out.push(copy);
            },
            _ => {},
        }
        i = i + 1;
    }
    assert(all.take(i as int) =~= all);
    out
}

/// The tokens that an estimate stands for; an estimate below zero stands for none.
pub fn tokens_from_estimate(estimate: i32) -> (r: u32)
    ensures
        r == if estimate < 0 {
            0
        } else {
            estimate as int
        },
{
    if estimate < 0 {
        0
    } else {
        estimate as u32
    }
}

// ---------------------------------------------------------------------------
// The chain of prefixes
// ---------------------------------------------------------------------------

/// The sum of `a` and `b`, or the largest number there is.
pub open spec fn saturating_sum(a: u32, b: u32) -> u32 {
    if a + b > u32::MAX {
        u32::MAX
    } else {
        (a + b) as u32
    }
}

/// How far the reading of a prompt has come.
#[verifier::ext_equal]
pub struct Reading {
    /// The text fed so far.
    pub prefix: Seq<char>,
    /// The tokens of that text.
    pub cache_tokens: u32,
    /// The tokens of everything read so far.
    pub prompt_tokens: u32,
    /// How many counts have been used.
    pub used: nat,
    /// The time to live that message ends inherit.
    pub active_ttl: Option<i64>,
    /// The prefixes found.
    pub segments: Seq<Segment>,
}

/// The larger of two times to live.
pub open spec fn later(a: i64, b: i64) -> i64 {
    if a >= b {
        a
    } else {
        b
    }
}

/// `segments` with the prefix that ends here. A prefix of the same fingerprint and length as the
/// last one is that one, with the longer time to live; one without tokens is none.
pub open spec fn with_segment(r: Reading, ttl_secs: i64) -> Seq<Segment> {
    let hash = fingerprint(r.prefix);
    let n = r.segments.len();
    if r.cache_tokens == 0 {
        r.segments
    } else if n > 0 && r.segments[n - 1].hash == hash && r.segments[n - 1].cumulative_tokens
        == r.cache_tokens {
        r.segments.update(
            n - 1,
            Segment {
                hash,
                cumulative_tokens: r.cache_tokens,
                ttl_secs: later(r.segments[n - 1].ttl_secs, ttl_secs),
            },
        )
    } else {
        r.segments.push(Segment { hash, cumulative_tokens: r.cache_tokens, ttl_secs })
    }
}

/// One step further. Without caching, nothing enters the prefix and no prefix is found.
pub open spec fn read_step(r: Reading, step: StepView, counts: Seq<u32>, caching: bool) -> Reading {
    match step {
        StepView::Feed { signature, source } => {
            let n = if source is Some {
                counts[r.used as int]
            } else {
                0
            };
            Reading {
                prefix: if caching {
                    r.prefix + signature
                } else {
                    r.prefix
                },
                cache_tokens: if caching {
                    saturating_sum(r.cache_tokens, n)
                } else {
                    r.cache_tokens
                },
                prompt_tokens: saturating_sum(r.prompt_tokens, n),
                used: if source is Some {
                    r.used + 1
                } else {
                    r.used
                },
                ..r
            }
        },
        StepView::Breakpoint { ttl_secs } => Reading {
            active_ttl: Some(ttl_secs),
            segments: if caching {
                with_segment(r, ttl_secs)
            } else {
                r.segments
            },
            ..r
        },
        StepView::MessageEnd => Reading {
            segments: match r.active_ttl {
                Some(ttl) if caching => with_segment(r, ttl),
                _ => r.segments,
            },
            ..r
        },
    }
}

/// Where reading some steps leads, `counts` being the tokens of what is counted in them.
pub open spec fn read_steps(
    seed: Seq<char>,
    steps: Seq<StepView>,
    counts: Seq<u32>,
    caching: bool,
) -> Reading
    decreases steps.len(),
{
    if steps.len() == 0 {
        Reading {
            prefix: seed,
            cache_tokens: 0,
            prompt_tokens: 0,
            used: 0,
            active_ttl: None,
            segments: Seq::empty(),
        }
    } else {
        read_step(read_steps(seed, steps.drop_last(), counts, caching), steps.last(), counts, caching)
    }
}

/// Where reading the prompt of a request leads.
pub open spec fn reading(req: RequestView, credential_id: u64, counts: Seq<u32>) -> Reading {
    read_steps(
        seed_text(credential_id, req.model, req.tool_choice),
        prompt::request_steps(req),
        counts,
        credential_id != 0,
    )
}

pub proof fn lemma_used(seed: Seq<char>, steps: Seq<StepView>, counts: Seq<u32>, caching: bool)
    ensures
        read_steps(seed, steps, counts, caching).used == sources(steps).len(),
    decreases steps.len(),
{
    if steps.len() > 0 {
        lemma_used(seed, steps.drop_last(), counts, caching);
    }
}

proof fn lemma_sources_grow(steps: Seq<StepView>, i: int)
    requires
        0 <= i <= steps.len(),
    ensures
        sources(steps.take(i)).len() <= sources(steps).len(),
    decreases steps.len() - i,
{
    if i < steps.len() {
        assert(steps.take(i + 1).drop_last() =~= steps.take(i));
        lemma_sources_grow(steps, i + 1);
    } else {
        assert(steps.take(i) =~= steps);
    }
}

fn add_segment(
    segments: &mut Vec<Segment>,
    prefix: &String,
    cache_tokens: u32,
    ttl_secs: i64,
    Ghost(r): Ghost<Reading>,
)
    requires
        r.prefix == prefix@,
        r.cache_tokens == cache_tokens,
        r.segments == old(segments)@,
    ensures
        final(segments)@ == with_segment(r, ttl_secs),
{
    if cache_tokens == 0 {
        return;
    }
    let hash: u64 = fingerprint_of(prefix.as_str());
    let n: usize = segments.len();
    if n > 0 && segments[n - 1].hash == hash && segments[n - 1].cumulative_tokens == cache_tokens {
        let earlier: i64 = segments[n - 1].ttl_secs;
        let ttl: i64 = if earlier >= ttl_secs {
            earlier
        } else {
            ttl_secs
        };
        segments.set(n - 1, Segment { hash, cumulative_tokens: cache_tokens, ttl_secs: ttl });
    } else {
        segments.push(Segment { hash, cumulative_tokens: cache_tokens, ttl_secs });
    }
}

/// The chain of cacheable prefixes of a request's prompt, the tokens of the whole prompt, and
/// whether prompts of this account are cached at all.
///
/// `counts` holds the tokens of each of the request's [`token_sources`].
pub fn extract_segments(req: &MessagesRequest, credential_id: u64, counts: &Vec<u32>) -> (r: (
    Vec<Segment>,
    u32,
    bool,
))
    requires
        counts@.len() == sources(prompt::request_steps(req@)).len(),
    ensures
        r.0@ == reading(req@, credential_id, counts@).segments,
        r.1 == reading(req@, credential_id, counts@).prompt_tokens,
        r.2 == (credential_id != 0),
{
    let caching: bool = credential_id != 0;
    let mut prefix = seed(credential_id, req);
    let mut cache_tokens: u32 = 0;
    let mut prompt_tokens: u32 = 0;
    let mut used: usize = 0;
    let mut active_ttl: Option<i64> = None;
    let mut segments: Vec<Segment> = Vec::new();
    let steps = prompt::prompt_steps(req);
    let mut i: usize = 0;
    let ghost all = prompt::steps_view(steps@);
    let ghost start = prefix@;
    while i < steps.len()
        invariant
            i <= steps@.len(),
            all == prompt::steps_view(steps@),
            counts.len() == sources(all).len(),
            ({
                let r = read_steps(start, all.take(i as int), counts@, caching);
                &&& r.prefix == prefix@
                &&& r.cache_tokens == cache_tokens
                &&& r.prompt_tokens == prompt_tokens
                &&& r.used == used
                &&& r.active_ttl == active_ttl
                &&& r.segments == segments@
            }),
        decreases steps@.len() - i,
    {
        let ghost r = read_steps(start, all.take(i as int), counts@, caching);
        proof {
            assert(all.take(i + 1).drop_last() =~= all.take(i as int));
            assert(all.take(i + 1).last() == steps@[i as int]@);
            lemma_used(start, all.take(i as int), counts@, caching);
            lemma_used(start, all.take(i + 1), counts@, caching);
            lemma_sources_grow(all, i + 1);
        }
        match &steps[i] {
            PromptStep::Feed { signature, source } => {
                if caching {
                    prefix.append(signature.as_str());
                }
                if source.is_some() {
                    let n: u32 = counts[used];
                    used = used + 1;
                    prompt_tokens = prompt_tokens.saturating_add(n);
                    if caching {
                        cache_tokens = cache_tokens.saturating_add(n);
                    }
                }
            },
            PromptStep::Breakpoint { ttl_secs } => {
                active_ttl = Some(*ttl_secs);
                if caching {
                    add_segment(&mut segments, &prefix, cache_tokens, *ttl_secs, Ghost(r));
                }
            },
            PromptStep::MessageEnd => {
                if caching {
                    if let Some(ttl) = active_ttl {
                        add_segment(&mut segments, &prefix, cache_tokens, ttl, Ghost(r));
                    }
                }
            },
        }
        i = i + 1;
    }
    assert(all.take(i as int) =~= all);
    (segments, prompt_tokens, caching)
}

} // verus!
