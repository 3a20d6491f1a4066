//! What holds of the chain of prefixes of every prompt.

use vstd::prelude::*;

use crate::json::JsonView;
use crate::json_text;
use crate::prompt;
use crate::prompt::{StepView, DEFAULT_TTL_SECS, MAX_TTL_SECS};
use crate::request::{MessageView, RequestView, SystemView, ToolView};
use crate::segments;
use crate::segments::Segment;
use crate::text;

verus! {

// ---------------------------------------------------------------------------
// The chain grows
// ---------------------------------------------------------------------------

/// Whether `b` continues the chain `a`: the same fingerprints and tokens, and no shorter time to
/// live. Only the time to live of the last prefix of `a` may differ.
pub open spec fn continues(a: Seq<Segment>, b: Seq<Segment>) -> bool {
    &&& a.len() <= b.len()
    &&& forall|i: int|
        0 <= i < a.len() ==> {
            &&& (#[trigger] a[i]).hash == b[i].hash
            &&& a[i].cumulative_tokens == b[i].cumulative_tokens
            &&& a[i].ttl_secs <= b[i].ttl_secs
            &&& (i < a.len() - 1 ==> a[i].ttl_secs == b[i].ttl_secs)
        }
}

proof fn lemma_continues_transitive(a: Seq<Segment>, b: Seq<Segment>, c: Seq<Segment>)
    requires
        continues(a, b),
        continues(b, c),
    ensures
        continues(a, c),
{
    assert forall|i: int| 0 <= i < a.len() implies {
        &&& (#[trigger] a[i]).hash == c[i].hash
        &&& a[i].cumulative_tokens == c[i].cumulative_tokens
        &&& a[i].ttl_secs <= c[i].ttl_secs
        &&& (i < a.len() - 1 ==> a[i].ttl_secs == c[i].ttl_secs)
    } by {
        assert(b[i].hash == c[i].hash);
    }
}

/// Reading on only continues the chain.
proof fn lemma_reading_on(
    seed: Seq<char>,
    steps: Seq<StepView>,
    counts: Seq<u32>,
    caching: bool,
    n: int,
)
    requires
        0 <= n <= steps.len(),
    ensures
        continues(
            segments::read_steps(seed, steps.take(n), counts, caching).segments,
            segments::read_steps(seed, steps, counts, caching).segments,
        ),
    decreases steps.len() - n,
{
    if n == steps.len() {
        assert(steps.take(n) =~= steps);
    } else {
        assert(steps.take(n + 1).drop_last() =~= steps.take(n));
        lemma_reading_on(seed, steps, counts, caching, n + 1);
        lemma_continues_transitive(
            segments::read_steps(seed, steps.take(n), counts, caching).segments,
            segments::read_steps(seed, steps.take(n + 1), counts, caching).segments,
            segments::read_steps(seed, steps, counts, caching).segments,
        );
    }
}

/// Only the counts of what is counted in the steps matter.
pub proof fn lemma_counts_beyond(
    seed: Seq<char>,
    steps: Seq<StepView>,
    counts: Seq<u32>,
    more: Seq<u32>,
    caching: bool,
)
    requires
        segments::sources(steps).len() <= counts.len(),
        counts.is_prefix_of(more),
    ensures
        segments::read_steps(seed, steps, counts, caching) == segments::read_steps(
            seed,
            steps,
            more,
            caching,
        ),
        segments::read_steps(seed, steps, counts, caching).used == segments::sources(steps).len(),
    decreases steps.len(),
{
    if steps.len() > 0 {
        lemma_counts_beyond(seed, steps.drop_last(), counts, more, caching);
        let used = segments::read_steps(seed, steps.drop_last(), counts, caching).used;
        assert(used < counts.len() ==> counts[used as int] == more[used as int]);
    }
}

pub proof fn lemma_message_steps_grow(messages: Seq<MessageView>, n: int)
    requires
        0 <= n <= messages.len(),
    ensures
        prompt::message_steps(messages.take(n)).is_prefix_of(prompt::message_steps(messages)),
    decreases messages.len() - n,
{
    if n == messages.len() {
        assert(messages.take(n) =~= messages);
    } else {
        assert(messages.take(n + 1).drop_last() =~= messages.take(n));
        lemma_message_steps_grow(messages, n + 1);
        let a = prompt::message_steps(messages.take(n));
        let b = prompt::message_steps(messages.take(n + 1));
        let c = prompt::message_steps(messages);
        assert(a =~= b.take(a.len() as int));
        assert(b =~= c.take(b.len() as int));
        assert(a =~= c.take(a.len() as int));
    }
}

/// Whether `later` is the conversation of `earlier` with messages appended.
pub open spec fn appends(earlier: RequestView, later: RequestView) -> bool {
    &&& earlier.model == later.model
    &&& earlier.tool_choice == later.tool_choice
    &&& earlier.tools == later.tools
    &&& earlier.system == later.system
    &&& earlier.messages.is_prefix_of(later.messages)
}

/// A conversation that goes on keeps the chain of prefixes that it had: every prefix of the earlier
/// request is a prefix of the later one, with the same fingerprint and tokens.
pub proof fn law_appended_messages_continue_the_chain(
    earlier: RequestView,
    later: RequestView,
    credential_id: u64,
    counts: Seq<u32>,
    more: Seq<u32>,
)
    requires
        appends(earlier, later),
        counts.len() == segments::sources(prompt::request_steps(earlier)).len(),
        counts.is_prefix_of(more),
    ensures
        continues(
            segments::reading(earlier, credential_id, counts).segments,
            segments::reading(later, credential_id, more).segments,
        ),
{
    let n = earlier.messages.len() as int;
    lemma_message_steps_grow(later.messages, n);
    assert(later.messages.take(n) =~= earlier.messages);
    let a = prompt::request_steps(earlier);
    let b = prompt::request_steps(later);
    let ma = prompt::message_steps(earlier.messages);
    let mb = prompt::message_steps(later.messages);
    assert(ma =~= mb.take(ma.len() as int));
    assert(b.take(a.len() as int) =~= a);
    let seed = segments::seed_text(credential_id, earlier.model, earlier.tool_choice);
    lemma_reading_on(seed, b, more, credential_id != 0, a.len() as int);
    lemma_counts_beyond(seed, a, counts, more, credential_id != 0);
}

// ---------------------------------------------------------------------------
// Tokens along the chain
// ---------------------------------------------------------------------------

/// Whether the tokens do not decrease along the chain, and do not exceed `bound`.
pub open spec fn ascends_to(chain: Seq<Segment>, bound: u32) -> bool {
    &&& forall|i: int, j: int|
        0 <= i <= j < chain.len() ==> (#[trigger] chain[i]).cumulative_tokens <= (
        #[trigger] chain[j]).cumulative_tokens
    &&& forall|i: int|
        0 <= i < chain.len() ==> 0 < (#[trigger] chain[i]).cumulative_tokens <= bound
}

pub proof fn lemma_tokens_ascend(
    seed: Seq<char>,
    steps: Seq<StepView>,
    counts: Seq<u32>,
    caching: bool,
)
    ensures
        ({
            let r = segments::read_steps(seed, steps, counts, caching);
            &&& ascends_to(r.segments, r.cache_tokens)
            &&& r.cache_tokens <= r.prompt_tokens
            &&& caching ==> r.cache_tokens == r.prompt_tokens
            &&& !caching ==> r.segments.len() == 0 && r.cache_tokens == 0 && r.prefix == seed
        }),
    decreases steps.len(),
{
    if steps.len() > 0 {
        lemma_tokens_ascend(seed, steps.drop_last(), counts, caching);
    }
}

/// The tokens of the prefixes do not decrease along the chain, are positive, and do not exceed the
/// tokens of the whole prompt.
pub proof fn law_tokens_ascend(req: RequestView, credential_id: u64, counts: Seq<u32>)
    ensures
        ascends_to(
            segments::reading(req, credential_id, counts).segments,
            segments::reading(req, credential_id, counts).prompt_tokens,
        ),
{
    lemma_tokens_ascend(
        segments::seed_text(credential_id, req.model, req.tool_choice),
        prompt::request_steps(req),
        counts,
        credential_id != 0,
    );
}

/// Without an account there is no cacheable prefix.
pub proof fn law_without_account_nothing_is_cacheable(req: RequestView, counts: Seq<u32>)
    ensures
        segments::reading(req, 0, counts).segments.len() == 0,
{
    lemma_tokens_ascend(
        segments::seed_text(0, req.model, req.tool_choice),
        prompt::request_steps(req),
        counts,
        false,
    );
}

/// The tokens of a whole prompt do not depend on the account.
pub proof fn law_prompt_tokens_do_not_depend_on_the_account(
    req: RequestView,
    a: u64,
    b: u64,
    counts: Seq<u32>,
)
    ensures
        segments::reading(req, a, counts).prompt_tokens == segments::reading(
            req,
            b,
            counts,
        ).prompt_tokens,
{
    lemma_prompt_tokens(
        segments::seed_text(a, req.model, req.tool_choice),
        segments::seed_text(b, req.model, req.tool_choice),
        prompt::request_steps(req),
        counts,
        a != 0,
        b != 0,
    );
}

proof fn lemma_prompt_tokens(
    seed_a: Seq<char>,
    seed_b: Seq<char>,
    steps: Seq<StepView>,
    counts: Seq<u32>,
    a: bool,
    b: bool,
)
    ensures
        ({
            let x = segments::read_steps(seed_a, steps, counts, a);
            let y = segments::read_steps(seed_b, steps, counts, b);
            x.prompt_tokens == y.prompt_tokens && x.used == y.used
        }),
    decreases steps.len(),
{
    if steps.len() > 0 {
        lemma_prompt_tokens(seed_a, seed_b, steps.drop_last(), counts, a, b);
    }
}

// ---------------------------------------------------------------------------
// Times to live
// ---------------------------------------------------------------------------

/// Whether a time to live is five minutes or an hour.
pub open spec fn usual_ttl(ttl_secs: i64) -> bool {
    ttl_secs == DEFAULT_TTL_SECS || ttl_secs == MAX_TTL_SECS
}

spec fn usual_steps(steps: Seq<StepView>) -> bool {
    forall|i: int|
        0 <= i < steps.len() ==> ((#[trigger] steps[i]) matches StepView::Breakpoint { ttl_secs }
            ==> usual_ttl(ttl_secs))
}

proof fn lemma_usual_steps_concat(a: Seq<StepView>, b: Seq<StepView>)
    requires
        usual_steps(a),
        usual_steps(b),
    ensures
        usual_steps(a + b),
{
    assert forall|i: int| 0 <= i < (a + b).len() implies ((
    #[trigger] (a + b)[i]) matches StepView::Breakpoint { ttl_secs } ==> usual_ttl(ttl_secs)) by {
        if i < a.len() {
            assert((a + b)[i] == a[i]);
        } else {
            assert((a + b)[i] == b[i - a.len()]);
        }
    }
}

proof fn lemma_usual_tools(tools: Seq<ToolView>)
    ensures
        usual_steps(prompt::tool_steps(tools)),
    decreases tools.len(),
{
    if tools.len() > 0 {
        lemma_usual_tools(tools.drop_last());
    }
}

proof fn lemma_usual_systems(systems: Seq<SystemView>)
    ensures
        usual_steps(prompt::system_steps(systems)),
    decreases systems.len(),
{
    if systems.len() > 0 {
        lemma_usual_systems(systems.drop_last());
    }
}

proof fn lemma_usual_blocks(blocks: Seq<JsonView>)
    ensures
        usual_steps(prompt::block_steps(blocks)),
    decreases blocks.len(),
{
    if blocks.len() > 0 {
        lemma_usual_blocks(blocks.drop_last());
    }
}

proof fn lemma_usual_messages(messages: Seq<MessageView>)
    ensures
        usual_steps(prompt::message_steps(messages)),
    decreases messages.len(),
{
    if messages.len() > 0 {
        let m = messages.last();
        lemma_usual_messages(messages.drop_last());
        if m.content is Array {
            lemma_usual_blocks(m.content->Array_0);
        }
        let start = prompt::message_steps(messages.drop_last()).push(
            StepView::Feed { signature: m.role, source: None },
        );
        lemma_usual_steps_concat(start, prompt::content_steps(m.content));
    }
}

proof fn lemma_usual_reading(
    seed: Seq<char>,
    steps: Seq<StepView>,
    counts: Seq<u32>,
    caching: bool,
)
    requires
        usual_steps(steps),
    ensures
        ({
            let r = segments::read_steps(seed, steps, counts, caching);
            &&& r.active_ttl matches Some(ttl) ==> usual_ttl(ttl)
            &&& forall|i: int|
                0 <= i < r.segments.len() ==> usual_ttl((#[trigger] r.segments[i]).ttl_secs)
        }),
    decreases steps.len(),
{
    if steps.len() > 0 {
        let front = steps.drop_last();
        assert(usual_steps(front)) by {
            assert forall|i: int| 0 <= i < front.len() implies ((
            #[trigger] front[i]) matches StepView::Breakpoint { ttl_secs } ==> usual_ttl(
                ttl_secs,
            )) by {
                assert(front[i] == steps[i]);
            }
        }
        lemma_usual_reading(seed, front, counts, caching);
        assert(steps[steps.len() - 1] == steps.last());
    }
}

/// Every prefix of a prompt lives for five minutes or for an hour.
pub proof fn law_times_to_live_are_usual(
    req: RequestView,
    credential_id: u64,
    counts: Seq<u32>,
    i: int,
)
    requires
        0 <= i < segments::reading(req, credential_id, counts).segments.len(),
    ensures
        usual_ttl(segments::reading(req, credential_id, counts).segments[i].ttl_secs),
{
    let tools = match req.tools {
        Some(t) => t,
        None => Seq::empty(),
    };
    let systems = match req.system {
        Some(s) => s,
        None => Seq::empty(),
    };
    lemma_usual_tools(tools);
    lemma_usual_systems(systems);
    lemma_usual_messages(req.messages);
    lemma_usual_steps_concat(prompt::tool_steps(tools), prompt::system_steps(systems));
    lemma_usual_steps_concat(
        prompt::tool_steps(tools) + prompt::system_steps(systems),
        prompt::message_steps(req.messages),
    );
    lemma_usual_reading(
        segments::seed_text(credential_id, req.model, req.tool_choice),
        prompt::request_steps(req),
        counts,
        credential_id != 0,
    );
}

// ---------------------------------------------------------------------------
// Breakpoints are asked for
// ---------------------------------------------------------------------------

/// Whether no step is a breakpoint.
pub open spec fn unmarked_steps(steps: Seq<StepView>) -> bool {
    forall|i: int| 0 <= i < steps.len() ==> !((#[trigger] steps[i]) is Breakpoint)
}

/// Whether a message carries no cache mark.
pub open spec fn unmarked_message(m: MessageView) -> bool {
    m.content matches JsonView::Array(blocks) ==> forall|i: int|
        0 <= i < blocks.len() ==> json_text::field(#[trigger] blocks[i], "cache_control"@) is None
}

/// Whether a request carries no cache mark.
pub open spec fn unmarked(req: RequestView) -> bool {
    &&& req.tools matches Some(tools) ==> forall|i: int|
        0 <= i < tools.len() ==> (#[trigger] tools[i]).cache_control is None
    &&& req.system matches Some(systems) ==> forall|i: int|
        0 <= i < systems.len() ==> (#[trigger] systems[i]).cache_control is None
    &&& forall|i: int| 0 <= i < req.messages.len() ==> unmarked_message(#[trigger] req.messages[i])
}

proof fn lemma_unmarked_tools(tools: Seq<ToolView>)
    requires
        forall|i: int| 0 <= i < tools.len() ==> (#[trigger] tools[i]).cache_control is None,
    ensures
        unmarked_steps(prompt::tool_steps(tools)),
    decreases tools.len(),
{
    if tools.len() > 0 {
        assert(tools[tools.len() - 1].cache_control is None);
        lemma_unmarked_tools(tools.drop_last());
    }
}

proof fn lemma_unmarked_systems(systems: Seq<SystemView>)
    requires
        forall|i: int| 0 <= i < systems.len() ==> (#[trigger] systems[i]).cache_control is None,
    ensures
        unmarked_steps(prompt::system_steps(systems)),
    decreases systems.len(),
{
    if systems.len() > 0 {
        assert(systems[systems.len() - 1].cache_control is None);
        lemma_unmarked_systems(systems.drop_last());
    }
}

proof fn lemma_unmarked_blocks(blocks: Seq<JsonView>)
    requires
        forall|i: int|
            0 <= i < blocks.len() ==> json_text::field(
                #[trigger] blocks[i],
                "cache_control"@,
            ) is None,
    ensures
        unmarked_steps(prompt::block_steps(blocks)),
    decreases blocks.len(),
{
    if blocks.len() > 0 {
        assert(json_text::field(blocks[blocks.len() - 1], "cache_control"@) is None);
        lemma_unmarked_blocks(blocks.drop_last());
    }
}

proof fn lemma_unmarked_messages(messages: Seq<MessageView>)
    requires
        forall|i: int| 0 <= i < messages.len() ==> unmarked_message(#[trigger] messages[i]),
    ensures
        unmarked_steps(prompt::message_steps(messages)),
    decreases messages.len(),
{
    if messages.len() > 0 {
        let m = messages.last();
        assert(unmarked_message(messages[messages.len() - 1]));
        lemma_unmarked_messages(messages.drop_last());
        match m.content {
            JsonView::Array(blocks) => {
                lemma_unmarked_blocks(blocks);
            },
            _ => {},
        }
        assert(unmarked_steps(prompt::content_steps(m.content)));
    }
}

proof fn lemma_unmarked_reading(
    seed: Seq<char>,
    steps: Seq<StepView>,
    counts: Seq<u32>,
    caching: bool,
)
    requires
        unmarked_steps(steps),
    ensures
        segments::read_steps(seed, steps, counts, caching).segments.len() == 0,
        segments::read_steps(seed, steps, counts, caching).active_ttl is None,
    decreases steps.len(),
{
    if steps.len() > 0 {
        assert(!(steps[steps.len() - 1] is Breakpoint));
        lemma_unmarked_reading(seed, steps.drop_last(), counts, caching);
    }
}

/// A request without a cache mark has no cacheable prefix.
pub proof fn law_without_marks_nothing_is_cacheable(
    req: RequestView,
    credential_id: u64,
    counts: Seq<u32>,
)
    requires
        unmarked(req),
    ensures
        segments::reading(req, credential_id, counts).segments.len() == 0,
{
    if req.tools is Some {
        lemma_unmarked_tools(req.tools->0);
    }
    if req.system is Some {
        lemma_unmarked_systems(req.system->0);
    }
    lemma_unmarked_messages(req.messages);
    lemma_unmarked_reading(
        segments::seed_text(credential_id, req.model, req.tool_choice),
        prompt::request_steps(req),
        counts,
        credential_id != 0,
    );
}

// ---------------------------------------------------------------------------
// What has a part in the fingerprints, and what has not
// ---------------------------------------------------------------------------

/// What the client says about itself, how the model is to think, and what the answer is to be like
/// and how it is sent have no part in the chain.
pub proof fn law_metadata_does_not_scope(
    a: RequestView,
    b: RequestView,
    credential_id: u64,
    counts: Seq<u32>,
)
    requires
        a.model == b.model,
        a.messages == b.messages,
        a.system == b.system,
        a.tools == b.tools,
        a.tool_choice == b.tool_choice,
    ensures
        segments::reading(a, credential_id, counts) == segments::reading(b, credential_id, counts),
{
}

/// Two billing headers have the same part in the fingerprints.
pub proof fn law_billing_headers_count_as_the_same(a: SystemView, b: SystemView)
    requires
        "x-anthropic-billing-header:"@.is_prefix_of(a.text),
        "x-anthropic-billing-header:"@.is_prefix_of(b.text),
    ensures
        prompt::system_signature_text(a) == prompt::system_signature_text(b),
{
}

/// Two system texts that are no billing headers have different parts in the fingerprints.
pub proof fn law_system_texts_count(a: SystemView, b: SystemView)
    requires
        !"x-anthropic-billing-header:"@.is_prefix_of(a.text),
        !"x-anthropic-billing-header:"@.is_prefix_of(b.text),
        a.text != b.text,
    ensures
        prompt::system_signature_text(a) != prompt::system_signature_text(b),
{
    lemma_concat_cancels("sys:"@, a.text, b.text);
}

/// What follows the same text is the same in equal texts.
pub proof fn lemma_concat_cancels(head: Seq<char>, a: Seq<char>, b: Seq<char>)
    ensures
        head + a == head + b <==> a == b,
{
    if head + a == head + b {
        assert((head + a).skip(head.len() as int) =~= a);
        assert((head + b).skip(head.len() as int) =~= b);
    }
}

/// The id of a tool call has no part in the fingerprints: two calls with the same name and input
/// count as the same.
pub proof fn law_tool_use_ids_may_drift(a: JsonView, b: JsonView)
    requires
        json_text::text_field(a, "type"@) == Some("tool_use"@),
        json_text::text_field(b, "type"@) == Some("tool_use"@),
        json_text::field(a, "name"@) == json_text::field(b, "name"@),
        json_text::field(a, "input"@) == json_text::field(b, "input"@),
    ensures
        prompt::block_signature_text(a) == prompt::block_signature_text(b),
        prompt::block_counted_text(a) == prompt::block_counted_text(b),
{
    lemma_kinds_are_different();
}

/// The id of the tool call that a result answers has no part in the fingerprints: two results with
/// the same content count as the same.
pub proof fn law_tool_result_ids_may_drift(a: JsonView, b: JsonView)
    requires
        json_text::text_field(a, "type"@) == Some("tool_result"@),
        json_text::text_field(b, "type"@) == Some("tool_result"@),
        json_text::field(a, "is_error"@) == json_text::field(b, "is_error"@),
        json_text::field(a, "content"@) == json_text::field(b, "content"@),
    ensures
        prompt::block_signature_text(a) == prompt::block_signature_text(b),
        prompt::block_counted_text(a) == prompt::block_counted_text(b),
{
    lemma_kinds_are_different();
}

/// The kinds of content blocks have different names.
pub proof fn lemma_kinds_are_different()
    ensures
        "text"@ != "tool_use"@,
        "thinking"@ != "tool_use"@,
        "redacted_thinking"@ != "tool_use"@,
        "text"@ != "tool_result"@,
        "thinking"@ != "tool_result"@,
        "redacted_thinking"@ != "tool_result"@,
        "tool_use"@ != "tool_result"@,
        "text"@ != "thinking"@,
        "text"@ != "redacted_thinking"@,
        "thinking"@ != "redacted_thinking"@,
        "text"@ != "image"@,
        "thinking"@ != "image"@,
        "redacted_thinking"@ != "image"@,
        "tool_use"@ != "image"@,
        "tool_result"@ != "image"@,
{
    reveal_strlit("image");
    reveal_strlit("text");
    reveal_strlit("thinking");
    reveal_strlit("redacted_thinking");
    reveal_strlit("tool_use");
    reveal_strlit("tool_result");
    assert("image"@.len() == 5);
    assert("text"@.len() == 4);
    assert("thinking"@.len() == 8);
    assert("redacted_thinking"@.len() == 17);
    assert("tool_use"@.len() == 8);
    assert("tool_result"@.len() == 11);
    assert("thinking"@[1] != "tool_use"@[1]);
}

/// The input of a tool call counts: calls of the same tool with inputs of different canonical text
/// have different parts in the fingerprints.
pub proof fn law_tool_inputs_count(a: JsonView, b: JsonView)
    requires
        json_text::text_field(a, "type"@) == Some("tool_use"@),
        json_text::text_field(b, "type"@) == Some("tool_use"@),
        json_text::text_or_empty(a, "name"@) == json_text::text_or_empty(b, "name"@),
        prompt::canonical_field(a, "input"@) != prompt::canonical_field(b, "input"@),
    ensures
        prompt::block_signature_text(a) != prompt::block_signature_text(b),
{
    lemma_kinds_are_different();
    lemma_concat_cancels(
        "block:tool_use|"@ + json_text::text_or_empty(a, "name"@) + "|"@,
        prompt::canonical_field(a, "input"@),
        prompt::canonical_field(b, "input"@),
    );
}

/// The content of a tool result counts: results whose contents differ in canonical text have
/// different parts in the fingerprints.
pub proof fn law_tool_results_count(a: JsonView, b: JsonView)
    requires
        json_text::text_field(a, "type"@) == Some("tool_result"@),
        json_text::text_field(b, "type"@) == Some("tool_result"@),
        json_text::field(a, "is_error"@) == json_text::field(b, "is_error"@),
        prompt::canonical_field(a, "content"@) != prompt::canonical_field(b, "content"@),
    ensures
        prompt::block_signature_text(a) != prompt::block_signature_text(b),
{
    lemma_kinds_are_different();
    let flag = if json_text::field(a, "is_error"@) == Some(JsonView::Bool(true)) {
        "true"@
    } else {
        "false"@
    };
    lemma_concat_cancels(
        "block:tool_result|"@ + flag + "|"@,
        prompt::canonical_field(a, "content"@),
        prompt::canonical_field(b, "content"@),
    );
}

} // verus!
