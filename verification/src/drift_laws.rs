//! What may drift between requests without a change in fingerprints.

use vstd::prelude::*;

use crate::chain_laws;
use crate::json::JsonView;
use crate::json_text;
use crate::prompt;
use crate::prompt::StepView;
use crate::request::{MessageView, RequestView, SystemView};
use crate::segments;
use crate::usage;

verus! {

// ---------------------------------------------------------------------------
// Ids
// ---------------------------------------------------------------------------

/// Whether two content blocks are the same but for what a tool call or its result is named by.
pub open spec fn same_but_for_ids(v: JsonView, w: JsonView) -> bool {
    ||| v == w
    ||| {
        &&& json_text::text_field(v, "type"@) == Some("tool_use"@)
        &&& json_text::text_field(w, "type"@) == Some("tool_use"@)
        &&& json_text::field(v, "name"@) == json_text::field(w, "name"@)
        &&& json_text::field(v, "input"@) == json_text::field(w, "input"@)
        &&& prompt::block_mark(v) == prompt::block_mark(w)
    }
    ||| {
        &&& json_text::text_field(v, "type"@) == Some("tool_result"@)
        &&& json_text::text_field(w, "type"@) == Some("tool_result"@)
        &&& json_text::field(v, "is_error"@) == json_text::field(w, "is_error"@)
        &&& json_text::field(v, "content"@) == json_text::field(w, "content"@)
        &&& prompt::block_mark(v) == prompt::block_mark(w)
    }
}

/// Whether two contents are the same but for ids.
pub open spec fn same_content(v: JsonView, w: JsonView) -> bool {
    ||| v == w
    ||| v matches JsonView::Array(a) && w matches JsonView::Array(b) && a.len() == b.len()
        && forall|i: int| 0 <= i < a.len() ==> same_but_for_ids(#[trigger] a[i], b[i])
}

/// Whether two conversations are the same but for ids.
pub open spec fn same_messages(a: Seq<MessageView>, b: Seq<MessageView>) -> bool {
    a.len() == b.len() && forall|i: int|
        0 <= i < a.len() ==> (#[trigger] a[i]).role == b[i].role && same_content(
            a[i].content,
            b[i].content,
        )
}

proof fn lemma_same_blocks(a: Seq<JsonView>, b: Seq<JsonView>)
    requires
        a.len() == b.len(),
        forall|i: int| 0 <= i < a.len() ==> same_but_for_ids(#[trigger] a[i], b[i]),
    ensures
        prompt::block_steps(a) == prompt::block_steps(b),
    decreases a.len(),
{
    if a.len() > 0 {
        let fa = a.drop_last();
        let fb = b.drop_last();
        assert forall|i: int| 0 <= i < fa.len() implies same_but_for_ids(
            #[trigger] fa[i],
            fb[i],
        ) by {
            assert(same_but_for_ids(a[i], b[i]));
        }
        lemma_same_blocks(fa, fb);
        let n = a.len() - 1;
        let v = a[n];
        let w = b[n];
        assert(same_but_for_ids(v, w));
        chain_laws::lemma_kinds_are_different();
        if v != w {
            if json_text::text_field(v, "type"@) == Some("tool_use"@) {
                chain_laws::law_tool_use_ids_may_drift(v, w);
            } else {
                chain_laws::law_tool_result_ids_may_drift(v, w);
            }
        }
    }
}

proof fn lemma_same_messages(a: Seq<MessageView>, b: Seq<MessageView>)
    requires
        same_messages(a, b),
    ensures
        prompt::message_steps(a) == prompt::message_steps(b),
    decreases a.len(),
{
    if a.len() > 0 {
        let fa = a.drop_last();
        let fb = b.drop_last();
        assert(same_messages(fa, fb)) by {
            assert forall|i: int| 0 <= i < fa.len() implies (#[trigger] fa[i]).role == fb[i].role
                && same_content(fa[i].content, fb[i].content) by {
                assert(a[i].role == b[i].role);
            }
        }
        lemma_same_messages(fa, fb);
        let n = a.len() - 1;
        assert(a[n].role == b[n].role);
        if a[n].content != b[n].content {
            lemma_same_blocks(a[n].content->Array_0, b[n].content->Array_0);
        }
    }
}

/// Requests that are the same but for the ids of tool calls are read in the same way: they have the
/// same prefixes, and the same things to be counted.
pub proof fn law_ids_have_no_part(
    a: RequestView,
    b: RequestView,
    credential_id: u64,
    counts: Seq<u32>,
)
    requires
        a.model == b.model,
        a.tool_choice == b.tool_choice,
        a.tools == b.tools,
        a.system == b.system,
        same_messages(a.messages, b.messages),
    ensures
        segments::sources(prompt::request_steps(a)) == segments::sources(prompt::request_steps(b)),
        segments::reading(a, credential_id, counts) == segments::reading(b, credential_id, counts),
{
    lemma_same_messages(a.messages, b.messages);
}

// ---------------------------------------------------------------------------
// Billing headers
// ---------------------------------------------------------------------------

/// Whether two system blocks are the same, or are billing headers with the same mark.
pub open spec fn same_but_for_billing(s: SystemView, t: SystemView) -> bool {
    ||| s == t
    ||| {
        &&& "x-anthropic-billing-header:"@.is_prefix_of(s.text)
        &&& "x-anthropic-billing-header:"@.is_prefix_of(t.text)
        &&& s.cache_control == t.cache_control
    }
}

/// Whether two system prompts are the same but for billing headers.
pub open spec fn same_system(a: Option<Seq<SystemView>>, b: Option<Seq<SystemView>>) -> bool {
    ||| a == b
    ||| a matches Some(x) && b matches Some(y) && x.len() == y.len() && forall|i: int|
        0 <= i < x.len() ==> same_but_for_billing(#[trigger] x[i], y[i])
}

/// Whether two steps feed the same text, and count something or nothing alike.
spec fn same_step(s: StepView, t: StepView) -> bool {
    match s {
        StepView::Feed { signature, source } => t matches StepView::Feed {
            signature: other,
            source: counted,
        } && signature == other && (source is Some <==> counted is Some),
        _ => s == t,
    }
}

spec fn same_steps(a: Seq<StepView>, b: Seq<StepView>) -> bool {
    a.len() == b.len() && forall|i: int| 0 <= i < a.len() ==> same_step(#[trigger] a[i], b[i])
}

proof fn lemma_same_steps_concat(
    a: Seq<StepView>,
    b: Seq<StepView>,
    x: Seq<StepView>,
    y: Seq<StepView>,
)
    requires
        same_steps(a, b),
        same_steps(x, y),
    ensures
        same_steps(a + x, b + y),
{
    assert forall|i: int| 0 <= i < (a + x).len() implies same_step(
        #[trigger] (a + x)[i],
        (b + y)[i],
    ) by {
        if i < a.len() {
            assert(same_step(a[i], b[i]));
        } else {
            assert(same_step(x[i - a.len()], y[i - a.len()]));
        }
    }
}

proof fn lemma_same_systems(a: Seq<SystemView>, b: Seq<SystemView>)
    requires
        a.len() == b.len(),
        forall|i: int| 0 <= i < a.len() ==> same_but_for_billing(#[trigger] a[i], b[i]),
    ensures
        same_steps(prompt::system_steps(a), prompt::system_steps(b)),
    decreases a.len(),
{
    if a.len() > 0 {
        let fa = a.drop_last();
        let fb = b.drop_last();
        assert forall|i: int| 0 <= i < fa.len() implies same_but_for_billing(
            #[trigger] fa[i],
            fb[i],
        ) by {
            assert(same_but_for_billing(a[i], b[i]));
        }
        lemma_same_systems(fa, fb);
        let n = a.len() - 1;
        let s = a[n];
        let t = b[n];
        assert(same_but_for_billing(s, t));
        reveal_strlit("x-anthropic-billing-header:");
        let u = seq![prompt::feed_text(prompt::system_signature_text(s), s.text)];
        let v = seq![prompt::feed_text(prompt::system_signature_text(t), t.text)];
        assert(same_steps(u, v));
        let mark = prompt::mark_steps(s.cache_control);
        assert(same_steps(mark, mark));
        lemma_same_steps_concat(prompt::system_steps(fa), prompt::system_steps(fb), u, v);
        lemma_same_steps_concat(
            prompt::system_steps(fa) + u,
            prompt::system_steps(fb) + v,
            mark,
            mark,
        );
        assert(prompt::system_steps(a) =~= prompt::system_steps(fa) + u + mark);
        assert(prompt::system_steps(b) =~= prompt::system_steps(fb) + v + mark);
    }
}

/// Whether every count is positive.
pub open spec fn positive(counts: Seq<u32>) -> bool {
    forall|i: int| 0 <= i < counts.len() ==> #[trigger] counts[i] > 0
}

/// Steps that feed the same texts find prefixes with the same fingerprints.
proof fn lemma_same_steps_read(
    seed: Seq<char>,
    a: Seq<StepView>,
    b: Seq<StepView>,
    ca: Seq<u32>,
    cb: Seq<u32>,
    caching: bool,
)
    requires
        same_steps(a, b),
        segments::sources(a).len() <= ca.len(),
        segments::sources(b).len() <= cb.len(),
        positive(ca),
        positive(cb),
        segments::read_steps(seed, a, ca, caching).prompt_tokens < u32::MAX,
        segments::read_steps(seed, b, cb, caching).prompt_tokens < u32::MAX,
    ensures
        ({
            let ra = segments::read_steps(seed, a, ca, caching);
            let rb = segments::read_steps(seed, b, cb, caching);
            &&& ra.prefix == rb.prefix
            &&& ra.active_ttl == rb.active_ttl
            &&& ra.used == rb.used
            &&& ra.cache_tokens <= ra.prompt_tokens
            &&& rb.cache_tokens <= rb.prompt_tokens
            &&& (ra.cache_tokens == 0 <==> rb.cache_tokens == 0)
            &&& ra.segments.len() == rb.segments.len()
            &&& usage::hashes_of(ra.segments) == usage::hashes_of(rb.segments)
            &&& usage::ttls_of(ra.segments) == usage::ttls_of(rb.segments)
            &&& ra.segments.len() > 0 ==> {
                let n = ra.segments.len() - 1;
                &&& ra.segments[n].cumulative_tokens <= ra.cache_tokens
                &&& rb.segments[n].cumulative_tokens <= rb.cache_tokens
                &&& (ra.segments[n].cumulative_tokens == ra.cache_tokens
                    <==> rb.segments[n].cumulative_tokens == rb.cache_tokens)
            }
        }),
    decreases a.len(),
{
    if a.len() > 0 {
        let fa = a.drop_last();
        let fb = b.drop_last();
        let n = a.len() - 1;
        assert(same_step(a[n], b[n]));
        assert(same_steps(fa, fb)) by {
            assert forall|i: int| 0 <= i < fa.len() implies same_step(#[trigger] fa[i], fb[i]) by {
                assert(same_step(a[i], b[i]));
            }
        }
        let ra = segments::read_steps(seed, fa, ca, caching);
        let rb = segments::read_steps(seed, fb, cb, caching);
        segments::lemma_used(seed, fa, ca, caching);
        segments::lemma_used(seed, fb, cb, caching);
        lemma_same_steps_read(seed, fa, fb, ca, cb, caching);
        let na = segments::read_steps(seed, a, ca, caching);
        let nb = segments::read_steps(seed, b, cb, caching);
        if ra.segments.len() > 0 {
            let k = ra.segments.len() - 1;
            assert(usage::hashes_of(ra.segments)[k] == ra.segments[k].hash);
            assert(usage::hashes_of(rb.segments)[k] == rb.segments[k].hash);
            assert(usage::ttls_of(ra.segments)[k] == ra.segments[k].ttl_secs);
            assert(usage::ttls_of(rb.segments)[k] == rb.segments[k].ttl_secs);
        }
        assert forall|k: int| 0 <= k < ra.segments.len() implies (#[trigger] ra.segments[k]).hash
            == rb.segments[k].hash && ra.segments[k].ttl_secs == rb.segments[k].ttl_secs by {
            assert(usage::hashes_of(ra.segments)[k] == usage::hashes_of(rb.segments)[k]);
            assert(usage::ttls_of(ra.segments)[k] == usage::ttls_of(rb.segments)[k]);
        }
        assert(na.segments.len() == nb.segments.len());
        assert forall|k: int| 0 <= k < na.segments.len() implies (#[trigger] na.segments[k]).hash
            == nb.segments[k].hash && na.segments[k].ttl_secs == nb.segments[k].ttl_secs by {
            if k < ra.segments.len() {
                assert(ra.segments[k].hash == rb.segments[k].hash);
            }
        }
        assert(usage::hashes_of(na.segments) =~= usage::hashes_of(nb.segments));
        assert(usage::ttls_of(na.segments) =~= usage::ttls_of(nb.segments));
    } else {
        assert(usage::hashes_of(Seq::<segments::Segment>::empty()) =~= usage::hashes_of(
            Seq::<segments::Segment>::empty(),
        ));
    }
}

/// Requests that are the same but for billing headers and the ids of tool calls have prefixes with
/// the same fingerprints and times to live, so that each finds what the other has cached. The
/// tokens of the prefixes may differ by those of the headers. Whatever is counted is to count for
/// something, and the counts are not to exceed what can be represented.
pub proof fn law_billing_headers_may_drift(
    a: RequestView,
    b: RequestView,
    credential_id: u64,
    counts_a: Seq<u32>,
    counts_b: Seq<u32>,
)
    requires
        a.model == b.model,
        a.tool_choice == b.tool_choice,
        a.tools == b.tools,
        same_system(a.system, b.system),
        same_messages(a.messages, b.messages),
        counts_a.len() == segments::sources(prompt::request_steps(a)).len(),
        counts_b.len() == segments::sources(prompt::request_steps(b)).len(),
        positive(counts_a),
        positive(counts_b),
        segments::reading(a, credential_id, counts_a).prompt_tokens < u32::MAX,
        segments::reading(b, credential_id, counts_b).prompt_tokens < u32::MAX,
    ensures
        usage::hashes_of(segments::reading(a, credential_id, counts_a).segments)
            == usage::hashes_of(segments::reading(b, credential_id, counts_b).segments),
        usage::ttls_of(segments::reading(a, credential_id, counts_a).segments) == usage::ttls_of(
            segments::reading(b, credential_id, counts_b).segments,
        ),
{
    let tools = prompt::tool_steps(match a.tools {
        Some(t) => t,
        None => Seq::empty(),
    });
    let sys_a = prompt::system_steps(match a.system {
        Some(s) => s,
        None => Seq::empty(),
    });
    let sys_b = prompt::system_steps(match b.system {
        Some(s) => s,
        None => Seq::empty(),
    });
    let said = prompt::message_steps(a.messages);
    lemma_same_messages(a.messages, b.messages);
    if a.system != b.system {
        lemma_same_systems(a.system->0, b.system->0);
    }
    assert(same_steps(sys_a, sys_b));
    assert(same_steps(tools, tools));
    assert(same_steps(said, said));
    lemma_same_steps_concat(tools, tools, sys_a, sys_b);
    lemma_same_steps_concat(tools + sys_a, tools + sys_b, said, said);
    lemma_same_steps_read(
        segments::seed_text(credential_id, a.model, a.tool_choice),
        prompt::request_steps(a),
        prompt::request_steps(b),
        counts_a,
        counts_b,
        credential_id != 0,
    );
}

} // verus!
