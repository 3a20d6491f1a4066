//! What holds from one turn of a conversation to the next, where fingerprints tell texts apart.

use vstd::prelude::*;

use crate::chain_laws;
use crate::identity_laws;
use crate::json::JsonView;
use crate::meter;
use crate::meter::{CacheEntry, DEFAULT_CAPACITY, LATEST_RECORD_TIME};
use crate::meter_laws;
use crate::plan_laws;
use crate::prompt;
use crate::prompt::StepView;
use crate::request::{MessageView, RequestView, SystemView, ToolView};
use crate::segments;
use crate::segments::Segment;
use crate::usage;
use crate::usage::PREFIX_LOOKBACK_LIMIT;

verus! {

// ---------------------------------------------------------------------------
// Reading on
// ---------------------------------------------------------------------------

/// Reading on makes the prefix longer, and the tokens no fewer.
pub proof fn lemma_reading_grows(
    seed: Seq<char>,
    steps: Seq<StepView>,
    counts: Seq<u32>,
    caching: bool,
    n: int,
)
    requires
        0 <= n <= steps.len(),
    ensures
        ({
            let r = segments::read_steps(seed, steps.take(n), counts, caching);
            let whole = segments::read_steps(seed, steps, counts, caching);
            &&& r.prefix.is_prefix_of(whole.prefix)
            &&& r.prompt_tokens <= whole.prompt_tokens
        }),
    decreases steps.len() - n,
{
    let r = segments::read_steps(seed, steps.take(n), counts, caching);
    identity_laws::lemma_prefix_of_concat(r.prefix, Seq::empty());
    if n == steps.len() {
        assert(steps.take(n) =~= steps);
    } else {
        lemma_reading_grows(seed, steps, counts, caching, n + 1);
        assert(steps.take(n + 1).drop_last() =~= steps.take(n));
        let next = segments::read_steps(seed, steps.take(n + 1), counts, caching);
        match steps[n] {
            StepView::Feed { signature, source } => {
                identity_laws::lemma_prefix_of_concat(r.prefix, signature);
            },
            _ => {},
        }
        identity_laws::lemma_prefix_transitive(
            r.prefix,
            next.prefix,
            segments::read_steps(seed, steps, counts, caching).prefix,
        );
    }
}

/// Whether a fingerprint is that of a beginning of `prefix` with more than `n` characters.
spec fn is_longer(hash: u64, n: nat, prefix: Seq<char>) -> bool {
    exists|p: Seq<char>|
        p.len() > n && p.is_prefix_of(prefix) && hash == #[trigger] segments::fingerprint(p)
}

/// Where a text is fed after `n` steps, the prefixes found before it stay as they are, and those
/// found behind it are longer.
proof fn lemma_chain_stays(
    seed: Seq<char>,
    steps: Seq<StepView>,
    counts: Seq<u32>,
    caching: bool,
    n: int,
    m: int,
)
    requires
        0 <= n < m <= steps.len(),
        steps[n] matches StepView::Feed { signature, source } && signature.len() > 0,
        identity_laws::told_apart(
            segments::read_steps(seed, steps, counts, caching).prefix,
            segments::read_steps(seed, steps, counts, caching).prefix,
        ),
    ensures
        ({
            let before = segments::read_steps(seed, steps.take(n), counts, caching);
            let r = segments::read_steps(seed, steps.take(m), counts, caching);
            let whole = segments::read_steps(seed, steps, counts, caching).prefix;
            &&& before.segments.is_prefix_of(r.segments)
            &&& caching ==> before.prefix.len() < r.prefix.len()
            &&& forall|i: int|
                before.segments.len() <= i < r.segments.len() ==> is_longer(
                    (#[trigger] r.segments[i]).hash,
                    before.prefix.len(),
                    whole,
                )
        }),
    decreases m,
{
    let before = segments::read_steps(seed, steps.take(n), counts, caching);
    let whole = segments::read_steps(seed, steps, counts, caching).prefix;
    let last = segments::read_steps(seed, steps.take(m - 1), counts, caching);
    let r = segments::read_steps(seed, steps.take(m), counts, caching);
    let k = before.segments.len() as int;
    assert(steps.take(m).drop_last() =~= steps.take(m - 1));
    assert(steps.take(m).last() == steps[m - 1]);
    chain_laws::lemma_tokens_ascend(seed, steps.take(m), counts, caching);
    chain_laws::lemma_tokens_ascend(seed, steps.take(n), counts, caching);
    if m == n + 1 {
        assert(r.segments == before.segments);
        assert(before.segments =~= r.segments.take(k));
    } else {
        lemma_chain_stays(seed, steps, counts, caching, n, m - 1);
        lemma_reading_grows(seed, steps, counts, caching, m - 1);
        lemma_reading_grows(seed, steps, counts, caching, n);
        identity_laws::lemma_fingerprints(seed, steps.take(n), counts, caching);
        assert(last.segments.take(k) =~= before.segments);
        if caching {
            let hash = segments::fingerprint(last.prefix);
            assert(is_longer(hash, before.prefix.len(), whole));
            if k > 0 {
                let h = before.segments[k - 1].hash;
                assert(identity_laws::fingerprints_prefix(h, seed, before.prefix));
                let p = choose|p: Seq<char>|
                    seed.is_prefix_of(p) && p.is_prefix_of(before.prefix) && h
                        == #[trigger] segments::fingerprint(p);
                identity_laws::lemma_prefix_transitive(p, before.prefix, whole);
                assert(p != last.prefix);
                assert(h != hash);
                assert(last.segments[k - 1] == before.segments[k - 1]);
            }
        }
        assert(r.segments.take(k) =~= before.segments);
        assert forall|i: int| k <= i < r.segments.len() implies is_longer(
            (#[trigger] r.segments[i]).hash,
            before.prefix.len(),
            whole,
        ) by {
            if i < last.segments.len() {
                assert(is_longer(last.segments[i].hash, before.prefix.len(), whole));
            }
        }
    }
}

/// The role of a message is the first thing that is fed of it.
proof fn lemma_message_begins(messages: Seq<MessageView>, n: int)
    requires
        0 <= n < messages.len(),
    ensures
        ({
            let before = prompt::message_steps(messages.take(n)).len() as int;
            let all = prompt::message_steps(messages);
            before < all.len() && all[before] == (StepView::Feed {
                signature: messages[n].role,
                source: None,
            })
        }),
{
    chain_laws::lemma_message_steps_grow(messages, n + 1);
    assert(messages.take(n + 1).drop_last() =~= messages.take(n));
    assert(messages.take(n + 1).last() == messages[n]);
    let before = prompt::message_steps(messages.take(n));
    let next = prompt::message_steps(messages.take(n + 1));
    let all = prompt::message_steps(messages);
    assert(next =~= all.take(next.len() as int));
    assert(next[before.len() as int] == all[before.len() as int]);
}

/// Whether the first message appended to a conversation has a role.
pub open spec fn goes_on(earlier: RequestView, later: RequestView) -> bool {
    let n = earlier.messages.len() as int;
    n < later.messages.len() ==> later.messages[n].role.len() > 0
}

/// Appending messages keeps the chain of the earlier request, and what comes behind it is longer.
proof fn lemma_appended(
    earlier: RequestView,
    later: RequestView,
    credential_id: u64,
    counts: Seq<u32>,
    more: Seq<u32>,
)
    requires
        chain_laws::appends(earlier, later),
        goes_on(earlier, later),
        counts.len() == segments::sources(prompt::request_steps(earlier)).len(),
        counts.is_prefix_of(more),
        identity_laws::told_apart(
            segments::reading(later, credential_id, more).prefix,
            segments::reading(later, credential_id, more).prefix,
        ),
    ensures
        ({
            let a = segments::reading(earlier, credential_id, counts);
            let b = segments::reading(later, credential_id, more);
            &&& a.prefix.is_prefix_of(b.prefix)
            &&& a.prompt_tokens <= b.prompt_tokens
            &&& a.segments.is_prefix_of(b.segments)
            &&& forall|i: int|
                a.segments.len() <= i < b.segments.len() ==> is_longer(
                    (#[trigger] b.segments[i]).hash,
                    a.prefix.len(),
                    b.prefix,
                )
        }),
{
    let n = earlier.messages.len() as int;
    chain_laws::lemma_message_steps_grow(later.messages, n);
    assert(later.messages.take(n) =~= earlier.messages);
    let a = prompt::request_steps(earlier);
    let b = prompt::request_steps(later);
    let ma = prompt::message_steps(earlier.messages);
    let mb = prompt::message_steps(later.messages);
    assert(ma =~= mb.take(ma.len() as int));
    let k = a.len() as int;
    assert(b.take(k) =~= a);
    assert(b.take(b.len() as int) =~= b);
    let seed = segments::seed_text(credential_id, earlier.model, earlier.tool_choice);
    let caching = credential_id != 0;
    chain_laws::lemma_counts_beyond(seed, a, counts, more, caching);
    lemma_reading_grows(seed, b, more, caching, k);
    if n < later.messages.len() {
        lemma_message_begins(later.messages, n);
        assert(b[k] == mb[ma.len() as int]);
        lemma_chain_stays(seed, b, more, caching, k, b.len() as int);
    } else {
        assert(later.messages =~= earlier.messages);
        let r = segments::reading(earlier, credential_id, counts);
        assert(r.segments =~= r.segments.take(r.segments.len() as int));
    }
}

/// A conversation that goes on keeps the chain of prefixes that it had, with fingerprints, tokens
/// and times to live, and its tokens do not become fewer. The first new message is to have a role,
/// and fingerprints are to tell the beginnings of the prompt apart.
pub proof fn law_appended_messages_keep_the_chain(
    earlier: RequestView,
    later: RequestView,
    credential_id: u64,
    counts: Seq<u32>,
    more: Seq<u32>,
)
    requires
        chain_laws::appends(earlier, later),
        goes_on(earlier, later),
        counts.len() == segments::sources(prompt::request_steps(earlier)).len(),
        counts.is_prefix_of(more),
        identity_laws::told_apart(
            segments::reading(later, credential_id, more).prefix,
            segments::reading(later, credential_id, more).prefix,
        ),
    ensures
        segments::reading(earlier, credential_id, counts).segments.is_prefix_of(
            segments::reading(later, credential_id, more).segments,
        ),
        segments::reading(earlier, credential_id, counts).prompt_tokens <= segments::reading(
            later,
            credential_id,
            more,
        ).prompt_tokens,
{
    lemma_appended(earlier, later, credential_id, counts, more);
}

/// The tokens of a prompt do not become fewer when messages are appended.
pub proof fn law_appended_messages_add_tokens(
    earlier: RequestView,
    later: RequestView,
    credential_id: u64,
    counts: Seq<u32>,
    more: Seq<u32>,
)
    requires
        chain_laws::appends(earlier, later),
        counts.len() == segments::sources(prompt::request_steps(earlier)).len(),
        counts.is_prefix_of(more),
    ensures
        segments::reading(earlier, credential_id, counts).prompt_tokens <= segments::reading(
            later,
            credential_id,
            more,
        ).prompt_tokens,
{
    let n = earlier.messages.len() as int;
    chain_laws::lemma_message_steps_grow(later.messages, n);
    assert(later.messages.take(n) =~= earlier.messages);
    let a = prompt::request_steps(earlier);
    let b = prompt::request_steps(later);
    let ma = prompt::message_steps(earlier.messages);
    let mb = prompt::message_steps(later.messages);
    assert(ma =~= mb.take(ma.len() as int));
    assert(b.take(a.len() as int) =~= a);
    let seed = segments::seed_text(credential_id, earlier.model, earlier.tool_choice);
    chain_laws::lemma_counts_beyond(seed, a, counts, more, credential_id != 0);
    lemma_reading_grows(seed, b, more, credential_id != 0, a.len() as int);
}

// ---------------------------------------------------------------------------
// Message ends
// ---------------------------------------------------------------------------

/// Whether every breakpoint stands right behind a text that is fed.
spec fn asked_behind_texts(steps: Seq<StepView>) -> bool {
    forall|i: int|
        0 <= i < steps.len() && (#[trigger] steps[i]) is Breakpoint ==> i > 0 && feeds_text(
            steps[i - 1],
        )
}

spec fn feeds_text(step: StepView) -> bool {
    step matches StepView::Feed { signature, source } && signature.len() > 0
}

proof fn lemma_asked_concat(a: Seq<StepView>, b: Seq<StepView>)
    requires
        asked_behind_texts(a),
        asked_behind_texts(b),
    ensures
        asked_behind_texts(a + b),
{
    let c = a + b;
    assert forall|i: int| 0 <= i < c.len() && (#[trigger] c[i]) is Breakpoint implies i > 0
        && feeds_text(c[i - 1]) by {
        if i < a.len() {
            assert(c[i] == a[i]);
            assert(c[i - 1] == a[i - 1]);
        } else {
            let j = i - a.len();
            assert(c[i] == b[j]);
            assert(j > 0 && feeds_text(b[j - 1]));
            assert(c[i - 1] == b[j - 1]);
        }
    }
}

/// A text that is fed, and a mark where there is one.
proof fn lemma_asked_once(
    before: Seq<StepView>,
    feed: StepView,
    cache_control: Option<Option<Seq<char>>>,
)
    requires
        asked_behind_texts(before),
        feeds_text(feed),
    ensures
        asked_behind_texts(before.push(feed) + prompt::mark_steps(cache_control)),
{
    let mark = prompt::mark_steps(cache_control);
    let both = seq![feed] + mark;
    assert(asked_behind_texts(both)) by {
        assert forall|i: int| 0 <= i < both.len() && (#[trigger] both[i]) is Breakpoint implies i
            > 0 && feeds_text(both[i - 1]) by {
            assert(both[0] == feed);
        }
    }
    lemma_asked_concat(before, both);
    assert(before.push(feed) + mark =~= before + both);
}

proof fn lemma_asked_tools(tools: Seq<ToolView>)
    ensures
        asked_behind_texts(prompt::tool_steps(tools)),
    decreases tools.len(),
{
    if tools.len() > 0 {
        let t = tools.last();
        lemma_asked_tools(tools.drop_last());
        reveal_strlit("tool:");
        lemma_asked_once(
            prompt::tool_steps(tools.drop_last()),
            prompt::feed_text(prompt::tool_signature_text(t), prompt::tool_counted_text(t)),
            t.cache_control,
        );
    }
}

proof fn lemma_asked_systems(systems: Seq<SystemView>)
    ensures
        asked_behind_texts(prompt::system_steps(systems)),
    decreases systems.len(),
{
    if systems.len() > 0 {
        let s = systems.last();
        lemma_asked_systems(systems.drop_last());
        reveal_strlit("sys:");
        lemma_asked_once(
            prompt::system_steps(systems.drop_last()),
            prompt::feed_text(prompt::system_signature_text(s), s.text),
            s.cache_control,
        );
    }
}

proof fn lemma_block_feeds(v: JsonView)
    ensures
        feeds_text(prompt::block_feed(v)),
{
    reveal_strlit("block:text|");
    reveal_strlit("block:thinking|");
    reveal_strlit("block:redacted_thinking|");
    reveal_strlit("block:tool_use|");
    reveal_strlit("block:tool_result|");
    reveal_strlit("block:image|");
    reveal_strlit("block:");
}

proof fn lemma_asked_blocks(blocks: Seq<JsonView>)
    ensures
        asked_behind_texts(prompt::block_steps(blocks)),
    decreases blocks.len(),
{
    if blocks.len() > 0 {
        let v = blocks.last();
        lemma_asked_blocks(blocks.drop_last());
        lemma_block_feeds(v);
        lemma_asked_once(
            prompt::block_steps(blocks.drop_last()),
            prompt::block_feed(v),
            prompt::block_mark(v),
        );
    }
}

proof fn lemma_asked_messages(messages: Seq<MessageView>)
    ensures
        asked_behind_texts(prompt::message_steps(messages)),
    decreases messages.len(),
{
    if messages.len() > 0 {
        let m = messages.last();
        let before = prompt::message_steps(messages.drop_last());
        lemma_asked_messages(messages.drop_last());
        if m.content is Array {
            lemma_asked_blocks(m.content->Array_0);
        }
        let role = seq![StepView::Feed { signature: m.role, source: None }];
        let content = prompt::content_steps(m.content);
        let end = seq![StepView::MessageEnd];
        lemma_asked_concat(before, role);
        lemma_asked_concat(before + role, content);
        lemma_asked_concat(before + role + content, end);
        assert(prompt::message_steps(messages) =~= before + role + content + end);
    }
}

proof fn lemma_asked(req: RequestView)
    ensures
        asked_behind_texts(prompt::request_steps(req)),
{
    let tools = match req.tools {
        Some(t) => t,
        None => Seq::empty(),
    };
    let systems = match req.system {
        Some(s) => s,
        None => Seq::empty(),
    };
    lemma_asked_tools(tools);
    lemma_asked_systems(systems);
    lemma_asked_messages(req.messages);
    lemma_asked_concat(prompt::tool_steps(tools), prompt::system_steps(systems));
    lemma_asked_concat(
        prompt::tool_steps(tools) + prompt::system_steps(systems),
        prompt::message_steps(req.messages),
    );
}

/// Whether the last prefix found has the time to live that message ends inherit, where it is all of
/// what has been read.
spec fn inherits(r: segments::Reading) -> bool {
    r.segments.len() > 0 ==> exists|p: Seq<char>|
        p.is_prefix_of(r.prefix) && r.segments.last().hash == #[trigger] segments::fingerprint(p)
            && (p == r.prefix ==> r.active_ttl == Some(r.segments.last().ttl_secs))
}

proof fn lemma_inherits(seed: Seq<char>, steps: Seq<StepView>, counts: Seq<u32>, m: int)
    requires
        0 <= m <= steps.len(),
        asked_behind_texts(steps),
        identity_laws::told_apart(
            segments::read_steps(seed, steps, counts, true).prefix,
            segments::read_steps(seed, steps, counts, true).prefix,
        ),
    ensures
        inherits(segments::read_steps(seed, steps.take(m), counts, true)),
    decreases m,
{
    if m > 0 {
        let whole = segments::read_steps(seed, steps, counts, true).prefix;
        let x = segments::read_steps(seed, steps.take(m - 1), counts, true);
        let r = segments::read_steps(seed, steps.take(m), counts, true);
        assert(steps.take(m).drop_last() =~= steps.take(m - 1));
        assert(steps.take(m).last() == steps[m - 1]);
        lemma_inherits(seed, steps, counts, m - 1);
        lemma_reading_grows(seed, steps, counts, true, m - 1);
        chain_laws::lemma_tokens_ascend(seed, steps.take(m - 1), counts, true);
        identity_laws::lemma_prefix_of_concat(x.prefix, Seq::empty());
        let n = x.segments.len() as int;
        if n > 0 {
            let h = x.segments[n - 1].hash;
            assert(x.segments.last() == x.segments[n - 1]);
            assert(x.segments[n - 1].cumulative_tokens > 0);
            let p = choose|p: Seq<char>|
                p.is_prefix_of(x.prefix) && h == #[trigger] segments::fingerprint(p) && (p
                    == x.prefix ==> x.active_ttl == Some(x.segments.last().ttl_secs));
            identity_laws::lemma_prefix_transitive(p, x.prefix, whole);
            match steps[m - 1] {
                StepView::Feed { signature, source } => {
                    identity_laws::lemma_prefix_of_concat(x.prefix, signature);
                    identity_laws::lemma_prefix_transitive(p, x.prefix, r.prefix);
                    if p == r.prefix {
                        assert(x.prefix =~= r.prefix);
                    }
                },
                StepView::Breakpoint { ttl_secs } => {
                    assert(feeds_text(steps[m - 2]));
                    lemma_inherits(seed, steps, counts, m - 2);
                    let w = segments::read_steps(seed, steps.take(m - 2), counts, true);
                    assert(steps.take(m - 1).drop_last() =~= steps.take(m - 2));
                    assert(steps.take(m - 1).last() == steps[m - 2]);
                    assert(w.segments == x.segments);
                    let q = choose|q: Seq<char>|
                        q.is_prefix_of(w.prefix) && h == #[trigger] segments::fingerprint(q) && (q
                            == w.prefix ==> w.active_ttl == Some(w.segments.last().ttl_secs));
                    lemma_reading_grows(seed, steps, counts, true, m - 2);
                    identity_laws::lemma_prefix_transitive(q, w.prefix, whole);
                    assert(q.len() < x.prefix.len());
                    assert(h != segments::fingerprint(x.prefix));
                    assert(r.segments.last().hash == segments::fingerprint(r.prefix));
                },
                StepView::MessageEnd => {
                    if x.active_ttl is Some {
                        assert(r.segments.last().hash == segments::fingerprint(r.prefix));
                    }
                },
            }
        } else if r.segments.len() > 0 {
            assert(r.segments.last().hash == segments::fingerprint(r.prefix));
        }
    }
}

/// Once a breakpoint has been asked for, every message ends with one: the last prefix of a prompt is
/// the whole prompt. Where fingerprints tell the beginnings of the prompt apart, it has the time to
/// live of the last mark. A prompt without tokens has no prefix.
pub proof fn law_message_ends_are_breakpoints(
    req: RequestView,
    credential_id: u64,
    counts: Seq<u32>,
)
    requires
        credential_id != 0,
        req.messages.len() > 0,
        segments::reading(req, credential_id, counts).active_ttl is Some,
        segments::reading(req, credential_id, counts).prompt_tokens > 0,
    ensures
        ({
            let r = segments::reading(req, credential_id, counts);
            &&& r.segments.len() > 0
            &&& r.segments.last().hash == segments::fingerprint(r.prefix)
            &&& r.segments.last().cumulative_tokens == r.prompt_tokens
            &&& r.segments.last().ttl_secs >= r.active_ttl->0
            &&& identity_laws::told_apart(r.prefix, r.prefix) ==> r.segments.last().ttl_secs
                == r.active_ttl->0
        }),
{
    let steps = prompt::request_steps(req);
    let seed = segments::seed_text(credential_id, req.model, req.tool_choice);
    let r = segments::reading(req, credential_id, counts);
    let said = prompt::message_steps(req.messages);
    assert(said.last() is MessageEnd);
    assert(steps.last() == said.last());
    chain_laws::lemma_tokens_ascend(seed, steps, counts, true);
    assert(steps.take(steps.len() as int) =~= steps);
    if identity_laws::told_apart(r.prefix, r.prefix) {
        lemma_asked(req);
        lemma_inherits(seed, steps, counts, steps.len() as int);
        let p = choose|p: Seq<char>|
            p.is_prefix_of(r.prefix) && r.segments.last().hash == #[trigger] segments::fingerprint(
                p,
            ) && (p == r.prefix ==> r.active_ttl == Some(r.segments.last().ttl_secs));
        identity_laws::lemma_prefix_of_concat(r.prefix, Seq::empty());
        assert(p == r.prefix);
    }
}

// ---------------------------------------------------------------------------
// Reading what the last turn has cached
// ---------------------------------------------------------------------------

proof fn lemma_cacheable_concat(a: Seq<Segment>, b: Seq<Segment>, minimum: u32)
    ensures
        usage::cacheable(a + b, minimum) == usage::cacheable(a, minimum) + usage::cacheable(
            b,
            minimum,
        ),
    decreases b.len(),
{
    if b.len() == 0 {
        assert(a + b =~= a);
        assert(usage::cacheable(a, minimum) + usage::cacheable(b, minimum) =~= usage::cacheable(
            a,
            minimum,
        ));
    } else {
        lemma_cacheable_concat(a, b.drop_last(), minimum);
        assert((a + b).drop_last() =~= a + b.drop_last());
        assert(usage::cacheable(a + b, minimum) =~= usage::cacheable(a, minimum)
            + usage::cacheable(b, minimum));
    }
}

/// What is read is the deepest prefix that is cached.
proof fn lemma_deepest_hit_is(
    entries: Map<u64, CacheEntry>,
    chain: Seq<Segment>,
    now: i64,
    k: int,
)
    requires
        0 <= k < chain.len(),
        meter::live(entries, chain[k].hash, now),
        forall|i: int|
            k < i < chain.len() ==> !meter::live(entries, (#[trigger] chain[i]).hash, now),
    ensures
        usage::deepest_hit(entries, chain, now) == chain[k].cumulative_tokens,
    decreases chain.len(),
{
    assert(chain[chain.len() - 1] == chain.last());
    if k < chain.len() - 1 {
        let front = chain.drop_last();
        assert forall|i: int| k < i < front.len() implies !meter::live(
            entries,
            (#[trigger] front[i]).hash,
            now,
        ) by {
            assert(front[i] == chain[i]);
        }
        lemma_deepest_hit_is(entries, front, now, k);
    }
}

/// Where a conversation is the first to be cached, its next turn reads exactly what the turn before
/// had covered, as long as that has not expired and fewer prefixes have come since than are looked
/// up. The prefixes of the first turn are not to exceed the capacity, the first new message is to
/// have a role, and fingerprints are to tell the beginnings of the prompt apart.
pub proof fn law_next_turn_reads_exactly_the_last_one(
    before: meter::MeterView,
    after: meter::MeterView,
    earlier: RequestView,
    next: RequestView,
    credential_id: u64,
    counts: Seq<u32>,
    more: Seq<u32>,
    planned_at: i64,
    now: i64,
    later: i64,
)
    requires
        before.entries == Map::<u64, CacheEntry>::empty(),
        chain_laws::appends(earlier, next),
        goes_on(earlier, next),
        counts.len() == segments::sources(prompt::request_steps(earlier)).len(),
        counts.is_prefix_of(more),
        identity_laws::told_apart(
            segments::reading(next, credential_id, more).prefix,
            segments::reading(next, credential_id, more).prefix,
        ),
        0 < usage::chain_of(earlier, credential_id, counts).len() <= DEFAULT_CAPACITY,
        now <= LATEST_RECORD_TIME,
        usage::committed_when(
            usage::plan_for(before.entries, earlier, credential_id, counts, planned_at),
            before,
            after,
            now,
        ),
        plan_laws::outlasts(
            before.entries,
            usage::chain_of(earlier, credential_id, counts),
            now,
            later,
        ),
        usage::chain_of(next, credential_id, more).len() < usage::chain_of(
            earlier,
            credential_id,
            counts,
        ).len() + PREFIX_LOOKBACK_LIMIT,
    ensures
        ({
            let first = usage::plan_for(
                before.entries,
                earlier,
                credential_id,
                counts,
                planned_at,
            ).usage;
            let second = usage::plan_for(after.entries, next, credential_id, more, later).usage;
            &&& second.cache_read == first.cache_covered_est
            &&& segments::reading(next, credential_id, more).prompt_tokens <= i32::MAX
                ==> second.cache_covered_est >= second.cache_read
        }),
{
    let ra = segments::reading(earlier, credential_id, counts);
    let rb = segments::reading(next, credential_id, more);
    let a = usage::chain_of(earlier, credential_id, counts);
    let b = usage::chain_of(next, credential_id, more);
    let minimum = usage::minimum_tokens(usage::lowercase(earlier.model));
    let n = a.len() as int;
    lemma_appended(earlier, next, credential_id, counts, more);
    let k = ra.segments.len() as int;
    let extra = rb.segments.skip(k);
    assert(rb.segments =~= ra.segments + extra);
    lemma_cacheable_concat(ra.segments, extra, minimum);
    assert(b == a + usage::cacheable(extra, minimum));
    plan_laws::lemma_account(earlier, credential_id, counts);
    assert(meter_laws::used_since(before.entries, now) =~= Map::<u64, CacheEntry>::empty());
    plan_laws::lemma_deepest_prefix_lives(before, after, a, now, later);
    let hashes = usage::hashes_of(a);
    identity_laws::lemma_fingerprints(
        segments::seed_text(credential_id, earlier.model, earlier.tool_choice),
        prompt::request_steps(earlier),
        counts,
        credential_id != 0,
    );
    assert forall|j: int| n <= j < b.len() implies !meter::live(
        after.entries,
        (#[trigger] b[j]).hash,
        later,
    ) by {
        plan_laws::lemma_cacheable_are_of_the_chain(extra, minimum, j - n);
        let e = choose|e: int| 0 <= e < extra.len() && extra[e] == b[j];
        assert(rb.segments[k + e] == b[j]);
        assert(is_longer(rb.segments[k + e].hash, ra.prefix.len(), rb.prefix));
        let q = choose|q: Seq<char>|
            q.len() > ra.prefix.len() && q.is_prefix_of(rb.prefix) && b[j].hash
                == #[trigger] segments::fingerprint(q);
        if hashes.contains(b[j].hash) {
            let i = choose|i: int| 0 <= i < hashes.len() && hashes[i] == b[j].hash;
            plan_laws::lemma_cacheable_are_of_the_chain(ra.segments, minimum, i);
            let c = choose|c: int| 0 <= c < ra.segments.len() && ra.segments[c] == a[i];
            let seed = segments::seed_text(credential_id, earlier.model, earlier.tool_choice);
            assert(identity_laws::fingerprints_prefix(ra.segments[c].hash, seed, ra.prefix));
            let p = choose|p: Seq<char>|
                seed.is_prefix_of(p) && p.is_prefix_of(ra.prefix) && a[i].hash
                    == #[trigger] segments::fingerprint(p);
            identity_laws::lemma_prefix_transitive(p, ra.prefix, rb.prefix);
            assert(p == q);
        }
        meter_laws::lemma_recorded_elsewhere(
            before.entries,
            hashes,
            usage::tokens_of(a),
            usage::ttls_of(a),
            now,
            b[j].hash,
        );
    }
    let w = usage::window(b);
    let d = b.len() - w.len();
    assert(b[n - 1] == a[n - 1]);
    assert(w[n - 1 - d] == b[n - 1]);
    assert forall|i: int| n - 1 - d < i < w.len() implies !meter::live(
        after.entries,
        (#[trigger] w[i]).hash,
        later,
    ) by {
        assert(w[i] == b[i + d]);
    }
    lemma_deepest_hit_is(after.entries, w, later, n - 1 - d);
    plan_laws::law_cacheable_prefixes_are_large_enough(next, credential_id, more);
    assert(b[n - 1].cumulative_tokens <= b[b.len() - 1].cumulative_tokens <= rb.prompt_tokens);
}

} // verus!
