//! What holds of plans over several requests.

use vstd::prelude::*;

use crate::chain_laws;
use crate::identity_laws;
use crate::json_laws;
use crate::meter;
use crate::meter::{CacheEntry, DEFAULT_CAPACITY, LATEST_RECORD_TIME};
use crate::meter_laws;
use crate::prompt;
use crate::request::RequestView;
use crate::segments;
use crate::segments::Segment;
use crate::usage;
use crate::usage::PREFIX_LOOKBACK_LIMIT;

verus! {

// ---------------------------------------------------------------------------
// Cacheable prefixes
// ---------------------------------------------------------------------------

/// Every cacheable prefix is one of the chain, and has at least the least tokens.
proof fn lemma_cacheable_members(chain: Seq<Segment>, minimum: u32, bound: u32)
    requires
        chain_laws::ascends_to(chain, bound),
    ensures
        chain_laws::ascends_to(usage::cacheable(chain, minimum), bound),
        forall|i: int|
            0 <= i < usage::cacheable(chain, minimum).len() ==> (#[trigger] usage::cacheable(
                chain,
                minimum,
            )[i]).cumulative_tokens >= minimum,
        usage::cacheable(chain, minimum).len() > 0 ==> usage::cacheable(chain, minimum).last()
            == chain.last() && chain.len() > 0,
    decreases chain.len(),
{
    if chain.len() > 0 {
        let front = chain.drop_last();
        assert(chain_laws::ascends_to(front, bound)) by {
            assert forall|i: int, j: int| 0 <= i <= j < front.len() implies (
            #[trigger] front[i]).cumulative_tokens <= (#[trigger] front[j]).cumulative_tokens by {
                assert(chain[i].cumulative_tokens <= chain[j].cumulative_tokens);
            }
            assert forall|i: int| 0 <= i < front.len() implies 0 < (
            #[trigger] front[i]).cumulative_tokens <= bound by {
                assert(front[i] == chain[i]);
            }
        }
        lemma_cacheable_members(front, minimum, bound);
        let before = usage::cacheable(front, minimum);
        let out = usage::cacheable(chain, minimum);
        let last = chain.last();
        assert(chain[chain.len() - 1] == last);
        if before.len() > 0 {
            assert(before.last() == front.last());
            assert(chain[chain.len() - 2].cumulative_tokens
                <= chain[chain.len() - 1].cumulative_tokens);
            assert(before[before.len() - 1].cumulative_tokens >= minimum);
        }
        if last.cumulative_tokens >= minimum {
            assert forall|i: int, j: int| 0 <= i <= j < out.len() implies (
            #[trigger] out[i]).cumulative_tokens <= (#[trigger] out[j]).cumulative_tokens by {
                if j == out.len() - 1 {
                    if i < j {
                        assert(before[i].cumulative_tokens
                            <= before[before.len() - 1].cumulative_tokens);
                    }
                } else {
                    assert(before[i].cumulative_tokens <= before[j].cumulative_tokens);
                }
            }
        }
    }
}

/// Reading on only continues the chain of cacheable prefixes.
proof fn lemma_cacheable_continues(a: Seq<Segment>, b: Seq<Segment>, minimum: u32)
    requires
        chain_laws::continues(a, b),
    ensures
        chain_laws::continues(usage::cacheable(a, minimum), usage::cacheable(b, minimum)),
    decreases b.len(),
{
    if a.len() < b.len() {
        let front = b.drop_last();
        assert(chain_laws::continues(a, front)) by {
            assert forall|i: int| 0 <= i < a.len() implies {
                &&& (#[trigger] a[i]).hash == front[i].hash
                &&& a[i].cumulative_tokens == front[i].cumulative_tokens
                &&& a[i].ttl_secs <= front[i].ttl_secs
                &&& (i < a.len() - 1 ==> a[i].ttl_secs == front[i].ttl_secs)
            } by {
                assert(front[i] == b[i]);
            }
        }
        lemma_cacheable_continues(a, front, minimum);
    } else if a.len() > 0 {
        let fa = a.drop_last();
        let fb = b.drop_last();
        let last = a.len() - 1;
        assert(a[last].hash == b[last].hash);
        lemma_cacheable_same(fa, fb, minimum);
    }
}

/// Chains that are the same have the same cacheable prefixes.
proof fn lemma_cacheable_same(a: Seq<Segment>, b: Seq<Segment>, minimum: u32)
    requires
        a.len() == b.len(),
        forall|i: int| 0 <= i < a.len() ==> (#[trigger] a[i]).hash == b[i].hash,
        forall|i: int|
            0 <= i < a.len() ==> (#[trigger] a[i]).cumulative_tokens == b[i].cumulative_tokens,
        forall|i: int| 0 <= i < a.len() ==> (#[trigger] a[i]).ttl_secs == b[i].ttl_secs,
    ensures
        usage::cacheable(a, minimum) == usage::cacheable(b, minimum),
{
    assert forall|i: int| 0 <= i < a.len() implies a[i] == b[i] by {
        assert(a[i].hash == b[i].hash);
        assert(a[i].cumulative_tokens == b[i].cumulative_tokens);
        assert(a[i].ttl_secs == b[i].ttl_secs);
    }
    assert(a =~= b);
}

/// The cacheable prefixes of a prompt have at least the least tokens for the model, do not decrease
/// in tokens, and do not exceed the whole prompt.
pub proof fn law_cacheable_prefixes_are_large_enough(
    req: RequestView,
    credential_id: u64,
    counts: Seq<u32>,
)
    ensures
        ({
            let chain = usage::chain_of(req, credential_id, counts);
            let minimum = usage::minimum_tokens(usage::lowercase(req.model));
            &&& chain_laws::ascends_to(
                chain,
                segments::reading(req, credential_id, counts).prompt_tokens,
            )
            &&& forall|i: int|
                0 <= i < chain.len() ==> (#[trigger] chain[i]).cumulative_tokens >= minimum
        }),
{
    chain_laws::law_tokens_ascend(req, credential_id, counts);
    lemma_cacheable_members(
        segments::reading(req, credential_id, counts).segments,
        usage::minimum_tokens(usage::lowercase(req.model)),
        segments::reading(req, credential_id, counts).prompt_tokens,
    );
}

/// A prompt that is smaller than the least tokens for the model has nothing cacheable: all of it is
/// input.
pub proof fn law_small_prompts_are_not_cacheable(
    entries: Map<u64, CacheEntry>,
    req: RequestView,
    credential_id: u64,
    counts: Seq<u32>,
    now: i64,
)
    requires
        segments::reading(req, credential_id, counts).prompt_tokens < usage::minimum_tokens(
            usage::lowercase(req.model),
        ),
    ensures
        ({
            let plan = usage::plan_for(entries, req, credential_id, counts, now);
            &&& plan.usage.cache_covered_est == 0
            &&& plan.usage.cache_read == 0
            &&& plan.commit is None
        }),
{
    law_cacheable_prefixes_are_large_enough(req, credential_id, counts);
    let chain = usage::chain_of(req, credential_id, counts);
    if chain.len() > 0 {
        assert(chain[0].cumulative_tokens >= 0);
    }
}

// ---------------------------------------------------------------------------
// What is read
// ---------------------------------------------------------------------------

/// The deepest hit is one of the prefixes, and no prefix that is cached is deeper.
pub proof fn lemma_deepest_hit(
    entries: Map<u64, CacheEntry>,
    chain: Seq<Segment>,
    bound: u32,
    now: i64,
)
    requires
        chain_laws::ascends_to(chain, bound),
    ensures
        ({
            let read = usage::deepest_hit(entries, chain, now);
            &&& chain.len() > 0 ==> read <= chain.last().cumulative_tokens
            &&& chain.len() == 0 ==> read == 0
            &&& forall|i: int|
                0 <= i < chain.len() && meter::live(entries, (#[trigger] chain[i]).hash, now)
                    ==> chain[i].cumulative_tokens <= read
            &&& read == 0 || exists|i: int|
                0 <= i < chain.len() && meter::live(entries, (#[trigger] chain[i]).hash, now)
                    && chain[i].cumulative_tokens == read
        }),
    decreases chain.len(),
{
    if chain.len() > 0 {
        let front = chain.drop_last();
        assert(chain[chain.len() - 1] == chain.last());
        assert forall|i: int| 0 <= i < chain.len() implies (
        #[trigger] chain[i]).cumulative_tokens <= chain.last().cumulative_tokens by {
            assert(chain[i].cumulative_tokens <= chain[chain.len() - 1].cumulative_tokens);
        }
        assert(chain_laws::ascends_to(front, bound)) by {
            assert forall|i: int, j: int| 0 <= i <= j < front.len() implies (
            #[trigger] front[i]).cumulative_tokens <= (#[trigger] front[j]).cumulative_tokens by {
                assert(chain[i].cumulative_tokens <= chain[j].cumulative_tokens);
            }
            assert forall|i: int| 0 <= i < front.len() implies 0 < (
            #[trigger] front[i]).cumulative_tokens <= bound by {
                assert(front[i] == chain[i]);
            }
        }
        lemma_deepest_hit(entries, front, bound, now);
        if !meter::live(entries, chain.last().hash, now) {
            assert forall|i: int|
                0 <= i < chain.len() && meter::live(
                    entries,
                    (#[trigger] chain[i]).hash,
                    now,
                ) implies chain[i].cumulative_tokens <= usage::deepest_hit(
                entries,
                chain,
                now,
            ) by {
                assert(front[i] == chain[i]);
            }
            if front.len() > 0 {
                assert(front.last() == chain[chain.len() - 2]);
            }
            let read = usage::deepest_hit(entries, front, now);
            if read != 0 {
                let i = choose|i: int|
                    0 <= i < front.len() && meter::live(entries, (#[trigger] front[i]).hash, now)
                        && front[i].cumulative_tokens == read;
                assert(front[i] == chain[i]);
            }
        }
    }
}

pub proof fn lemma_window_ascends(chain: Seq<Segment>, bound: u32)
    requires
        chain_laws::ascends_to(chain, bound),
    ensures
        chain_laws::ascends_to(usage::window(chain), bound),
        chain.len() > 0 ==> usage::window(chain).len() > 0 && usage::window(chain).last()
            == chain.last(),
{
    let w = usage::window(chain);
    let d = chain.len() - w.len();
    assert forall|i: int, j: int| 0 <= i <= j < w.len() implies (
    #[trigger] w[i]).cumulative_tokens <= (#[trigger] w[j]).cumulative_tokens by {
        assert(w[i] == chain[i + d] && w[j] == chain[j + d]);
    }
    assert forall|i: int| 0 <= i < w.len() implies 0 < (#[trigger] w[i]).cumulative_tokens
        <= bound by {
        assert(w[i] == chain[i + d]);
    }
}

/// What is read and what is created make up what is covered, and that is within the prompt.
pub proof fn law_usage_adds_up(
    entries: Map<u64, CacheEntry>,
    req: RequestView,
    credential_id: u64,
    counts: Seq<u32>,
    now: i64,
)
    requires
        segments::reading(req, credential_id, counts).prompt_tokens <= i32::MAX,
    ensures
        ({
            let u = usage::plan_for(entries, req, credential_id, counts, now).usage;
            &&& 0 <= u.cache_read <= u.cache_covered_est <= u.prompt_total_est
            &&& u.cache_creation_5m >= 0 && u.cache_creation_1h >= 0
            &&& u.cache_read + u.cache_creation_5m + u.cache_creation_1h == u.cache_covered_est
        }),
{
    let chain = usage::chain_of(req, credential_id, counts);
    let bound = segments::reading(req, credential_id, counts).prompt_tokens;
    law_cacheable_prefixes_are_large_enough(req, credential_id, counts);
    lemma_window_ascends(chain, bound);
    lemma_deepest_hit(entries, usage::window(chain), bound, now);
    if chain.len() > 0 {
        assert(chain[chain.len() - 1].cumulative_tokens <= bound);
    }
}

/// What is read is the longest of the prefixes looked up that is cached and has not expired, and
/// nothing where there is none.
pub proof fn law_the_longest_cached_prefix_is_read(
    entries: Map<u64, CacheEntry>,
    req: RequestView,
    credential_id: u64,
    counts: Seq<u32>,
    now: i64,
)
    requires
        segments::reading(req, credential_id, counts).prompt_tokens <= i32::MAX,
    ensures
        ({
            let looked_up = usage::window(usage::chain_of(req, credential_id, counts));
            let read = usage::plan_for(entries, req, credential_id, counts, now).usage.cache_read;
            &&& forall|i: int|
                0 <= i < looked_up.len() && meter::live(
                    entries,
                    (#[trigger] looked_up[i]).hash,
                    now,
                ) ==> looked_up[i].cumulative_tokens <= read
            &&& read == 0 || exists|i: int|
                0 <= i < looked_up.len() && meter::live(
                    entries,
                    (#[trigger] looked_up[i]).hash,
                    now,
                ) && looked_up[i].cumulative_tokens == read
        }),
{
    let chain = usage::chain_of(req, credential_id, counts);
    let bound = segments::reading(req, credential_id, counts).prompt_tokens;
    law_cacheable_prefixes_are_large_enough(req, credential_id, counts);
    lemma_window_ascends(chain, bound);
    lemma_deepest_hit(entries, usage::window(chain), bound, now);
    if chain.len() > 0 {
        assert(chain[chain.len() - 1].cumulative_tokens <= bound);
    }
}

/// Prefixes that are cached but lie further back than the deepest ones are not read.
pub proof fn law_older_prefixes_are_not_looked_up(
    entries: Map<u64, CacheEntry>,
    req: RequestView,
    credential_id: u64,
    counts: Seq<u32>,
    now: i64,
)
    requires
        ({
            let chain = usage::chain_of(req, credential_id, counts);
            forall|i: int|
                chain.len() - PREFIX_LOOKBACK_LIMIT <= i < chain.len() && i >= 0 ==> !meter::live(
                    entries,
                    (#[trigger] chain[i]).hash,
                    now,
                )
        }),
    ensures
        usage::plan_for(entries, req, credential_id, counts, now).usage.cache_read == 0,
{
    let chain = usage::chain_of(req, credential_id, counts);
    let bound = segments::reading(req, credential_id, counts).prompt_tokens;
    law_cacheable_prefixes_are_large_enough(req, credential_id, counts);
    lemma_window_ascends(chain, bound);
    let w = usage::window(chain);
    let d = chain.len() - w.len();
    assert forall|i: int| 0 <= i < w.len() implies !meter::live(
        entries,
        (#[trigger] w[i]).hash,
        now,
    ) by {
        assert(w[i] == chain[i + d]);
    }
    lemma_deepest_hit(entries, w, bound, now);
}

// ---------------------------------------------------------------------------
// Failed requests leave no trace
// ---------------------------------------------------------------------------

proof fn lemma_deepest_hit_by_liveness(
    a: Map<u64, CacheEntry>,
    b: Map<u64, CacheEntry>,
    chain: Seq<Segment>,
    now: i64,
)
    requires
        forall|k: u64| #[trigger] meter::live(a, k, now) <==> meter::live(b, k, now),
    ensures
        usage::deepest_hit(a, chain, now) == usage::deepest_hit(b, chain, now),
    decreases chain.len(),
{
    if chain.len() > 0 {
        lemma_deepest_hit_by_liveness(a, b, chain.drop_last(), now);
        assert(meter::live(a, chain.last().hash, now) <==> meter::live(b, chain.last().hash, now));
    }
}

/// A plan that is made but not committed, as for a request that fails, changes no later plan.
pub proof fn law_uncommitted_plans_leave_no_trace(
    entries: Map<u64, CacheEntry>,
    failed: Seq<Segment>,
    failed_at: i64,
    req: RequestView,
    credential_id: u64,
    counts: Seq<u32>,
    now: i64,
)
    ensures
        usage::plan_for(
            usage::planned_entries(entries, failed, failed_at),
            req,
            credential_id,
            counts,
            now,
        ) == usage::plan_for(entries, req, credential_id, counts, now),
{
    let after = usage::planned_entries(entries, failed, failed_at);
    let chain = usage::chain_of(req, credential_id, counts);
    assert forall|k: u64| #[trigger]
        meter::live(after, k, now) <==> meter::live(entries, k, now) by {}
    lemma_deepest_hit_by_liveness(after, entries, usage::window(chain), now);
}

// ---------------------------------------------------------------------------
// Committed requests are read back
// ---------------------------------------------------------------------------

/// Whether the deepest prefix of a chain that is recorded at `now` has not expired at `later`.
pub open spec fn outlasts(
    before: Map<u64, CacheEntry>,
    chain: Seq<Segment>,
    now: i64,
    later: i64,
) -> bool {
    meter::recorded(
        before,
        usage::hashes_of(chain),
        usage::tokens_of(chain),
        usage::ttls_of(chain),
        now,
    )[chain.last().hash].expires_at > later
}

/// The deepest prefix of a chain that is recorded lasts until then; where it was cached before,
/// until its old expiry; and where it was not, for its time to live.
pub proof fn law_deepest_prefix_lasts(
    before: Map<u64, CacheEntry>,
    chain: Seq<Segment>,
    now: i64,
    later: i64,
)
    requires
        chain.len() > 0,
        now <= LATEST_RECORD_TIME,
        ({
            let hash = chain.last().hash;
            ||| later <= now
            ||| meter::live(before, hash, now) && later < before[hash].expires_at
            ||| {
                &&& !meter::live(before, hash, now)
                &&& forall|i: int| 0 <= i < chain.len() - 1 ==> (#[trigger] chain[i]).hash != hash
                &&& later < now + meter::clamped_ttl(chain.last().ttl_secs)
            }
        }),
    ensures
        outlasts(before, chain, now, later),
{
    let n = chain.len() - 1;
    let hashes = usage::hashes_of(chain);
    let tokens = usage::tokens_of(chain);
    let ttls = usage::ttls_of(chain);
    assert(hashes[n] == chain.last().hash);
    meter_laws::law_recorded_prefixes_are_live(before, hashes, tokens, ttls, now, n);
    if meter::live(before, hashes[n], now) {
        meter_laws::law_record_does_not_extend(before, hashes, tokens, ttls, now, hashes[n]);
    } else if later > now {
        assert forall|j: int| 0 <= j < n implies hashes[j] != hashes[n] by {
            assert(chain[j].hash != chain[n].hash);
        }
        meter_laws::law_new_entry_lives_for_its_ttl(before, hashes, tokens, ttls, now, n);
    }
}

/// The deepest prefix of a chain that was recorded is cached for as long as it is to be.
pub proof fn lemma_deepest_prefix_lives(
    before: meter::MeterView,
    after: meter::MeterView,
    chain: Seq<Segment>,
    now: i64,
    later: i64,
)
    requires
        chain.len() > 0,
        before.entries.dom().finite(),
        meter_laws::used_since(before.entries, now).len() + chain.len() <= DEFAULT_CAPACITY,
        now <= LATEST_RECORD_TIME,
        meter::recorded_when(
            before,
            after,
            usage::hashes_of(chain),
            usage::tokens_of(chain),
            usage::ttls_of(chain),
            now,
        ),
        outlasts(before.entries, chain, now, later),
    ensures
        meter::live(after.entries, chain.last().hash, later),
{
    let n = chain.len() - 1;
    let hashes = usage::hashes_of(chain);
    let tokens = usage::tokens_of(chain);
    let ttls = usage::ttls_of(chain);
    meter_laws::law_recorded_prefixes_stay(
        before.entries,
        hashes,
        tokens,
        ttls,
        now,
        after.entries,
        n,
    );
    assert(hashes[n] == chain[n].hash);
}

/// A request whose plan was committed reads everything that it covers when it comes again, as long
/// as its deepest prefix has not expired. The prefixes recorded and the entries used since then are
/// not to exceed the capacity by themselves.
pub proof fn law_committed_request_is_read_back(
    before: meter::MeterView,
    after: meter::MeterView,
    req: RequestView,
    credential_id: u64,
    counts: Seq<u32>,
    planned_at: i64,
    now: i64,
    later: i64,
)
    requires
        usage::chain_of(req, credential_id, counts).len() > 0,
        before.entries.dom().finite(),
        meter_laws::used_since(before.entries, now).len() + usage::chain_of(
            req,
            credential_id,
            counts,
        ).len() <= DEFAULT_CAPACITY,
        now <= LATEST_RECORD_TIME,
        usage::committed_when(
            usage::plan_for(before.entries, req, credential_id, counts, planned_at),
            before,
            after,
            now,
        ),
        outlasts(before.entries, usage::chain_of(req, credential_id, counts), now, later),
    ensures
        ({
            let u = usage::plan_for(after.entries, req, credential_id, counts, later).usage;
            &&& u.cache_read == u.cache_covered_est
            &&& u.cache_creation_5m == 0
            &&& u.cache_creation_1h == 0
        }),
{
    let chain = usage::chain_of(req, credential_id, counts);
    let bound = segments::reading(req, credential_id, counts).prompt_tokens;
    law_cacheable_prefixes_are_large_enough(req, credential_id, counts);
    lemma_window_ascends(chain, bound);
    lemma_account(req, credential_id, counts);
    lemma_deepest_prefix_lives(before, after, chain, now, later);
}

/// A prompt with cacheable prefixes has an account.
pub proof fn lemma_account(req: RequestView, credential_id: u64, counts: Seq<u32>)
    requires
        usage::chain_of(req, credential_id, counts).len() > 0,
    ensures
        credential_id != 0,
{
    if credential_id == 0 {
        chain_laws::law_without_account_nothing_is_cacheable(req, counts);
        chain_laws::law_tokens_ascend(req, credential_id, counts);
        lemma_cacheable_members(
            segments::reading(req, credential_id, counts).segments,
            usage::minimum_tokens(usage::lowercase(req.model)),
            segments::reading(req, credential_id, counts).prompt_tokens,
        );
    }
}

/// The next turn of a conversation reads at least what the turn before it had covered, where that
/// turn's plan was committed, its deepest prefix has not expired, and not too many prefixes have
/// come since. The prefixes recorded and the entries used since then are not to exceed the capacity
/// by themselves.
pub proof fn law_next_turn_reads_the_last_one(
    before: meter::MeterView,
    after: meter::MeterView,
    earlier: RequestView,
    next: RequestView,
    credential_id: u64,
    counts: Seq<u32>,
    more: Seq<u32>,
    planned_at: i64,
    now: i64,
    later: i64,
)
    requires
        chain_laws::appends(earlier, next),
        counts.len() == segments::sources(prompt::request_steps(earlier)).len(),
        counts.is_prefix_of(more),
        usage::chain_of(earlier, credential_id, counts).len() > 0,
        before.entries.dom().finite(),
        meter_laws::used_since(before.entries, now).len() + usage::chain_of(
            earlier,
            credential_id,
            counts,
        ).len() <= DEFAULT_CAPACITY,
        now <= LATEST_RECORD_TIME,
        usage::committed_when(
            usage::plan_for(before.entries, earlier, credential_id, counts, planned_at),
            before,
            after,
            now,
        ),
        outlasts(before.entries, usage::chain_of(earlier, credential_id, counts), now, later),
        usage::chain_of(next, credential_id, more).len() < usage::chain_of(
            earlier,
            credential_id,
            counts,
        ).len() + PREFIX_LOOKBACK_LIMIT,
        segments::reading(next, credential_id, more).prompt_tokens <= i32::MAX,
    ensures
        usage::plan_for(after.entries, next, credential_id, more, later).usage.cache_read
            >= usage::plan_for(
            before.entries,
            earlier,
            credential_id,
            counts,
            planned_at,
        ).usage.cache_covered_est > 0,
{
    let a = usage::chain_of(earlier, credential_id, counts);
    let b = usage::chain_of(next, credential_id, more);
    let minimum = usage::minimum_tokens(usage::lowercase(earlier.model));
    let n = a.len() - 1;
    let bound = segments::reading(next, credential_id, more).prompt_tokens;
    chain_laws::law_appended_messages_continue_the_chain(
        earlier,
        next,
        credential_id,
        counts,
        more,
    );
    lemma_cacheable_continues(
        segments::reading(earlier, credential_id, counts).segments,
        segments::reading(next, credential_id, more).segments,
        minimum,
    );
    law_cacheable_prefixes_are_large_enough(earlier, credential_id, counts);
    law_cacheable_prefixes_are_large_enough(next, credential_id, more);
    lemma_window_ascends(b, bound);
    lemma_account(earlier, credential_id, counts);
    lemma_deepest_prefix_lives(before, after, a, now, later);
    assert(a[n].hash == b[n].hash && a[n].cumulative_tokens == b[n].cumulative_tokens);
    let w = usage::window(b);
    let d = b.len() - w.len();
    assert(n >= d);
    assert(w[n - d] == b[n]);
    assert(meter::live(after.entries, w[n - d].hash, later));
    lemma_deepest_hit(after.entries, w, bound, later);
    assert(b[n].cumulative_tokens <= bound);
    assert(b[b.len() - 1].cumulative_tokens <= bound);
    assert(a[n].cumulative_tokens > 0);
}

// ---------------------------------------------------------------------------
// Accounts, models and tool choices do not read from each other
// ---------------------------------------------------------------------------

/// Whether two requests differ in the account, the model or the choice of tools.
pub open spec fn kept_apart(a: RequestView, id_a: u64, b: RequestView, id_b: u64) -> bool {
    ||| id_a != id_b
    ||| a.model != b.model
    ||| json_laws::normal(identity_laws::choice(a.tool_choice)) != json_laws::normal(
        identity_laws::choice(b.tool_choice),
    )
}

pub proof fn lemma_cacheable_are_of_the_chain(chain: Seq<Segment>, minimum: u32, i: int)
    requires
        0 <= i < usage::cacheable(chain, minimum).len(),
    ensures
        chain.contains(usage::cacheable(chain, minimum)[i]),
    decreases chain.len(),
{
    let front = chain.drop_last();
    let before = usage::cacheable(front, minimum);
    assert(chain[chain.len() - 1] == chain.last());
    if i < before.len() {
        lemma_cacheable_are_of_the_chain(front, minimum, i);
        let j = choose|j: int| 0 <= j < front.len() && front[j] == before[i];
        assert(chain[j] == before[i]);
    }
}

/// Requests that are kept apart have no fingerprint in common.
proof fn lemma_no_common_fingerprint(
    a: RequestView,
    id_a: u64,
    counts_a: Seq<u32>,
    b: RequestView,
    id_b: u64,
    counts_b: Seq<u32>,
    i: int,
    j: int,
)
    requires
        json_laws::well_formed(identity_laws::choice(a.tool_choice)),
        json_laws::well_formed(identity_laws::choice(b.tool_choice)),
        kept_apart(a, id_a, b, id_b),
        identity_laws::told_apart(
            segments::reading(a, id_a, counts_a).prefix,
            segments::reading(b, id_b, counts_b).prefix,
        ),
        0 <= i < usage::chain_of(a, id_a, counts_a).len(),
        0 <= j < usage::chain_of(b, id_b, counts_b).len(),
    ensures
        usage::chain_of(a, id_a, counts_a)[i].hash != usage::chain_of(b, id_b, counts_b)[j].hash,
{
    let ra = segments::reading(a, id_a, counts_a);
    let rb = segments::reading(b, id_b, counts_b);
    let seed_a = segments::seed_text(id_a, a.model, a.tool_choice);
    let seed_b = segments::seed_text(id_b, b.model, b.tool_choice);
    let hash_a = usage::chain_of(a, id_a, counts_a)[i].hash;
    let hash_b = usage::chain_of(b, id_b, counts_b)[j].hash;
    lemma_cacheable_are_of_the_chain(
        ra.segments,
        usage::minimum_tokens(usage::lowercase(a.model)),
        i,
    );
    lemma_cacheable_are_of_the_chain(
        rb.segments,
        usage::minimum_tokens(usage::lowercase(b.model)),
        j,
    );
    let m = choose|m: int|
        0 <= m < ra.segments.len() && ra.segments[m] == usage::chain_of(a, id_a, counts_a)[i];
    let n = choose|n: int|
        0 <= n < rb.segments.len() && rb.segments[n] == usage::chain_of(b, id_b, counts_b)[j];
    identity_laws::law_fingerprints_are_of_prefixes(a, id_a, counts_a, m);
    identity_laws::law_fingerprints_are_of_prefixes(b, id_b, counts_b, n);
    let p = choose|p: Seq<char>|
        seed_a.is_prefix_of(p) && p.is_prefix_of(ra.prefix) && hash_a
            == #[trigger] segments::fingerprint(p);
    let q = choose|q: Seq<char>|
        seed_b.is_prefix_of(q) && q.is_prefix_of(rb.prefix) && hash_b
            == #[trigger] segments::fingerprint(q);
    if hash_a == hash_b {
        assert(p == q);
        let x = p.skip(seed_a.len() as int);
        let y = q.skip(seed_b.len() as int);
        assert(p =~= seed_a + x);
        assert(q =~= seed_b + y);
        if id_a != id_b {
            identity_laws::law_accounts_are_kept_apart(
                id_a,
                id_b,
                a.model,
                b.model,
                a.tool_choice,
                b.tool_choice,
                x,
                y,
            );
        } else {
            identity_laws::law_models_and_tool_choices_are_kept_apart(
                id_a,
                a.model,
                b.model,
                a.tool_choice,
                b.tool_choice,
                x,
                y,
            );
        }
    }
}

/// What a request commits adds nothing to what another one reads, where the two differ in the
/// account, the model or the choice of tools, and fingerprints tell their prompts apart. In a store
/// that was empty, the other one reads nothing.
pub proof fn law_what_is_kept_apart_is_not_read(
    before: meter::MeterView,
    after: meter::MeterView,
    a: RequestView,
    id_a: u64,
    counts_a: Seq<u32>,
    planned_at: i64,
    now: i64,
    b: RequestView,
    id_b: u64,
    counts_b: Seq<u32>,
    later: i64,
)
    requires
        json_laws::well_formed(identity_laws::choice(a.tool_choice)),
        json_laws::well_formed(identity_laws::choice(b.tool_choice)),
        kept_apart(a, id_a, b, id_b),
        identity_laws::told_apart(
            segments::reading(a, id_a, counts_a).prefix,
            segments::reading(b, id_b, counts_b).prefix,
        ),
        usage::committed_when(
            usage::plan_for(before.entries, a, id_a, counts_a, planned_at),
            before,
            after,
            now,
        ),
    ensures
        segments::reading(b, id_b, counts_b).prompt_tokens <= i32::MAX ==> usage::plan_for(
            after.entries,
            b,
            id_b,
            counts_b,
            later,
        ).usage.cache_read <= usage::plan_for(
            before.entries,
            b,
            id_b,
            counts_b,
            later,
        ).usage.cache_read,
        before.entries == Map::<u64, CacheEntry>::empty() ==> usage::plan_for(
            after.entries,
            b,
            id_b,
            counts_b,
            later,
        ).usage.cache_read == 0,
{
    let chain_a = usage::chain_of(a, id_a, counts_a);
    let chain_b = usage::chain_of(b, id_b, counts_b);
    let w = usage::window(chain_b);
    let d = chain_b.len() - w.len();
    assert forall|i: int|
        0 <= i < w.len() && meter::live(
            after.entries,
            (#[trigger] w[i]).hash,
            later,
        ) implies meter::live(before.entries, w[i].hash, later) by {
        assert(w[i] == chain_b[i + d]);
        let hashes = usage::hashes_of(chain_a);
        if hashes.contains(w[i].hash) {
            let m = choose|m: int| 0 <= m < hashes.len() && hashes[m] == w[i].hash;
            lemma_no_common_fingerprint(a, id_a, counts_a, b, id_b, counts_b, m, i + d);
        }
        meter_laws::lemma_recorded_elsewhere(
            before.entries,
            hashes,
            usage::tokens_of(chain_a),
            usage::ttls_of(chain_a),
            now,
            w[i].hash,
        );
    }
    let bound = segments::reading(b, id_b, counts_b).prompt_tokens;
    law_cacheable_prefixes_are_large_enough(b, id_b, counts_b);
    lemma_window_ascends(chain_b, bound);
    lemma_deepest_hit(before.entries, w, bound, later);
    lemma_deepest_hit(after.entries, w, bound, later);
    if chain_b.len() > 0 {
        assert(chain_b[chain_b.len() - 1].cumulative_tokens <= bound);
    }
}

} // verus!
