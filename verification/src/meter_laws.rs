//! What holds of the store of cached prefixes over several operations.

use std::collections::HashMap;
use vstd::prelude::*;

use crate::meter;
use crate::meter::{CacheEntry, DEFAULT_CAPACITY, LATEST_RECORD_TIME, MIN_TTL_SECS};
use crate::prompt::MAX_TTL_SECS;

verus! {

/// A lookup changes nothing but the times of last use.
pub proof fn law_lookup_only_marks_use(m: Map<u64, CacheEntry>, hashes: Seq<u64>, now: i64, k: u64)
    ensures
        ({
            let after = meter::used_entries(m, hashes, now);
            &&& after.contains_key(k) <==> m.contains_key(k)
            &&& m.contains_key(k) ==> after[k].tokens == m[k].tokens && after[k].expires_at
                == m[k].expires_at
        }),
{
}

/// What a lookup finds does not depend on lookups before it.
pub proof fn law_lookup_does_not_affect_lookups(
    m: Map<u64, CacheEntry>,
    earlier: Seq<u64>,
    looked_up_at: i64,
    hashes: Seq<u64>,
    tokens: Seq<u32>,
    now: i64,
)
    ensures
        meter::lookup_results(meter::used_entries(m, earlier, looked_up_at), hashes, tokens, now)
            == meter::lookup_results(m, hashes, tokens, now),
{
    let after = meter::used_entries(m, earlier, looked_up_at);
    assert(meter::lookup_results(after, hashes, tokens, now) =~= meter::lookup_results(
        m,
        hashes,
        tokens,
        now,
    ));
}

/// An entry that has expired is not found.
pub proof fn law_expired_entry_misses(
    m: Map<u64, CacheEntry>,
    hashes: Seq<u64>,
    tokens: Seq<u32>,
    i: int,
    now: i64,
)
    requires
        0 <= i < hashes.len(),
        m.contains_key(hashes[i]) ==> m[hashes[i]].expires_at <= now,
    ensures
        !meter::lookup_results(m, hashes, tokens, now)[i].hit,
{
}

/// Recording a prefix that is cached and has not expired does not change when it expires, and does
/// not make it smaller.
pub proof fn law_record_does_not_extend(
    m: Map<u64, CacheEntry>,
    hashes: Seq<u64>,
    tokens: Seq<u32>,
    ttls: Seq<i64>,
    now: i64,
    k: u64,
)
    requires
        hashes.len() == tokens.len() == ttls.len(),
        meter::live(m, k, now),
    ensures
        ({
            let after = meter::recorded(m, hashes, tokens, ttls, now);
            &&& after.contains_key(k)
            &&& after[k].expires_at == m[k].expires_at
            &&& after[k].tokens >= m[k].tokens
        }),
    decreases hashes.len(),
{
    if hashes.len() > 0 {
        law_record_does_not_extend(
            m,
            hashes.drop_last(),
            tokens.drop_last(),
            ttls.drop_last(),
            now,
            k,
        );
    }
}

/// Recording leaves other entries alone.
pub proof fn lemma_recorded_elsewhere(
    m: Map<u64, CacheEntry>,
    hashes: Seq<u64>,
    tokens: Seq<u32>,
    ttls: Seq<i64>,
    now: i64,
    k: u64,
)
    requires
        !hashes.contains(k),
    ensures
        meter::recorded(m, hashes, tokens, ttls, now).contains_key(k) <==> m.contains_key(k),
        meter::recorded(m, hashes, tokens, ttls, now)[k] == m[k],
    decreases hashes.len(),
{
    if hashes.len() > 0 {
        assert(hashes[hashes.len() - 1] == hashes.last());
        let front = hashes.drop_last();
        if front.contains(k) {
            let j = choose|j: int| 0 <= j < front.len() && front[j] == k;
            assert(hashes[j] == k);
        }
        lemma_recorded_elsewhere(m, front, tokens.drop_last(), ttls.drop_last(), now, k);
    }
}

/// Every prefix that is recorded is cached, live right away, and used at that time.
pub proof fn law_recorded_prefixes_are_live(
    m: Map<u64, CacheEntry>,
    hashes: Seq<u64>,
    tokens: Seq<u32>,
    ttls: Seq<i64>,
    now: i64,
    i: int,
)
    requires
        hashes.len() == tokens.len() == ttls.len(),
        now <= LATEST_RECORD_TIME,
        0 <= i < hashes.len(),
    ensures
        meter::live(meter::recorded(m, hashes, tokens, ttls, now), hashes[i], now),
        meter::recorded(m, hashes, tokens, ttls, now)[hashes[i]].last_hit_at == now,
    decreases hashes.len(),
{
    let before = meter::recorded(
        m,
        hashes.drop_last(),
        tokens.drop_last(),
        ttls.drop_last(),
        now,
    );
    if i < hashes.len() - 1 {
        law_recorded_prefixes_are_live(
            m,
            hashes.drop_last(),
            tokens.drop_last(),
            ttls.drop_last(),
            now,
            i,
        );
        assert(hashes.drop_last()[i] == hashes[i]);
    }
}

/// A prefix that was not cached, and is recorded, lives for its time to live within the bounds.
/// Where it is recorded several times, the first one counts.
pub proof fn law_new_entry_lives_for_its_ttl(
    m: Map<u64, CacheEntry>,
    hashes: Seq<u64>,
    tokens: Seq<u32>,
    ttls: Seq<i64>,
    now: i64,
    i: int,
)
    requires
        hashes.len() == tokens.len() == ttls.len(),
        now <= LATEST_RECORD_TIME,
        0 <= i < hashes.len(),
        forall|j: int| 0 <= j < i ==> hashes[j] != hashes[i],
        !meter::live(m, hashes[i], now),
    ensures
        ({
            let e = meter::recorded(m, hashes, tokens, ttls, now)[hashes[i]];
            &&& e.expires_at == now + meter::clamped_ttl(ttls[i])
            &&& now + MIN_TTL_SECS <= e.expires_at <= now + MAX_TTL_SECS
        }),
    decreases hashes.len(),
{
    let h = hashes.drop_last();
    let t = tokens.drop_last();
    let l = ttls.drop_last();
    let before = meter::recorded(m, h, t, l, now);
    if i < hashes.len() - 1 {
        assert(h[i] == hashes[i] && l[i] == ttls[i]);
        assert forall|j: int| 0 <= j < i implies h[j] != h[i] by {
            assert(h[j] == hashes[j]);
        }
        law_new_entry_lives_for_its_ttl(m, h, t, l, now, i);
        law_recorded_prefixes_are_live(m, h, t, l, now, i);
    } else {
        assert(!h.contains(hashes[i])) by {
            assert forall|j: int| 0 <= j < h.len() implies h[j] != hashes[i] by {
                assert(h[j] == hashes[j]);
            }
        }
        lemma_recorded_elsewhere(m, h, t, l, now, hashes[i]);
    }
}

proof fn lemma_recorded_len(
    m: Map<u64, CacheEntry>,
    hashes: Seq<u64>,
    tokens: Seq<u32>,
    ttls: Seq<i64>,
    now: i64,
)
    requires
        hashes.len() == tokens.len() == ttls.len(),
        m.dom().finite(),
    ensures
        meter::recorded(m, hashes, tokens, ttls, now).dom().finite(),
        m.len() <= meter::recorded(m, hashes, tokens, ttls, now).len() <= m.len() + hashes.len(),
    decreases hashes.len(),
{
    if hashes.len() > 0 {
        lemma_recorded_len(
            m,
            hashes.drop_last(),
            tokens.drop_last(),
            ttls.drop_last(),
            now,
        );
    }
}

/// The entries that were used at `now` or later.
pub open spec fn used_since(m: Map<u64, CacheEntry>, now: i64) -> Map<u64, CacheEntry> {
    Map::new(|k: u64| m.contains_key(k) && m[k].last_hit_at >= now, |k: u64| m[k])
}

proof fn lemma_used_since_len(
    m: Map<u64, CacheEntry>,
    hashes: Seq<u64>,
    tokens: Seq<u32>,
    ttls: Seq<i64>,
    now: i64,
)
    requires
        hashes.len() == tokens.len() == ttls.len(),
        m.dom().finite(),
    ensures
        used_since(m, now).dom().finite(),
        used_since(meter::recorded(m, hashes, tokens, ttls, now), now).dom().finite(),
        used_since(meter::recorded(m, hashes, tokens, ttls, now), now).len() <= used_since(
            m,
            now,
        ).len() + hashes.len(),
    decreases hashes.len(),
{
    assert(used_since(m, now).dom().subset_of(m.dom()));
    vstd::set_lib::lemma_len_subset(used_since(m, now).dom(), m.dom());
    if hashes.len() > 0 {
        let before = meter::recorded(
            m,
            hashes.drop_last(),
            tokens.drop_last(),
            ttls.drop_last(),
            now,
        );
        let after = meter::recorded(m, hashes, tokens, ttls, now);
        let h = hashes.last();
        lemma_used_since_len(
            m,
            hashes.drop_last(),
            tokens.drop_last(),
            ttls.drop_last(),
            now,
        );
        assert(used_since(after, now) =~= used_since(before, now).insert(h, after[h]));
    }
}

/// An entry that was used at `now` is not pushed out, as long as the entries used since then do not
/// exceed the capacity by themselves.
pub proof fn law_recent_entries_stay(
    all: Map<u64, CacheEntry>,
    after: Map<u64, CacheEntry>,
    now: i64,
    k: u64,
)
    requires
        meter::trimmed(all, after),
        all.dom().finite(),
        used_since(all, now).len() <= DEFAULT_CAPACITY,
        all.contains_key(k),
        all[k].last_hit_at >= now,
    ensures
        after.contains_key(k),
        after[k] == all[k],
{
    let recent = used_since(all, now).dom();
    assert(recent.subset_of(all.dom()));
    vstd::set_lib::lemma_len_subset(recent, all.dom());
    assert(after.dom().subset_of(all.dom()));
    vstd::set_lib::lemma_len_subset(after.dom(), all.dom());
    if !after.contains_key(k) {
        if all.len() <= DEFAULT_CAPACITY {
            vstd::set_lib::lemma_subset_equality(after.dom(), all.dom());
        } else {
            assert forall|x: u64| after.dom().insert(k).contains(x) implies recent.contains(x) by {
                if x != k {
                    assert(after.contains_key(x));
                    assert(all[k].last_hit_at <= all[x].last_hit_at);
                }
            }
            vstd::set_lib::lemma_len_subset(after.dom().insert(k), recent);
        }
    }
}

/// What is recorded stays, as long as it and the entries used since then do not exceed the capacity
/// by themselves.
pub proof fn law_recorded_prefixes_stay(
    m: Map<u64, CacheEntry>,
    hashes: Seq<u64>,
    tokens: Seq<u32>,
    ttls: Seq<i64>,
    now: i64,
    after: Map<u64, CacheEntry>,
    i: int,
)
    requires
        hashes.len() == tokens.len() == ttls.len(),
        now <= LATEST_RECORD_TIME,
        m.dom().finite(),
        used_since(m, now).len() + hashes.len() <= DEFAULT_CAPACITY,
        meter::trimmed(meter::recorded(m, hashes, tokens, ttls, now), after),
        0 <= i < hashes.len(),
    ensures
        meter::live(after, hashes[i], now),
        after[hashes[i]] == meter::recorded(m, hashes, tokens, ttls, now)[hashes[i]],
{
    lemma_recorded_len(m, hashes, tokens, ttls, now);
    lemma_used_since_len(m, hashes, tokens, ttls, now);
    law_recorded_prefixes_are_live(m, hashes, tokens, ttls, now, i);
    law_recent_entries_stay(meter::recorded(m, hashes, tokens, ttls, now), after, now, hashes[i]);
}

/// The capacity is never exceeded after prefixes were recorded.
pub proof fn law_capacity_is_kept(before: Map<u64, CacheEntry>, after: Map<u64, CacheEntry>)
    requires
        meter::trimmed(before, after),
    ensures
        after.len() <= DEFAULT_CAPACITY,
{
}

/// What is recorded is found right away, as long as it and the entries used since then do not
/// exceed the capacity by themselves.
pub proof fn law_recorded_prefixes_are_found(
    m: Map<u64, CacheEntry>,
    hashes: Seq<u64>,
    tokens: Seq<u32>,
    ttls: Seq<i64>,
    now: i64,
    after: Map<u64, CacheEntry>,
    i: int,
)
    requires
        hashes.len() == tokens.len() == ttls.len(),
        now <= LATEST_RECORD_TIME,
        m.dom().finite(),
        used_since(m, now).len() + hashes.len() <= DEFAULT_CAPACITY,
        meter::trimmed(meter::recorded(m, hashes, tokens, ttls, now), after),
        0 <= i < hashes.len(),
    ensures
        meter::lookup_results(after, hashes, tokens, now)[i].hit,
{
    law_recorded_prefixes_stay(m, hashes, tokens, ttls, now, after, i);
}

/// Removing expired entries changes no lookup from then on.
pub proof fn law_eviction_changes_no_lookup(
    m: Map<u64, CacheEntry>,
    evicted_at: i64,
    hashes: Seq<u64>,
    tokens: Seq<u32>,
    now: i64,
)
    requires
        evicted_at <= now,
    ensures
        meter::lookup_results(meter::live_entries(m, evicted_at), hashes, tokens, now)
            == meter::lookup_results(m, hashes, tokens, now),
{
    assert(meter::lookup_results(meter::live_entries(m, evicted_at), hashes, tokens, now)
        =~= meter::lookup_results(m, hashes, tokens, now));
}

/// A store that is made from a snapshot of another finds what that one finds.
pub proof fn law_reloaded_store_finds_the_same(
    m: Map<u64, CacheEntry>,
    snapshot: HashMap<u64, CacheEntry>,
    loaded_at: i64,
    hashes: Seq<u64>,
    tokens: Seq<u32>,
    now: i64,
)
    requires
        snapshot@ == m,
        loaded_at <= now,
    ensures
        meter::lookup_results(
            meter::live_entries(meter::entries_given(Some(snapshot)), loaded_at),
            hashes,
            tokens,
            now,
        ) == meter::lookup_results(m, hashes, tokens, now),
{
    law_eviction_changes_no_lookup(m, loaded_at, hashes, tokens, now);
}

} // verus!
