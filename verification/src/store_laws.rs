//! What each operation on the store does to each entry.

use vstd::prelude::*;

use crate::meter;
use crate::meter::{CacheEntry, MeterView};

verus! {

// ---------------------------------------------------------------------------
// Looking up
// ---------------------------------------------------------------------------

/// A prefix is found if and only if it has an entry that expires later than now; the answers come
/// in the order of the prefixes, each with the tokens that were asked for.
pub proof fn law_lookup_finds_what_has_not_expired(
    m: Map<u64, CacheEntry>,
    hashes: Seq<u64>,
    tokens: Seq<u32>,
    now: i64,
    i: int,
)
    requires
        0 <= i < hashes.len(),
    ensures
        ({
            let results = meter::lookup_results(m, hashes, tokens, now);
            &&& results.len() == hashes.len()
            &&& results[i].hit <==> m.contains_key(hashes[i]) && now < m[hashes[i]].expires_at
            &&& results[i].tokens == tokens[i]
        }),
{
}

/// A lookup notes its time on the entries that it finds, and on no other; it adds and drops none.
pub proof fn law_lookup_notes_the_time_of_use(
    m: Map<u64, CacheEntry>,
    hashes: Seq<u64>,
    now: i64,
    k: u64,
)
    ensures
        ({
            let after = meter::used_entries(m, hashes, now);
            let found = m.contains_key(k) && now < m[k].expires_at && exists|i: int|
                0 <= i < hashes.len() && #[trigger] hashes[i] == k;
            &&& after.contains_key(k) <==> m.contains_key(k)
            &&& found ==> after[k] == (CacheEntry { last_hit_at: now, ..m[k] })
            &&& m.contains_key(k) && !found ==> after[k] == m[k]
        }),
{
    if hashes.contains(k) {
        let i = choose|i: int| 0 <= i < hashes.len() && hashes[i] == k;
        assert(hashes[i] == k);
    }
}

/// Eviction drops the entries that have expired, and changes none of the others.
pub proof fn law_eviction_drops_what_has_expired(m: Map<u64, CacheEntry>, now: i64, k: u64)
    ensures
        ({
            let after = meter::live_entries(m, now);
            &&& after.contains_key(k) <==> m.contains_key(k) && now < m[k].expires_at
            &&& after.contains_key(k) ==> after[k] == m[k]
        }),
{
}

// ---------------------------------------------------------------------------
// Recording
// ---------------------------------------------------------------------------

/// To record nothing changes nothing.
pub proof fn law_recording_nothing(m: Map<u64, CacheEntry>, now: i64)
    ensures
        meter::recorded(m, Seq::empty(), Seq::empty(), Seq::empty(), now) == m,
{
}

/// One more prefix that is recorded is noted as used now. An entry that has not expired keeps its
/// end and the larger number of tokens; otherwise the entry has the tokens that are recorded and
/// ends after its time to live, but not before a minute and not after an hour. No other entry
/// changes.
pub proof fn law_recording_one_more(
    m: Map<u64, CacheEntry>,
    hashes: Seq<u64>,
    tokens: Seq<u32>,
    ttls: Seq<i64>,
    hash: u64,
    count: u32,
    ttl_secs: i64,
    now: i64,
    other: u64,
)
    requires
        hashes.len() == tokens.len() == ttls.len(),
        now <= i64::MAX - 3600,
        other != hash,
    ensures
        ({
            let before = meter::recorded(m, hashes, tokens, ttls, now);
            let after = meter::recorded(
                m,
                hashes.push(hash),
                tokens.push(count),
                ttls.push(ttl_secs),
                now,
            );
            let known = before.contains_key(hash) && now < before[hash].expires_at;
            &&& after.contains_key(hash)
            &&& after[hash].last_hit_at == now
            &&& known ==> {
                &&& after[hash].expires_at == before[hash].expires_at
                &&& after[hash].tokens >= before[hash].tokens
                &&& after[hash].tokens >= count
                &&& after[hash].tokens == before[hash].tokens || after[hash].tokens == count
            }
            &&& !known ==> {
                &&& after[hash].tokens == count
                &&& ttl_secs < 60 ==> after[hash].expires_at == now + 60
                &&& 60 <= ttl_secs <= 3600 ==> after[hash].expires_at == now + ttl_secs
                &&& ttl_secs > 3600 ==> after[hash].expires_at == now + 3600
            }
            &&& after.contains_key(other) <==> before.contains_key(other)
            &&& before.contains_key(other) ==> after[other] == before[other]
        }),
{
    assert(hashes.push(hash).drop_last() =~= hashes);
    assert(tokens.push(count).drop_last() =~= tokens);
    assert(ttls.push(ttl_secs).drop_last() =~= ttls);
}

/// Recording makes the store differ from what was saved, keeps the entries that were recorded or
/// there before as they are and adds none. Up to 4096 entries all of them stay; of more, 4096 stay,
/// and none of them was used before one that goes.
pub proof fn law_recording_keeps_what_was_used_last(
    before: MeterView,
    after: MeterView,
    hashes: Seq<u64>,
    tokens: Seq<u32>,
    ttls: Seq<i64>,
    now: i64,
    k: u64,
    gone: u64,
)
    requires
        meter::recorded_when(before, after, hashes, tokens, ttls, now),
        meter::recorded(before.entries, hashes, tokens, ttls, now).dom().finite(),
    ensures
        ({
            let all = meter::recorded(before.entries, hashes, tokens, ttls, now);
            &&& after.dirty
            &&& all.len() <= 4096 ==> after.entries == all
            &&& all.len() > 4096 ==> after.entries.len() == 4096
            &&& after.entries.contains_key(k) ==> all.contains_key(k) && after.entries[k] == all[k]
            &&& after.entries.contains_key(k) && all.contains_key(gone)
                && !after.entries.contains_key(gone) ==> all[gone].last_hit_at
                <= all[k].last_hit_at
        }),
{
    let all = meter::recorded(before.entries, hashes, tokens, ttls, now);
    if all.len() <= 4096 {
        assert(after.entries.dom().subset_of(all.dom()));
        vstd::set_lib::lemma_len_subset(after.entries.dom(), all.dom());
        vstd::set_lib::lemma_subset_equality(after.entries.dom(), all.dom());
        assert(after.entries =~= all);
    }
}

/// One time to live for all prefixes is that of each.
pub proof fn law_one_time_to_live_for_all(n: nat, ttl_secs: i64, i: int)
    requires
        0 <= i < n,
    ensures
        meter::same_ttls(n, ttl_secs).len() == n,
        meter::same_ttls(n, ttl_secs)[i] == ttl_secs,
{
}

} // verus!
