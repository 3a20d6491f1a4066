//! The store of cached prefixes.

use std::collections::HashMap;
use vstd::prelude::*;

use crate::prompt::MAX_TTL_SECS;

verus! {

broadcast use vstd::std_specs::hash::group_hash_axioms;

/// The most entries that the store keeps.
pub const DEFAULT_CAPACITY: usize = 4096;

/// The shortest time to live, in seconds.
pub const MIN_TTL_SECS: i64 = 60;

/// The latest time at which every expiry can be represented.
pub const LATEST_RECORD_TIME: i64 = i64::MAX - MAX_TTL_SECS;

/// A cached prefix.
#[derive(Debug, Clone, Copy)]
pub struct CacheEntry {
    /// The tokens of the prefix.
    pub tokens: u32,
    /// When the entry expires, in seconds since the epoch.
    pub expires_at: i64,
    /// When the entry was last used, in seconds since the epoch.
    pub last_hit_at: i64,
}

/// What was found for one prefix.
#[derive(Debug, Clone, Copy)]
pub struct SegmentResult {
    /// Whether the prefix is cached.
    pub hit: bool,
    /// The tokens of the prefix.
    pub tokens: u32,
}

/// The store of cached prefixes, by fingerprint.
pub struct CacheMeter {
    entries: HashMap<u64, CacheEntry>,
    /// Whether anything has changed since the last snapshot.
    dirty: bool,
}

/// What a [`CacheMeter`] holds.
#[verifier::ext_equal]
pub struct MeterView {
    pub entries: Map<u64, CacheEntry>,
    pub dirty: bool,
}

impl View for CacheMeter {
    type V = MeterView;

    closed spec fn view(&self) -> MeterView {
        MeterView { entries: self.entries@, dirty: self.dirty }
    }
}

// ---------------------------------------------------------------------------
// What the operations do to the entries
// ---------------------------------------------------------------------------

/// Whether the prefix is cached and has not expired.
pub open spec fn live(m: Map<u64, CacheEntry>, hash: u64, now: i64) -> bool {
    m.contains_key(hash) && m[hash].expires_at > now
}

/// The entries that have not expired.
pub open spec fn live_entries(m: Map<u64, CacheEntry>, now: i64) -> Map<u64, CacheEntry> {
    Map::new(|k: u64| live(m, k, now), |k: u64| m[k])
}

/// The entries that a store is made from.
pub open spec fn entries_given(loaded: Option<HashMap<u64, CacheEntry>>) -> Map<u64, CacheEntry> {
    match loaded {
        Some(m) => m@,
        None => Map::empty(),
    }
}

/// The entries after a lookup: those that were hit have been used now.
pub open spec fn used_entries(m: Map<u64, CacheEntry>, hashes: Seq<u64>, now: i64) -> Map<
    u64,
    CacheEntry,
> {
    Map::new(
        |k: u64| m.contains_key(k),
        |k: u64|
            if hashes.contains(k) && live(m, k, now) {
                CacheEntry { last_hit_at: now, ..m[k] }
            } else {
                m[k]
            },
    )
}

/// What a lookup finds.
pub open spec fn lookup_results(
    m: Map<u64, CacheEntry>,
    hashes: Seq<u64>,
    tokens: Seq<u32>,
    now: i64,
) -> Seq<SegmentResult> {
    Seq::new(
        hashes.len(),
        |i: int| SegmentResult { hit: live(m, hashes[i], now), tokens: tokens[i] },
    )
}

/// A time to live within the bounds.
pub open spec fn clamped_ttl(ttl_secs: i64) -> i64 {
    if ttl_secs < MIN_TTL_SECS {
        MIN_TTL_SECS
    } else if ttl_secs > MAX_TTL_SECS {
        MAX_TTL_SECS
    } else {
        ttl_secs
    }
}

/// The entries after one prefix was recorded. A live entry keeps its expiry.
pub open spec fn recorded_one(
    m: Map<u64, CacheEntry>,
    hash: u64,
    tokens: u32,
    ttl_secs: i64,
    now: i64,
) -> Map<u64, CacheEntry> {
    if live(m, hash, now) {
        m.insert(
            hash,
            CacheEntry {
                tokens: if m[hash].tokens >= tokens {
                    m[hash].tokens
                } else {
                    tokens
                },
                expires_at: m[hash].expires_at,
                last_hit_at: now,
            },
        )
    } else {
        m.insert(
            hash,
            CacheEntry { tokens, expires_at: (now + clamped_ttl(ttl_secs)) as i64, last_hit_at: now },
        )
    }
}

/// The entries after some prefixes were recorded, one after another.
pub open spec fn recorded(
    m: Map<u64, CacheEntry>,
    hashes: Seq<u64>,
    tokens: Seq<u32>,
    ttls: Seq<i64>,
    now: i64,
) -> Map<u64, CacheEntry>
    decreases hashes.len(),
{
    if hashes.len() == 0 {
        m
    } else {
        recorded_one(
            recorded(m, hashes.drop_last(), tokens.drop_last(), ttls.drop_last(), now),
            hashes.last(),
            tokens.last(),
            ttls.last(),
            now,
        )
    }
}

/// Whether `after` is what is left of `before` when it is cut to the capacity: entries that have
/// gone were not used later than those that stay.
pub open spec fn trimmed(before: Map<u64, CacheEntry>, after: Map<u64, CacheEntry>) -> bool {
    &&& after.submap_of(before)
    &&& after.len() == if before.len() > DEFAULT_CAPACITY {
        DEFAULT_CAPACITY as nat
    } else {
        before.len()
    }
    &&& forall|gone: u64, kept: u64|
        #![trigger before.contains_key(gone), after.contains_key(kept)]
        before.contains_key(gone) && !after.contains_key(gone) && after.contains_key(kept)
            ==> before[gone].last_hit_at <= before[kept].last_hit_at
}

/// `n` times the same time to live.
pub open spec fn same_ttls(n: nat, ttl_secs: i64) -> Seq<i64> {
    Seq::new(n, |i: int| ttl_secs)
}

/// Whether `after` is the store `before` with some prefixes recorded at the time `now`.
pub open spec fn recorded_when(
    before: MeterView,
    after: MeterView,
    hashes: Seq<u64>,
    tokens: Seq<u32>,
    ttls: Seq<i64>,
    now: i64,
) -> bool {
    trimmed(recorded(before.entries, hashes, tokens, ttls, now), after.entries) && after.dirty
}

// ---------------------------------------------------------------------------
// The clock
// ---------------------------------------------------------------------------

/// The whole seconds since the epoch, from `std::time::SystemTime::elapsed` on
/// `std::time::UNIX_EPOCH`; `None` where the clock stands before the epoch. Nothing is claimed of
/// what the clock reads.
#[verifier::external_body]
fn elapsed_since_epoch() -> (r: Option<u64>) {
    match std::time::UNIX_EPOCH.elapsed() {
        Ok(d) => Some(d.as_secs()),
        Err(_) => None,
    }
}

/// The time for what the clock reads; the epoch itself where it stands before the epoch.
pub fn time_of(elapsed: Option<u64>) -> (r: i64)
    ensures
        r == match elapsed {
            Some(s) => s as i64,
            None => 0,
        },
{
    match elapsed {
        Some(s) => s as i64,
        None => 0,
    }
}

/// The time now, in seconds since the epoch.
pub fn now_secs() -> (r: i64) {
    time_of(elapsed_since_epoch())
}

// ---------------------------------------------------------------------------
// Sorting
// ---------------------------------------------------------------------------

/// Whether the second components do not decrease.
pub open spec fn seconds_ascend(s: Seq<(u64, i64)>) -> bool {
    forall|i: int, j: int| 0 <= i <= j < s.len() ==> #[trigger] s[i].1 <= #[trigger] s[j].1
}

/// Sorts by the second component, with `slice::sort_by_key`.
///
/// Claimed of that function: it rearranges the items, and afterwards the second components do not
/// decrease. Left unsaid is that items with equal second components keep their order: the items come
/// from a hash map, in no order to be kept.
#[verifier::external_body]
fn sort_by_last_hit(v: &mut Vec<(u64, i64)>)
    ensures
        final(v)@.to_multiset() == old(v)@.to_multiset(),
        seconds_ascend(final(v)@),
{
    v.sort_by_key(|x| x.1);
}

// ---------------------------------------------------------------------------
// Walking the entries
// ---------------------------------------------------------------------------

broadcast proof fn lemma_take_all(s: Seq<u64>, n: int)
    requires
        n == s.len(),
    ensures
        #[trigger] s.take(n) == s,
{
    assert(s.take(n) =~= s);
}

/// The keys of a map, each once.
fn keys_of(m: &HashMap<u64, CacheEntry>) -> (r: Vec<u64>)
    ensures
        r@.no_duplicates(),
        r@.len() == m@.len(),
        forall|k: u64| r@.contains(k) <==> m@.contains_key(k),
{
    broadcast use lemma_take_all;

    let mut r: Vec<u64> = Vec::new();
    for k in it: m.keys()
        invariant
            r@ == it.seq().unref().take(it.index()),
            it.seq().unref().to_set() == m@.dom(),
            it.seq().no_duplicates(),
            it.seq().len() == m@.dom().len(),
    {
        r.push(*k);
    }
    assert(r@.to_set() == m@.dom());
    assert forall|k: u64| r@.contains(k) <==> m@.contains_key(k) by {
        assert(r@.contains(k) <==> r@.to_set().contains(k));
    }
    r
}

/// Removes the entries that were not used for longest, so that the capacity is kept.
fn trim(entries: &mut HashMap<u64, CacheEntry>)
    ensures
        trimmed(old(entries)@, final(entries)@),
{
    let ghost before = entries@;
    if entries.len() <= DEFAULT_CAPACITY {
        return;
    }
    let drop_n: usize = entries.len() - DEFAULT_CAPACITY;
    let keys = keys_of(entries);
    let mut victims: Vec<(u64, i64)> = Vec::new();
    let mut i: usize = 0;
    while i < keys.len()
        invariant
            entries@ == before,
            i <= keys@.len(),
            victims@.len() == i,
            keys@.no_duplicates(),
            forall|k: u64| keys@.contains(k) <==> before.contains_key(k),
            forall|j: int|
                0 <= j < i ==> #[trigger] victims@[j] == (
                    keys@[j],
                    before[keys@[j]].last_hit_at,
                ),
        decreases keys@.len() - i,
    {
        let k: u64 = keys[i];
        assert(keys@.contains(k));
        let hit: i64 = match entries.get(&k) {
            Some(e) => e.last_hit_at,
            None => 0,
        };
        victims.push((k, hit));
        i = i + 1;
    }
    let ghost unsorted = victims@;
    sort_by_last_hit(&mut victims);
    let ghost order = victims@;
    proof {
        lemma_sorted_victims(before, keys@, unsorted, order);
    }
    let mut n: usize = 0;
    while n < drop_n
        invariant
            n <= drop_n <= order.len(),
            order == victims@,
            order.len() == before.len(),
            before.dom().finite(),
            forall|j: int, l: int|
                0 <= j < l < order.len() ==> (#[trigger] order[j]).0 != (#[trigger] order[l]).0,
            forall|j: int| 0 <= j < order.len() ==> before.contains_key((#[trigger] order[j]).0),
            forall|k: u64| #[trigger]
                entries@.contains_key(k) <==> before.contains_key(k) && forall|j: int|
                    0 <= j < n ==> (#[trigger] order[j]).0 != k,
            forall|k: u64| #[trigger] entries@.contains_key(k) ==> entries@[k] == before[k],
            entries@.dom().finite(),
            entries@.len() == before.len() - n,
        decreases drop_n - n,
    {
        let k: u64 = victims[n].0;
        assert(order[n as int].0 == k);
        assert(entries@.contains_key(k));
        entries.remove(&k);
        n = n + 1;
    }
    assert forall|gone: u64, kept: u64|
        #![trigger before.contains_key(gone), entries@.contains_key(kept)]
        before.contains_key(gone) && !entries@.contains_key(gone) && entries@.contains_key(
            kept,
        ) implies before[gone].last_hit_at <= before[kept].last_hit_at by {
        let j = choose|j: int| 0 <= j < n && (#[trigger] order[j]).0 == gone;
        let l = choose|l: int| 0 <= l < order.len() && (#[trigger] order[l]).0 == kept;
        assert(l >= n);
        assert(order[j].1 <= order[l].1);
    }
}

/// Sorting the victims keeps each entry once, with the time of its last use.
proof fn lemma_sorted_victims(
    m: Map<u64, CacheEntry>,
    keys: Seq<u64>,
    unsorted: Seq<(u64, i64)>,
    order: Seq<(u64, i64)>,
)
    requires
        keys.no_duplicates(),
        keys.len() == m.len(),
        forall|k: u64| keys.contains(k) <==> m.contains_key(k),
        unsorted.len() == keys.len(),
        forall|j: int|
            0 <= j < keys.len() ==> #[trigger] unsorted[j] == (keys[j], m[keys[j]].last_hit_at),
        order.to_multiset() == unsorted.to_multiset(),
    ensures
        order.len() == m.len(),
        forall|j: int, l: int|
            0 <= j < l < order.len() ==> (#[trigger] order[j]).0 != (#[trigger] order[l]).0,
        forall|j: int|
            0 <= j < order.len() ==> m.contains_key((#[trigger] order[j]).0) && order[j].1
                == m[order[j].0].last_hit_at,
        forall|k: u64|
            m.contains_key(k) ==> exists|l: int|
                0 <= l < order.len() && (#[trigger] order[l]).0 == k,
{
    broadcast use vstd::seq_lib::group_to_multiset_ensures;

    assert(order.len() == order.to_multiset().len());
    assert(unsorted.no_duplicates());
    unsorted.lemma_multiset_has_no_duplicates();
    order.lemma_multiset_has_no_duplicates_conv();
    assert forall|j: int| 0 <= j < order.len() implies m.contains_key((#[trigger] order[j]).0)
        && order[j].1 == m[order[j].0].last_hit_at by {
        assert(order.contains(order[j]));
        assert(unsorted.to_multiset().count(order[j]) > 0);
        assert(unsorted.contains(order[j]));
        let i = choose|i: int| 0 <= i < unsorted.len() && unsorted[i] == order[j];
        assert(keys.contains(keys[i]));
    }
    assert forall|k: u64| m.contains_key(k) implies exists|l: int|
        0 <= l < order.len() && (#[trigger] order[l]).0 == k by {
        assert(keys.contains(k));
        let i = choose|i: int| 0 <= i < keys.len() && keys[i] == k;
        assert(unsorted.contains(unsorted[i]));
        assert(order.to_multiset().count(unsorted[i]) > 0);
        assert(order.contains(unsorted[i]));
        let l = choose|l: int| 0 <= l < order.len() && order[l] == unsorted[i];
        assert(order[l].0 == k);
    }
}

/// The entries of `m` that have not expired.
fn keep_live(m: &mut HashMap<u64, CacheEntry>, now: i64)
    ensures
        final(m)@ == live_entries(old(m)@, now),
{
    let ghost before = m@;
    let keys = keys_of(m);
    let mut i: usize = 0;
    assert forall|k: u64|
        m@.contains_key(k) <==> before.contains_key(k) && (live(before, k, now) || exists|j: int|
            0 <= j < keys@.len() && #[trigger] keys@[j] == k) by {
        if before.contains_key(k) {
            assert(keys@.contains(k));
        }
    }
    while i < keys.len()
        invariant
            i <= keys@.len(),
            keys@.no_duplicates(),
            forall|k: u64| keys@.contains(k) <==> before.contains_key(k),
            forall|k: u64|
                m@.contains_key(k) <==> before.contains_key(k) && (live(before, k, now) || exists|
                    j: int,
                |
                    i <= j < keys@.len() && #[trigger] keys@[j] == k),
            forall|k: u64| #[trigger] m@.contains_key(k) ==> m@[k] == before[k],
        decreases keys@.len() - i,
    {
        let k: u64 = keys[i];
        assert(keys@.contains(k));
        assert(m@.contains_key(k)) by {
            assert(keys@[i as int] == k);
        }
        let expired: bool = match m.get(&k) {
            Some(e) => e.expires_at <= now,
            None => false,
        };
        if expired {
            m.remove(&k);
        }
        assert forall|x: u64|
            m@.contains_key(x) <==> before.contains_key(x) && (live(before, x, now) || exists|
                j: int,
            |
                i + 1 <= j < keys@.len() && #[trigger] keys@[j] == x) by {
            if x != k && before.contains_key(x) && !live(before, x, now) && m@.contains_key(x) {
                let j = choose|j: int| i <= j < keys@.len() && #[trigger] keys@[j] == x;
                assert(j != i);
                assert(i + 1 <= j < keys@.len() && keys@[j] == x);
            }
        }
        i = i + 1;
    }
    assert(m@ =~= live_entries(before, now));
}

/// Every store holds finitely many entries.
pub proof fn law_a_store_is_finite(m: &CacheMeter)
    ensures
        m@.entries.dom().finite(),
{
}

impl CacheMeter {
    /// A store with those of the given entries that have not expired at `now`.
    pub fn new_at(loaded: Option<HashMap<u64, CacheEntry>>, now: i64) -> (r: CacheMeter)
        ensures
            r@.entries == live_entries(entries_given(loaded), now),
            !r@.dirty,
    {
        let mut entries: HashMap<u64, CacheEntry> = match loaded {
            Some(m) => m,
            None => HashMap::new(),
        };
        keep_live(&mut entries, now);
        CacheMeter { entries, dirty: false }
    }

    /// A store with those of the given entries that have not expired.
    pub fn new(loaded: Option<HashMap<u64, CacheEntry>>) -> (r: CacheMeter)
        ensures
            exists|now: i64| r@.entries == #[trigger] live_entries(entries_given(loaded), now),
            loaded is None ==> r@.entries == Map::<u64, CacheEntry>::empty(),
            !r@.dirty,
    {
        let now: i64 = now_secs();
        let r = CacheMeter::new_at(loaded, now);
        assert(loaded is None ==> r@.entries =~= Map::<u64, CacheEntry>::empty());
        r
    }

    /// The number of entries.
    pub fn len(&self) -> (r: usize)
        ensures
            r == self@.entries.len(),
    {
        self.entries.len()
    }

    /// The entry of a prefix.
    pub fn entry(&self, hash: u64) -> (r: Option<CacheEntry>)
        ensures
            r == if self@.entries.contains_key(hash) {
                Some(self@.entries[hash])
            } else {
                None
            },
    {
        match self.entries.get(&hash) {
            Some(e) => Some(*e),
            None => None,
        }
    }

    /// Looks up some prefixes at the time `now`. Prefixes that are found count as used at that time.
    pub fn lookup_at(
        &mut self,
        segment_hashes: &[u64],
        segment_tokens: &[u32],
        now: i64,
    ) -> (r: Vec<SegmentResult>)
        requires
            segment_hashes@.len() == segment_tokens@.len(),
        ensures
            r@ == lookup_results(old(self)@.entries, segment_hashes@, segment_tokens@, now),
            final(self)@.entries == used_entries(old(self)@.entries, segment_hashes@, now),
            final(self)@.dirty == old(self)@.dirty,
    {
        let ghost before = self@.entries;
        let mut out: Vec<SegmentResult> = Vec::new();
        let mut i: usize = 0;
        assert(self.entries@ =~= used_entries(before, segment_hashes@.take(0), now));
        while i < segment_hashes.len()
            invariant
                segment_hashes@.len() == segment_tokens@.len(),
                i <= segment_hashes@.len(),
                out@ == lookup_results(before, segment_hashes@, segment_tokens@, now).take(i as int),
                self.entries@ == used_entries(before, segment_hashes@.take(i as int), now),
                self.dirty == old(self).dirty,
            decreases segment_hashes@.len() - i,
        {
            let h: u64 = segment_hashes[i];
            let ghost done = segment_hashes@.take(i as int);
            let ghost next = segment_hashes@.take(i + 1);
            assert(next =~= done.push(h));
            assert forall|k: u64| next.contains(k) <==> done.contains(k) || k == h by {
                if done.contains(k) {
                    let j = choose|j: int| 0 <= j < done.len() && done[j] == k;
                    assert(next[j] == k);
                }
                assert(next[i as int] == h);
            }
            let found: Option<CacheEntry> = match self.entries.get(&h) {
                Some(e) => Some(*e),
                None => None,
            };
            let hit: bool = match found {
                Some(e) if e.expires_at > now => {
                    self.entries.insert(
                        h,
                        CacheEntry {
                            tokens: e.tokens,
                            expires_at: e.expires_at,
                            last_hit_at: now,
                        },
                    );
                    true
                },
                _ => false,
            };
            assert(hit == live(before, h, now));
            assert(self.entries@ =~= used_entries(before, next, now));
            out.push(SegmentResult { hit, tokens: segment_tokens[i] });
            assert(out@ =~= lookup_results(before, segment_hashes@, segment_tokens@, now).take(
                i + 1,
            ));
            i = i + 1;
        }
        assert(segment_hashes@.take(i as int) =~= segment_hashes@);
        assert(out@ =~= lookup_results(before, segment_hashes@, segment_tokens@, now));
        out
    }

    /// Looks up some prefixes. Prefixes that are found count as used now.
    pub fn lookup(&mut self, segment_hashes: &[u64], segment_tokens: &[u32]) -> (r: Vec<
        SegmentResult,
    >)
        requires
            segment_hashes@.len() == segment_tokens@.len(),
        ensures
            exists|now: i64|
                r@ == lookup_results(old(self)@.entries, segment_hashes@, segment_tokens@, now)
                    && final(self)@.entries == #[trigger] used_entries(
                    old(self)@.entries,
                    segment_hashes@,
                    now,
                ),
            final(self)@.dirty == old(self)@.dirty,
    {
        let now: i64 = now_secs();
        self.lookup_at(segment_hashes, segment_tokens, now)
    }

    /// Records some prefixes at the time `now`. A time to live is clamped to the bounds; a prefix
    /// that is cached and has not expired keeps its expiry. Where the capacity is exceeded, the
    /// entries that were not used for longest go.
    pub fn record_with_ttls_at(
        &mut self,
        segment_hashes: &[u64],
        segment_tokens: &[u32],
        segment_ttls: &[i64],
        now: i64,
    )
        requires
            segment_hashes@.len() == segment_tokens@.len(),
            segment_hashes@.len() == segment_ttls@.len(),
            now <= LATEST_RECORD_TIME,
        ensures
            trimmed(
                recorded(
                    old(self)@.entries,
                    segment_hashes@,
                    segment_tokens@,
                    segment_ttls@,
                    now,
                ),
                final(self)@.entries,
            ),
            final(self)@.dirty,
    {
        let ghost before = self@.entries;
        let mut i: usize = 0;
        while i < segment_hashes.len()
            invariant
                segment_hashes@.len() == segment_tokens@.len(),
                segment_hashes@.len() == segment_ttls@.len(),
                now <= LATEST_RECORD_TIME,
                i <= segment_hashes@.len(),
                self.entries@ == recorded(
                    before,
                    segment_hashes@.take(i as int),
                    segment_tokens@.take(i as int),
                    segment_ttls@.take(i as int),
                    now,
                ),
            decreases segment_hashes@.len() - i,
        {
            assert(segment_hashes@.take(i + 1).drop_last() =~= segment_hashes@.take(i as int));
            assert(segment_tokens@.take(i + 1).drop_last() =~= segment_tokens@.take(i as int));
            assert(segment_ttls@.take(i + 1).drop_last() =~= segment_ttls@.take(i as int));
            let h: u64 = segment_hashes[i];
            let t: u32 = segment_tokens[i];
            let asked: i64 = segment_ttls[i];
            let ttl: i64 = if asked < MIN_TTL_SECS {
                MIN_TTL_SECS
            } else if asked > MAX_TTL_SECS {
                MAX_TTL_SECS
            } else {
                asked
            };
            let found: Option<CacheEntry> = match self.entries.get(&h) {
                Some(e) => Some(*e),
                None => None,
            };
            let entry = match found {
                Some(e) if e.expires_at > now => CacheEntry {
                    tokens: if e.tokens >= t {
                        e.tokens
                    } else {
                        t
                    },
                    expires_at: e.expires_at,
                    last_hit_at: now,
                },
                _ => CacheEntry { tokens: t, expires_at: now + ttl, last_hit_at: now },
            };
            self.entries.insert(h, entry);
            i = i + 1;
        }
        assert(segment_hashes@.take(i as int) =~= segment_hashes@);
        assert(segment_tokens@.take(i as int) =~= segment_tokens@);
        assert(segment_ttls@.take(i as int) =~= segment_ttls@);
        self.dirty = true;
        trim(&mut self.entries);
    }

    /// Records some prefixes now, as [`CacheMeter::record_with_ttls_at`] does. A clock that is so
    /// late that an expiry could not be represented counts as the latest time at which it can.
    pub fn record_with_ttls(
        &mut self,
        segment_hashes: &[u64],
        segment_tokens: &[u32],
        segment_ttls: &[i64],
    )
        requires
            segment_hashes@.len() == segment_tokens@.len(),
            segment_hashes@.len() == segment_ttls@.len(),
        ensures
            exists|now: i64|
                now <= LATEST_RECORD_TIME && #[trigger] recorded_when(
                    old(self)@,
                    final(self)@,
                    segment_hashes@,
                    segment_tokens@,
                    segment_ttls@,
                    now,
                ),
    {
        let clock: i64 = now_secs();
        let now: i64 = if clock <= LATEST_RECORD_TIME {
            clock
        } else {
            LATEST_RECORD_TIME
        };
        self.record_with_ttls_at(segment_hashes, segment_tokens, segment_ttls, now);
        assert(recorded_when(
            old(self)@,
            self@,
            segment_hashes@,
            segment_tokens@,
            segment_ttls@,
            now,
        ));
    }

    /// Records some prefixes with the same time to live at the time `now`.
    pub fn record_at(
        &mut self,
        segment_hashes: &[u64],
        segment_tokens: &[u32],
        ttl_secs: i64,
        now: i64,
    )
        requires
            segment_hashes@.len() == segment_tokens@.len(),
            now <= LATEST_RECORD_TIME,
        ensures
            trimmed(
                recorded(
                    old(self)@.entries,
                    segment_hashes@,
                    segment_tokens@,
                    same_ttls(segment_hashes@.len(), ttl_secs),
                    now,
                ),
                final(self)@.entries,
            ),
            final(self)@.dirty,
    {
        let ttls = repeated(ttl_secs, segment_hashes.len());
        self.record_with_ttls_at(segment_hashes, segment_tokens, ttls.as_slice(), now);
    }

    /// Records some prefixes with the same time to live.
    pub fn record(&mut self, segment_hashes: &[u64], segment_tokens: &[u32], ttl_secs: i64)
        requires
            segment_hashes@.len() == segment_tokens@.len(),
        ensures
            exists|now: i64|
                now <= LATEST_RECORD_TIME && #[trigger] recorded_when(
                    old(self)@,
                    final(self)@,
                    segment_hashes@,
                    segment_tokens@,
                    same_ttls(segment_hashes@.len(), ttl_secs),
                    now,
                ),
    {
        let ttls = repeated(ttl_secs, segment_hashes.len());
        self.record_with_ttls(segment_hashes, segment_tokens, ttls.as_slice());
    }

    /// Removes the entries that have expired at `now`.
    pub fn evict_expired_at(&mut self, now: i64)
        ensures
            final(self)@.entries == live_entries(old(self)@.entries, now),
            final(self)@.dirty == (old(self)@.dirty || final(self)@.entries
                != old(self)@.entries),
    {
        let ghost before_entries = self.entries@;
        let before: usize = self.entries.len();
        keep_live(&mut self.entries, now);
        proof {
            lemma_live_entries_len(before_entries, now);
        }
        if self.entries.len() != before {
            self.dirty = true;
        }
    }

    /// Removes the entries that have expired.
    pub fn evict_expired(&mut self)
        ensures
            exists|now: i64|
                final(self)@.entries == #[trigger] live_entries(old(self)@.entries, now),
            final(self)@.dirty == (old(self)@.dirty || final(self)@.entries
                != old(self)@.entries),
    {
        let now: i64 = now_secs();
        self.evict_expired_at(now);
    }

    /// The entries, where anything has changed since the last snapshot.
    pub fn take_snapshot(&mut self) -> (r: Option<HashMap<u64, CacheEntry>>)
        ensures
            match r {
                Some(m) => old(self)@.dirty && m@ == old(self)@.entries,
                None => !old(self)@.dirty,
            },
            final(self)@ == (MeterView { entries: old(self)@.entries, dirty: false }),
    {
        if !self.dirty {
            return None;
        }
        self.dirty = false;
        Some(self.entries.clone())
    }
}

/// `n` times the number `x`.
fn repeated(x: i64, n: usize) -> (r: Vec<i64>)
    ensures
        r@ == same_ttls(n as nat, x),
{
    let mut r: Vec<i64> = Vec::new();
    let mut i: usize = 0;
    while i < n
        invariant
            i <= n,
            r@.len() == i,
            forall|k: int| 0 <= k < i ==> r@[k] == x,
        decreases n - i,
    {
        r.push(x);
        i = i + 1;
    }
    assert(r@ =~= same_ttls(n as nat, x));
    r
}

/// The live entries are all entries exactly when there are as many of them.
proof fn lemma_live_entries_len(m: Map<u64, CacheEntry>, now: i64)
    requires
        m.dom().finite(),
    ensures
        live_entries(m, now).dom().finite(),
        live_entries(m, now).len() <= m.len(),
        live_entries(m, now).len() == m.len() <==> live_entries(m, now) == m,
{
    let a = live_entries(m, now);
    assert(a.dom().subset_of(m.dom()));
    vstd::set_lib::lemma_len_subset(a.dom(), m.dom());
    if a.len() == m.len() {
        vstd::set_lib::lemma_subset_equality(a.dom(), m.dom());
        assert(a =~= m);
    }
}

} // verus!
