//! The cache usage of a request, and how a real token total is split by it.

use vstd::prelude::*;

use crate::binary64;
use crate::meter;
use crate::meter::{CacheEntry, CacheMeter, MeterView, SegmentResult, LATEST_RECORD_TIME};
use crate::prompt;
use crate::prompt::MAX_TTL_SECS;
use crate::request::{MessagesRequest, RequestView};
use crate::segments;
use crate::segments::Segment;
use crate::text;

verus! {

broadcast use vstd::string::group_string_axioms;

/// How many of the deepest prefixes are looked up.
pub const PREFIX_LOOKBACK_LIMIT: usize = 10;

/// What part of a prompt the cache covers, in estimated tokens.
#[derive(Debug, Clone, Copy)]
pub struct CacheUsage {
    /// The tokens read from the cache.
    pub cache_read: i32,
    /// The tokens of the covered prefix, read or newly cached.
    pub cache_covered_est: i32,
    /// The tokens of the whole prompt.
    pub prompt_total_est: i32,
    /// The tokens newly cached for five minutes.
    pub cache_creation_5m: i32,
    /// The tokens newly cached for an hour.
    pub cache_creation_1h: i32,
}

impl Default for CacheUsage {
    fn default() -> (r: CacheUsage)
        ensures
            r == (CacheUsage {
                cache_read: 0,
                cache_covered_est: 0,
                prompt_total_est: 0,
                cache_creation_5m: 0,
                cache_creation_1h: 0,
            }),
    {
        CacheUsage {
            cache_read: 0,
            cache_covered_est: 0,
            prompt_total_est: 0,
            cache_creation_5m: 0,
            cache_creation_1h: 0,
        }
    }
}

// ---------------------------------------------------------------------------
// Splitting a total
// ---------------------------------------------------------------------------

/// The share of `amount` that `part` has in `whole`: none or all of it where `part` lies outside,
/// and else the proportion in binary64 arithmetic, rounded.
pub open spec fn share(amount: int, part: int, whole: int) -> int {
    if part <= 0 {
        0
    } else if part >= whole {
        amount
    } else {
        let r = binary64::scaled_round(amount as nat, part as nat, whole as nat) as int;
        if r > amount {
            amount
        } else {
            r
        }
    }
}

/// The value nearest to `x` that 32 bits can hold.
pub open spec fn saturated(x: int) -> int {
    if x > i32::MAX {
        i32::MAX as int
    } else if x < i32::MIN {
        i32::MIN as int
    } else {
        x
    }
}

/// Input, cache creation and cache read.
pub open spec fn split(u: CacheUsage, total_real: i32) -> (int, int, int) {
    let total: int = if total_real > 0 {
        total_real as int
    } else {
        0
    };
    if u.cache_covered_est <= 0 || u.prompt_total_est <= 0 {
        (total, 0, 0)
    } else {
        let cached = share(total, u.cache_covered_est as int, u.prompt_total_est as int);
        let read = share(cached, u.cache_read as int, u.cache_covered_est as int);
        (total - cached, cached - read, read)
    }
}

/// The five-minute and one-hour parts of the cache creation.
pub open spec fn ttl_split(u: CacheUsage, creation: int) -> (int, int) {
    let creation_est = saturated(u.cache_covered_est - u.cache_read);
    if creation <= 0 || creation_est <= 0 {
        (0, 0)
    } else {
        let by_ttl = saturated(u.cache_creation_5m + u.cache_creation_1h);
        let whole = if by_ttl > creation_est {
            by_ttl
        } else {
            creation_est
        };
        let one_hour = share(creation, u.cache_creation_1h as int, whole);
        (creation - one_hour, one_hour)
    }
}

fn share_of(amount: i32, part: i32, whole: i32) -> (r: i32)
    requires
        amount >= 0,
        whole > 0,
    ensures
        r == share(amount as int, part as int, whole as int),
        0 <= r <= amount,
{
    if part <= 0 {
        0
    } else if part >= whole {
        amount
    } else {
        let r: u128 = binary64::scale_round(amount as u64, part as u64, whole as u64);
        if r > amount as u128 {
            amount
        } else {
            r as i32
        }
    }
}

fn saturate(x: i64) -> (r: i32)
    ensures
        r == saturated(x as int),
{
    if x > i32::MAX as i64 {
        i32::MAX
    } else if x < i32::MIN as i64 {
        i32::MIN
    } else {
        x as i32
    }
}

impl CacheUsage {
    /// Splits a real total into input, cache creation and cache read, which sum to the total.
    pub fn split_against_total(&self, total_real: i32) -> (r: (i32, i32, i32))
        ensures
            (r.0 as int, r.1 as int, r.2 as int) == split(*self, total_real),
            r.0 >= 0 && r.1 >= 0 && r.2 >= 0,
            r.0 + r.1 + r.2 == if total_real > 0 {
                total_real as int
            } else {
                0
            },
    {
        let total: i32 = if total_real > 0 {
            total_real
        } else {
            0
        };
        if self.cache_covered_est <= 0 || self.prompt_total_est <= 0 {
            return (total, 0, 0);
        }
        let cached: i32 = share_of(total, self.cache_covered_est, self.prompt_total_est);
        let read: i32 = share_of(cached, self.cache_read, self.cache_covered_est);
        (total - cached, cached - read, read)
    }

    /// Splits a real total as [`CacheUsage::split_against_total`] does, and the cache creation into
    /// its five-minute and one-hour parts.
    pub fn split_with_ttl_breakdown(&self, total_real: i32) -> (r: (i32, i32, i32, i32, i32))
        ensures
            (r.0 as int, r.1 as int, r.2 as int) == split(*self, total_real),
            (r.3 as int, r.4 as int) == ttl_split(*self, split(*self, total_real).1),
            r.3 >= 0 && r.4 >= 0,
            r.3 + r.4 == r.1,
    {
        let (input, creation, read) = self.split_against_total(total_real);
        let creation_est: i32 = saturate(self.cache_covered_est as i64 - self.cache_read as i64);
        if creation <= 0 || creation_est <= 0 {
            return (input, creation, read, 0, 0);
        }
        let by_ttl: i32 = saturate(self.cache_creation_5m as i64 + self.cache_creation_1h as i64);
        let whole: i32 = if by_ttl > creation_est {
            by_ttl
        } else {
            creation_est
        };
        let one_hour: i32 = share_of(creation, self.cache_creation_1h, whole);
        (input, creation, read, creation - one_hour, one_hour)
    }
}

// ---------------------------------------------------------------------------
// Which prefixes are cacheable
// ---------------------------------------------------------------------------

/// The lower-case form of a text.
pub uninterp spec fn lowercase(s: Seq<char>) -> Seq<char>;

/// The lower-case form of `s`, from `str::to_lowercase`.
///
/// Claimed of that function: what it returns depends on the text alone.
#[verifier::external_body]
fn to_lowercase(s: &str) -> (r: String)
    ensures
        r@ == lowercase(s@),
{
    s.to_lowercase()
}

/// The least tokens that a prefix has to have to be cached, by the model's name in lower case.
pub open spec fn minimum_tokens(model_lower: Seq<char>) -> u32 {
    if text::contains_text(model_lower, "opus"@) {
        4096
    } else if text::contains_text(model_lower, "haiku"@) {
        2048
    } else {
        1024
    }
}

/// The least tokens that a prefix has to have to be cached, by the model's name in lower case.
pub fn minimum_tokens_for_lowercase(model_lower: &str) -> (r: u32)
    ensures
        r == minimum_tokens(model_lower@),
{
    if text::contains(model_lower, "opus") {
        4096
    } else if text::contains(model_lower, "haiku") {
        2048
    } else {
        1024
    }
}

/// The least tokens that a prefix has to have to be cached for a model.
pub fn minimum_cacheable_tokens_for_model(model: &str) -> (r: u32)
    ensures
        r == minimum_tokens(lowercase(model@)),
{
    let model_lower = to_lowercase(model);
    minimum_tokens_for_lowercase(model_lower.as_str())
}

/// The prefixes of at least `minimum` tokens.
pub open spec fn cacheable(chain: Seq<Segment>, minimum: u32) -> Seq<Segment>
    decreases chain.len(),
{
    if chain.len() == 0 {
        Seq::empty()
    } else {
        let before = cacheable(chain.drop_last(), minimum);
        if chain.last().cumulative_tokens >= minimum {
            before.push(chain.last())
        } else {
            before
        }
    }
}

fn cacheable_of(chain: &Vec<Segment>, minimum: u32) -> (r: Vec<Segment>)
    ensures
        r@ == cacheable(chain@, minimum),
{
    let mut r: Vec<Segment> = Vec::new();
    let mut i: usize = 0;
    while i < chain.len()
        invariant
            i <= chain@.len(),
            r@ == cacheable(chain@.take(i as int), minimum),
        decreases chain@.len() - i,
    {
        assert(chain@.take(i + 1).drop_last() =~= chain@.take(i as int));
        if chain[i].cumulative_tokens >= minimum {
            r.push(chain[i]);
        }
        i = i + 1;
    }
    assert(chain@.take(i as int) =~= chain@);
    r
}

// ---------------------------------------------------------------------------
// The plan
// ---------------------------------------------------------------------------

pub open spec fn hashes_of(chain: Seq<Segment>) -> Seq<u64> {
    chain.map_values(|s: Segment| s.hash)
}

pub open spec fn tokens_of(chain: Seq<Segment>) -> Seq<u32> {
    chain.map_values(|s: Segment| s.cumulative_tokens)
}

pub open spec fn ttls_of(chain: Seq<Segment>) -> Seq<i64> {
    chain.map_values(|s: Segment| s.ttl_secs)
}

/// The cache usage of a request, and the prefixes to record once the request has succeeded.
///
/// Making a plan records nothing, so a request that fails leaves no trace of its prefixes.
#[derive(Clone)]
pub struct CacheUsagePlan {
    pub cache_read: i32,
    pub cache_covered_est: i32,
    pub prompt_total_est: i32,
    pub cache_creation_5m: i32,
    pub cache_creation_1h: i32,
    /// The prefixes to record.
    pub commit: Option<Vec<Segment>>,
}

/// What a [`CacheUsagePlan`] holds.
#[verifier::ext_equal]
pub struct PlanView {
    pub usage: CacheUsage,
    /// The prefixes to record.
    pub commit: Option<Seq<Segment>>,
}

impl View for CacheUsagePlan {
    type V = PlanView;

    open spec fn view(&self) -> PlanView {
        PlanView {
            usage: CacheUsage {
                cache_read: self.cache_read,
                cache_covered_est: self.cache_covered_est,
                prompt_total_est: self.prompt_total_est,
                cache_creation_5m: self.cache_creation_5m,
                cache_creation_1h: self.cache_creation_1h,
            },
            commit: match self.commit {
                Some(chain) => Some(chain@),
                None => None,
            },
        }
    }
}

/// The deepest of some prefixes that is cached, in tokens.
pub open spec fn deepest_hit(
    entries: Map<u64, CacheEntry>,
    chain: Seq<Segment>,
    now: i64,
) -> u32
    decreases chain.len(),
{
    if chain.len() == 0 {
        0
    } else if meter::live(entries, chain.last().hash, now) {
        chain.last().cumulative_tokens
    } else {
        deepest_hit(entries, chain.drop_last(), now)
    }
}

/// The prefixes that are looked up: the deepest ones.
pub open spec fn window(chain: Seq<Segment>) -> Seq<Segment> {
    if chain.len() > PREFIX_LOOKBACK_LIMIT {
        chain.skip(chain.len() - PREFIX_LOOKBACK_LIMIT)
    } else {
        chain
    }
}

/// The usage that follows from the cacheable prefixes of a prompt and the tokens read.
pub open spec fn usage_of(chain: Seq<Segment>, prompt_tokens: u32, read: u32) -> CacheUsage {
    if chain.len() == 0 {
        CacheUsage {
            cache_read: 0,
            cache_covered_est: 0,
            prompt_total_est: prompt_tokens as i32,
            cache_creation_5m: 0,
            cache_creation_1h: 0,
        }
    } else {
        let covered = chain.last().cumulative_tokens;
        let creation: u32 = if covered >= read {
            (covered - read) as u32
        } else {
            0
        };
        let for_an_hour = chain.last().ttl_secs >= MAX_TTL_SECS;
        CacheUsage {
            cache_read: read as i32,
            cache_covered_est: covered as i32,
            prompt_total_est: prompt_tokens as i32,
            cache_creation_5m: if for_an_hour {
                0
            } else {
                creation as i32
            },
            cache_creation_1h: if for_an_hour {
                creation as i32
            } else {
                0
            },
        }
    }
}

/// The cacheable prefixes of a request's prompt.
pub open spec fn chain_of(req: RequestView, credential_id: u64, counts: Seq<u32>) -> Seq<Segment> {
    cacheable(
        segments::reading(req, credential_id, counts).segments,
        minimum_tokens(lowercase(req.model)),
    )
}

/// The plan for a request, at the time `now`.
pub open spec fn plan_for(
    entries: Map<u64, CacheEntry>,
    req: RequestView,
    credential_id: u64,
    counts: Seq<u32>,
    now: i64,
) -> PlanView {
    let chain = chain_of(req, credential_id, counts);
    PlanView {
        usage: usage_of(
            chain,
            segments::reading(req, credential_id, counts).prompt_tokens,
            deepest_hit(entries, window(chain), now),
        ),
        commit: if chain.len() > 0 && credential_id != 0 {
            Some(chain)
        } else {
            None
        },
    }
}

/// The store after the plan for a request was made at the time `now`: the prefixes found have been
/// used.
pub open spec fn planned_entries(
    entries: Map<u64, CacheEntry>,
    chain: Seq<Segment>,
    now: i64,
) -> Map<u64, CacheEntry> {
    meter::used_entries(entries, hashes_of(window(chain)), now)
}

/// Whether `after` is the store `before` with the prefixes of a plan recorded at the time `now`.
pub open spec fn committed_when(
    plan: PlanView,
    before: MeterView,
    after: MeterView,
    now: i64,
) -> bool {
    match plan.commit {
        Some(chain) => meter::recorded_when(
            before,
            after,
            hashes_of(chain),
            tokens_of(chain),
            ttls_of(chain),
            now,
        ),
        None => after == before,
    }
}

fn hashes_from(chain: &Vec<Segment>, start: usize) -> (r: Vec<u64>)
    requires
        start <= chain@.len(),
    ensures
        r@ == hashes_of(chain@.skip(start as int)),
{
    let mut r: Vec<u64> = Vec::new();
    let mut i: usize = start;
    while i < chain.len()
        invariant
            start <= i <= chain@.len(),
            r@.len() == i - start,
            forall|k: int| 0 <= k < r@.len() ==> r@[k] == chain@[start + k].hash,
        decreases chain@.len() - i,
    {
        r.push(chain[i].hash);
        i = i + 1;
    }
    assert(r@ =~= hashes_of(chain@.skip(start as int)));
    r
}

fn tokens_from(chain: &Vec<Segment>, start: usize) -> (r: Vec<u32>)
    requires
        start <= chain@.len(),
    ensures
        r@ == tokens_of(chain@.skip(start as int)),
{
    let mut r: Vec<u32> = Vec::new();
    let mut i: usize = start;
    while i < chain.len()
        invariant
            start <= i <= chain@.len(),
            r@.len() == i - start,
            forall|k: int| 0 <= k < r@.len() ==> r@[k] == chain@[start + k].cumulative_tokens,
        decreases chain@.len() - i,
    {
        r.push(chain[i].cumulative_tokens);
        i = i + 1;
    }
    assert(r@ =~= tokens_of(chain@.skip(start as int)));
    r
}

fn ttls_from(chain: &Vec<Segment>) -> (r: Vec<i64>)
    ensures
        r@ == ttls_of(chain@),
{
    let mut r: Vec<i64> = Vec::new();
    let mut i: usize = 0;
    while i < chain.len()
        invariant
            i <= chain@.len(),
            r@.len() == i,
            forall|k: int| 0 <= k < i ==> r@[k] == chain@[k].ttl_secs,
        decreases chain@.len() - i,
    {
        r.push(chain[i].ttl_secs);
        i = i + 1;
    }
    assert(r@ =~= ttls_of(chain@));
    r
}

/// The tokens of the deepest prefix that was hit.
fn deepest(
    results: &Vec<SegmentResult>,
    Ghost(entries): Ghost<Map<u64, CacheEntry>>,
    Ghost(chain): Ghost<Seq<Segment>>,
    Ghost(now): Ghost<i64>,
) -> (r: u32)
    requires
        results@ == meter::lookup_results(entries, hashes_of(chain), tokens_of(chain), now),
    ensures
        r == deepest_hit(entries, chain, now),
{
    let mut i: usize = results.len();
    assert(chain.take(i as int) =~= chain);
    while i > 0
        invariant
            i <= results@.len(),
            results@ == meter::lookup_results(entries, hashes_of(chain), tokens_of(chain), now),
            deepest_hit(entries, chain, now) == deepest_hit(entries, chain.take(i as int), now),
        decreases i,
    {
        let ghost head = chain.take(i as int);
        assert(head.last() == chain[i - 1]);
        assert(head.drop_last() =~= chain.take(i - 1));
        i = i - 1;
        if results[i].hit {
            return results[i].tokens;
        }
    }
    0
}

/// The plan for a request at the time `now`: what of its prompt is cached, and what to record.
///
/// `counts` holds the tokens of each of the request's [`segments::token_sources`];
/// `credential_id` is the account that is used, and prefixes of different accounts never meet.
pub fn compute_cache_usage_at(
    cache: &mut CacheMeter,
    req: &MessagesRequest,
    credential_id: u64,
    counts: &Vec<u32>,
    now: i64,
) -> (r: CacheUsagePlan)
    requires
        counts@.len() == segments::sources(prompt::request_steps(req@)).len(),
    ensures
        r@ == plan_for(old(cache)@.entries, req@, credential_id, counts@, now),
        final(cache)@.entries == planned_entries(
            old(cache)@.entries,
            chain_of(req@, credential_id, counts@),
            now,
        ),
        final(cache)@.dirty == old(cache)@.dirty,
{
    let (found, prompt_tokens, caching) = segments::extract_segments(req, credential_id, counts);
    let minimum: u32 = minimum_cacheable_tokens_for_model(req.model.as_str());
    let chain = cacheable_of(&found, minimum);
    let ghost entries = cache@.entries;
    if chain.len() == 0 {
        assert(entries =~= planned_entries(entries, chain@, now));
        return CacheUsagePlan {
            cache_read: 0,
            cache_covered_est: 0,
            prompt_total_est: prompt_tokens as i32,
            cache_creation_5m: 0,
            cache_creation_1h: 0,
            commit: None,
        };
    }
    let n: usize = chain.len();
    let start: usize = if n > PREFIX_LOOKBACK_LIMIT {
        n - PREFIX_LOOKBACK_LIMIT
    } else {
        0
    };
    assert(chain@.skip(start as int) =~= window(chain@));
    let hashes = hashes_from(&chain, start);
    let tokens = tokens_from(&chain, start);
    let results = cache.lookup_at(hashes.as_slice(), tokens.as_slice(), now);
    let read: u32 = deepest(&results, Ghost(entries), Ghost(window(chain@)), Ghost(now));
    let covered: u32 = chain[n - 1].cumulative_tokens;
    let creation: u32 = covered.saturating_sub(read);
    let for_an_hour: bool = chain[n - 1].ttl_secs >= MAX_TTL_SECS;
    CacheUsagePlan {
        cache_read: read as i32,
        cache_covered_est: covered as i32,
        prompt_total_est: prompt_tokens as i32,
        cache_creation_5m: if for_an_hour {
            0
        } else {
            creation as i32
        },
        cache_creation_1h: if for_an_hour {
            creation as i32
        } else {
            0
        },
        commit: if caching {
            Some(chain)
        } else {
            None
        },
    }
}

/// The plan for a request, as [`compute_cache_usage_at`] makes it now.
pub fn compute_cache_usage(
    cache: &mut CacheMeter,
    req: &MessagesRequest,
    credential_id: u64,
    counts: &Vec<u32>,
) -> (r: CacheUsagePlan)
    requires
        counts@.len() == segments::sources(prompt::request_steps(req@)).len(),
    ensures
        exists|now: i64|
            r@ == #[trigger] plan_for(old(cache)@.entries, req@, credential_id, counts@, now)
                && final(cache)@.entries == planned_entries(
                old(cache)@.entries,
                chain_of(req@, credential_id, counts@),
                now,
            ),
        final(cache)@.dirty == old(cache)@.dirty,
{
    let now: i64 = meter::now_secs();
    compute_cache_usage_at(cache, req, credential_id, counts, now)
}

impl Default for CacheUsagePlan {
    fn default() -> (r: CacheUsagePlan)
        ensures
            r@.usage == (CacheUsage {
                cache_read: 0,
                cache_covered_est: 0,
                prompt_total_est: 0,
                cache_creation_5m: 0,
                cache_creation_1h: 0,
            }),
            r@.commit is None,
    {
        CacheUsagePlan {
            cache_read: 0,
            cache_covered_est: 0,
            prompt_total_est: 0,
            cache_creation_5m: 0,
            cache_creation_1h: 0,
            commit: None,
        }
    }
}

impl CacheUsagePlan {
    /// The cache usage.
    pub fn usage(&self) -> (r: CacheUsage)
        ensures
            r == self@.usage,
    {
        CacheUsage {
            cache_read: self.cache_read,
            cache_covered_est: self.cache_covered_est,
            prompt_total_est: self.prompt_total_est,
            cache_creation_5m: self.cache_creation_5m,
            cache_creation_1h: self.cache_creation_1h,
        }
    }

    /// Splits a real total into input, cache creation and cache read.
    pub fn split_against_total(&self, total_real: i32) -> (r: (i32, i32, i32))
        ensures
            (r.0 as int, r.1 as int, r.2 as int) == split(self@.usage, total_real),
    {
        self.usage().split_against_total(total_real)
    }

    /// Splits a real total into input, cache creation, cache read, and the five-minute and one-hour
    /// parts of the cache creation.
    pub fn split_with_ttl_breakdown(&self, total_real: i32) -> (r: (i32, i32, i32, i32, i32))
        ensures
            (r.0 as int, r.1 as int, r.2 as int) == split(self@.usage, total_real),
            (r.3 as int, r.4 as int) == ttl_split(self@.usage, split(self@.usage, total_real).1),
    {
        self.usage().split_with_ttl_breakdown(total_real)
    }

    /// Records the prefixes of the request at the time `now`, after it has succeeded.
    pub fn commit_success_at(&self, cache: &mut CacheMeter, now: i64)
        requires
            now <= LATEST_RECORD_TIME,
        ensures
            committed_when(self@, old(cache)@, final(cache)@, now),
    {
        match &self.commit {
            Some(chain) => {
                assert(chain@.skip(0) =~= chain@);
                let hashes = hashes_from(chain, 0);
                let tokens = tokens_from(chain, 0);
                let ttls = ttls_from(chain);
                cache.record_with_ttls_at(
                    hashes.as_slice(),
                    tokens.as_slice(),
                    ttls.as_slice(),
                    now,
                );
            },
            None => {},
        }
    }

    /// Records the prefixes of the request now, after it has succeeded.
    pub fn commit_success(&self, cache: &mut CacheMeter)
        ensures
            exists|now: i64|
                now <= LATEST_RECORD_TIME && #[trigger] committed_when(
                    self@,
                    old(cache)@,
                    final(cache)@,
                    now,
                ),
    {
        match &self.commit {
            Some(chain) => {
                assert(chain@.skip(0) =~= chain@);
                let hashes = hashes_from(chain, 0);
                let tokens = tokens_from(chain, 0);
                let ttls = ttls_from(chain);
                cache.record_with_ttls(hashes.as_slice(), tokens.as_slice(), ttls.as_slice());
                let ghost now = choose|now: i64|
                    now <= LATEST_RECORD_TIME && #[trigger] meter::recorded_when(
                        old(cache)@,
                        cache@,
                        hashes@,
                        tokens@,
                        ttls@,
                        now,
                    );
                assert(committed_when(self@, old(cache)@, cache@, now));
            },
            None => {
                assert(committed_when(self@, old(cache)@, cache@, 0));
            },
        }
    }
}

} // verus!
