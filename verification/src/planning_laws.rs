//! What a plan says of a request, and how tokens are shared out.

use vstd::prelude::*;

use crate::meter;
use crate::meter::{CacheEntry, MeterView};
use crate::plan_laws;
use crate::request::RequestView;
use crate::segments;
use crate::segments::Segment;
use crate::text;
use crate::usage;
use crate::usage::{CacheUsage, PlanView};
use crate::usage_laws;

verus! {

// ---------------------------------------------------------------------------
// The least that is cached
// ---------------------------------------------------------------------------

/// Whether a text stands in another one.
pub open spec fn occurs(needle: Seq<char>, hay: Seq<char>) -> bool {
    exists|before: Seq<char>, after: Seq<char>| hay == #[trigger] (before + needle + after)
}

/// A prefix is cached from 4096 tokens on for a model with `opus` in its name, from 2048 on for any
/// other with `haiku` in its name, and from 1024 on for all the rest.
pub proof fn law_least_tokens_of_models(model: Seq<char>)
    ensures
        occurs("opus"@, model) ==> usage::minimum_tokens(model) == 4096,
        !occurs("opus"@, model) && occurs("haiku"@, model) ==> usage::minimum_tokens(model) == 2048,
        !occurs("opus"@, model) && !occurs("haiku"@, model) ==> usage::minimum_tokens(model)
            == 1024,
{
    lemma_occurs("opus"@, model);
    lemma_occurs("haiku"@, model);
}

proof fn lemma_occurs(needle: Seq<char>, hay: Seq<char>)
    ensures
        occurs(needle, hay) <==> text::contains_text(hay, needle),
{
    if occurs(needle, hay) {
        let (before, after) = choose|before: Seq<char>, after: Seq<char>|
            hay == #[trigger] (before + needle + after);
        let at = before.len() as int;
        assert(hay.subrange(at, at + needle.len()) =~= needle);
        assert(text::stands_at(hay, needle, at));
    }
    if text::contains_text(hay, needle) {
        let at = choose|at: int| text::stands_at(hay, needle, at);
        let before = hay.take(at);
        let after = hay.skip(at + needle.len());
        assert(hay =~= before + needle + after);
    }
}

/// Of a chain the breakpoints with enough tokens are cacheable, all of them, and in their order.
pub proof fn law_breakpoints_with_enough_tokens_are_cacheable(
    chain: Seq<Segment>,
    s: Segment,
    minimum: u32,
)
    ensures
        usage::cacheable(Seq::empty(), minimum).len() == 0,
        s.cumulative_tokens >= minimum ==> usage::cacheable(chain.push(s), minimum)
            == usage::cacheable(chain, minimum).push(s),
        s.cumulative_tokens < minimum ==> usage::cacheable(chain.push(s), minimum)
            == usage::cacheable(chain, minimum),
{
    assert(chain.push(s).drop_last() =~= chain);
}

// ---------------------------------------------------------------------------
// Plans
// ---------------------------------------------------------------------------

/// The last ten of a chain are looked up, or all where there are no more than ten.
pub proof fn law_last_ten_are_looked_up(chain: Seq<Segment>)
    ensures
        ({
            let looked_up = usage::window(chain);
            &&& looked_up.is_suffix_of(chain)
            &&& chain.len() >= 10 ==> looked_up.len() == 10
            &&& chain.len() < 10 ==> looked_up.len() == chain.len()
        }),
{
    let looked_up = usage::window(chain);
    assert(looked_up =~= chain.skip(chain.len() - looked_up.len()));
}

/// Whether a breakpoint of a chain is found in the store.
pub open spec fn is_found(
    entries: Map<u64, CacheEntry>,
    chain: Seq<Segment>,
    now: i64,
    i: int,
) -> bool {
    entries.contains_key(chain[i].hash) && now < entries[chain[i].hash].expires_at
}

/// A chain is read up to the last breakpoint that is found, and not at all where none is.
pub proof fn law_reading_goes_to_the_last_breakpoint_found(
    entries: Map<u64, CacheEntry>,
    chain: Seq<Segment>,
    now: i64,
    i: int,
)
    ensures
        0 <= i < chain.len() && is_found(entries, chain, now, i) && (forall|j: int|
            i < j < chain.len() ==> !#[trigger] is_found(entries, chain, now, j))
            ==> usage::deepest_hit(entries, chain, now) == chain[i].cumulative_tokens,
        (forall|j: int| 0 <= j < chain.len() ==> !#[trigger] is_found(entries, chain, now, j))
            ==> usage::deepest_hit(entries, chain, now) == 0,
    decreases chain.len(),
{
    if chain.len() > 0 {
        let front = chain.drop_last();
        let last = chain.len() - 1;
        law_reading_goes_to_the_last_breakpoint_found(entries, front, now, i);
        let none = forall|j: int|
            0 <= j < chain.len() ==> !#[trigger] is_found(entries, chain, now, j);
        let last_one = 0 <= i < chain.len() && is_found(entries, chain, now, i) && forall|j: int|
            i < j < chain.len() ==> !#[trigger] is_found(entries, chain, now, j);
        if none {
            assert(!is_found(entries, chain, now, last));
            assert forall|j: int| 0 <= j < front.len() implies !#[trigger] is_found(
                entries,
                front,
                now,
                j,
            ) by {
                assert(!is_found(entries, chain, now, j));
            }
        }
        if last_one && i < last {
            assert(!is_found(entries, chain, now, last));
            assert(is_found(entries, front, now, i));
            assert forall|j: int| i < j < front.len() implies !#[trigger] is_found(
                entries,
                front,
                now,
                j,
            ) by {
                assert(!is_found(entries, chain, now, j));
            }
        }
    }
}

/// A plan covers what the last cacheable breakpoint of a request covers, reads what the last of its
/// ten last breakpoints in the store covers, and creates what lies between: for an hour if the last
/// breakpoint is to last an hour, for five minutes if not. It counts the whole prompt, and is to
/// record the whole chain. Without a cacheable breakpoint it covers, reads, creates and records
/// nothing.
pub proof fn law_plans_cover_the_chain(
    entries: Map<u64, CacheEntry>,
    req: RequestView,
    credential_id: u64,
    counts: Seq<u32>,
    now: i64,
)
    ensures
        ({
            let plan = usage::plan_for(entries, req, credential_id, counts, now);
            let whole = segments::reading(req, credential_id, counts);
            let chain = usage::cacheable(
                whole.segments,
                usage::minimum_tokens(usage::lowercase(req.model)),
            );
            let u = plan.usage;
            let read = usage::deepest_hit(entries, usage::window(chain), now);
            let created = (chain.last().cumulative_tokens - read) as u32;
            &&& u.prompt_total_est == whole.prompt_tokens as i32
            &&& chain.len() == 0 ==> {
                &&& u.cache_covered_est == 0
                &&& u.cache_read == 0
                &&& u.cache_creation_5m == 0
                &&& u.cache_creation_1h == 0
                &&& plan.commit is None
            }
            &&& chain.len() > 0 ==> {
                &&& u.cache_covered_est == chain.last().cumulative_tokens as i32
                &&& u.cache_read == read as i32
                &&& read <= chain.last().cumulative_tokens
                &&& chain.last().ttl_secs >= 3600 ==> u.cache_creation_5m == 0
                    && u.cache_creation_1h == created as i32
                &&& chain.last().ttl_secs < 3600 ==> u.cache_creation_1h == 0
                    && u.cache_creation_5m == created as i32
                &&& plan.commit == Some(chain)
            }
        }),
{
    let chain = usage::chain_of(req, credential_id, counts);
    let bound = segments::reading(req, credential_id, counts).prompt_tokens;
    plan_laws::law_cacheable_prefixes_are_large_enough(req, credential_id, counts);
    plan_laws::lemma_window_ascends(chain, bound);
    if chain.len() > 0 {
        plan_laws::lemma_account(req, credential_id, counts);
        plan_laws::lemma_deepest_hit(entries, usage::window(chain), bound, now);
    }
}

/// Planning notes its time on those of the last ten breakpoints that it finds, and changes no other
/// entry.
pub proof fn law_planning_notes_the_time_of_use(
    entries: Map<u64, CacheEntry>,
    chain: Seq<Segment>,
    now: i64,
    k: u64,
)
    ensures
        ({
            let after = usage::planned_entries(entries, chain, now);
            let used = entries.contains_key(k) && now < entries[k].expires_at && exists|i: int|
                chain.len() - 10 <= i < chain.len() && i >= 0 && #[trigger] chain[i].hash == k;
            &&& after.contains_key(k) <==> entries.contains_key(k)
            &&& used ==> after[k] == (CacheEntry { last_hit_at: now, ..entries[k] })
            &&& entries.contains_key(k) && !used ==> after[k] == entries[k]
        }),
{
    let looked_up = usage::window(chain);
    let hashes = usage::hashes_of(looked_up);
    let d = chain.len() - looked_up.len();
    if hashes.contains(k) {
        let i = choose|i: int| 0 <= i < hashes.len() && hashes[i] == k;
        assert(chain[i + d].hash == k);
    }
    if exists|i: int|
        chain.len() - 10 <= i < chain.len() && i >= 0 && #[trigger] chain[i].hash == k {
        let i = choose|i: int|
            chain.len() - 10 <= i < chain.len() && i >= 0 && #[trigger] chain[i].hash == k;
        assert(hashes[i - d] == k);
    }
}

/// A plan that succeeds records each breakpoint of its chain with its tokens and its time to live,
/// in order; one without a chain changes nothing.
pub proof fn law_success_records_the_chain(
    plan: PlanView,
    before: MeterView,
    after: MeterView,
    hashes: Seq<u64>,
    tokens: Seq<u32>,
    ttls: Seq<i64>,
    now: i64,
)
    requires
        usage::committed_when(plan, before, after, now),
        plan.commit matches Some(chain) ==> {
            &&& hashes.len() == chain.len()
            &&& tokens.len() == chain.len()
            &&& ttls.len() == chain.len()
            &&& forall|i: int|
                0 <= i < chain.len() ==> (#[trigger] chain[i]).hash == hashes[i]
                    && chain[i].cumulative_tokens == tokens[i] && chain[i].ttl_secs == ttls[i]
        },
    ensures
        plan.commit is None ==> after == before,
        plan.commit is Some ==> meter::recorded_when(before, after, hashes, tokens, ttls, now),
{
    if let Some(chain) = plan.commit {
        assert(hashes =~= usage::hashes_of(chain)) by {
            assert forall|i: int| 0 <= i < chain.len() implies hashes[i] == usage::hashes_of(
                chain,
            )[i] by {
                assert(chain[i].hash == hashes[i]);
            }
        }
        assert(tokens =~= usage::tokens_of(chain)) by {
            assert forall|i: int| 0 <= i < chain.len() implies tokens[i] == usage::tokens_of(
                chain,
            )[i] by {
                assert(chain[i].hash == hashes[i]);
            }
        }
        assert(ttls =~= usage::ttls_of(chain)) by {
            assert forall|i: int| 0 <= i < chain.len() implies ttls[i] == usage::ttls_of(
                chain,
            )[i] by {
                assert(chain[i].hash == hashes[i]);
            }
        }
    }
}

// ---------------------------------------------------------------------------
// Sharing out
// ---------------------------------------------------------------------------

/// Of the tokens of a request the cached ones are in proportion to what the cache covers of the
/// prompt, and of these the ones that were read are in proportion to what was read of that: each is
/// less than one off.
pub proof fn law_tokens_are_shared_out_in_proportion(u: CacheUsage, total_real: i32)
    requires
        total_real >= 0,
        0 <= u.cache_read <= u.cache_covered_est <= u.prompt_total_est,
        0 < u.cache_covered_est,
    ensures
        ({
            let (input, creation, read) = usage::split(u, total_real);
            let cached = creation + read;
            let covered = u.cache_covered_est as int;
            let prompt = u.prompt_total_est as int;
            &&& input == total_real - cached
            &&& cached * prompt < total_real * covered + prompt
            &&& total_real * covered < cached * prompt + prompt
            &&& read * covered < cached * u.cache_read + covered
            &&& cached * u.cache_read < read * covered + covered
        }),
{
    let covered = u.cache_covered_est as int;
    let prompt = u.prompt_total_est as int;
    let cached = usage::share(total_real as int, covered, prompt);
    usage_laws::law_share_is_within(total_real as int, covered, prompt);
    usage_laws::law_share_is_proportional(total_real as int, covered, prompt);
    usage_laws::law_share_is_proportional(cached, u.cache_read as int, covered);
}

/// The number of 32 bits that is nearest.
pub open spec fn within_32_bits(x: int) -> int {
    if x > 0x7fff_ffff {
        0x7fff_ffff
    } else if x < -0x8000_0000 {
        -0x8000_0000
    } else {
        x
    }
}

/// The tokens that were created are for an hour in proportion to what is to be created for an hour
/// of what is to be created in all, less than one off: all of them where it is to be all, none
/// where it is to be nothing. The others are for five minutes. Where nothing was created, or
/// nothing was to be created, both are nothing.
pub proof fn law_creation_is_shared_out_in_proportion(u: CacheUsage, creation: int)
    requires
        creation <= i32::MAX,
    ensures
        ({
            let (five_minutes, one_hour) = usage::ttl_split(u, creation);
            let asked = u.cache_creation_1h as int;
            let by_time = within_32_bits(u.cache_creation_5m + u.cache_creation_1h);
            let left = within_32_bits(u.cache_covered_est - u.cache_read);
            let whole = if by_time > left {
                by_time
            } else {
                left
            };
            &&& creation <= 0 || left <= 0 ==> five_minutes == 0 && one_hour == 0
            &&& creation > 0 && left > 0 ==> {
                &&& five_minutes + one_hour == creation
                &&& asked <= 0 ==> one_hour == 0
                &&& asked >= whole ==> one_hour == creation
                &&& 0 < asked < whole ==> one_hour * whole < creation * asked + whole && creation
                    * asked < one_hour * whole + whole
            }
        }),
{
    let asked = u.cache_creation_1h as int;
    let by_time = within_32_bits(u.cache_creation_5m + u.cache_creation_1h);
    let left = within_32_bits(u.cache_covered_est - u.cache_read);
    let whole = if by_time > left {
        by_time
    } else {
        left
    };
    if creation > 0 && left > 0 && 0 < asked < whole {
        usage_laws::law_share_is_proportional(creation, asked, whole);
    }
}

} // verus!
