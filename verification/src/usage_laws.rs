//! What holds of every split of a total.

use vstd::prelude::*;

use crate::binary64;
use crate::usage;
use crate::usage::CacheUsage;

verus! {

/// A share lies between nothing and the whole amount.
pub proof fn law_share_is_within(amount: int, part: int, whole: int)
    requires
        amount >= 0,
    ensures
        0 <= usage::share(amount, part, whole) <= amount,
{
}

/// A share is less than one token off the exact proportion.
pub proof fn law_share_is_proportional(amount: int, part: int, whole: int)
    requires
        0 <= amount <= i32::MAX,
        0 <= part <= whole,
        0 < whole,
    ensures
        usage::share(amount, part, whole) * whole < amount * part + whole,
        amount * part < usage::share(amount, part, whole) * whole + whole,
{
    if part == 0 {
        assert(amount * 0 == 0);
        assert(0 * whole == 0);
    } else if part < whole {
        binary64::lemma_scaled_round_is_near(amount as nat, part as nat, whole as nat);
        let r = binary64::scaled_round(amount as nat, part as nat, whole as nat) as int;
        if r > amount {
            assert(amount * whole < r * whole) by (nonlinear_arith)
                requires
                    amount < r,
                    whole > 0,
            ;
            assert(amount * part <= amount * whole) by (nonlinear_arith)
                requires
                    part < whole,
                    amount >= 0,
            ;
        }
    }
}

/// A share is the integer nearest to the exact proportion, where the numbers are not so large that
/// the rounding of binary64 arithmetic could tip a proportion that lies next to a half.
pub proof fn law_share_is_nearest(amount: int, part: int, whole: int)
    requires
        0 <= amount <= i32::MAX,
        0 <= part <= whole,
        0 < whole,
        whole * (3 * amount + 1) <= binary64::HIDDEN_BIT,
    ensures
        2 * (usage::share(amount, part, whole) * whole) <= 2 * (amount * part) + whole,
        2 * (amount * part) <= 2 * (usage::share(amount, part, whole) * whole) + whole,
{
    if part == 0 {
        assert(amount * 0 == 0);
        assert(0 * whole == 0);
    } else if part < whole {
        binary64::lemma_scaled_round_is_nearest(amount as nat, part as nat, whole as nat);
        let r = binary64::scaled_round(amount as nat, part as nat, whole as nat) as int;
        if r > amount {
            assert(amount * whole < r * whole) by (nonlinear_arith)
                requires
                    amount < r,
                    whole > 0,
            ;
            assert(amount * part <= amount * whole) by (nonlinear_arith)
                requires
                    part < whole,
                    amount >= 0,
            ;
        }
    }
}

/// The share of a half is the half, with a half that is left over rounded up.
pub proof fn law_half_shares_are_rounded_up(amount: int, part: int)
    requires
        0 <= amount <= i32::MAX,
        0 < part,
    ensures
        usage::share(amount, part, 2 * part) == (amount + 1) / 2,
{
    binary64::lemma_scaled_to_the_half(amount as nat, part as nat);
}

/// Input, cache creation and cache read are not negative and sum to the total.
pub proof fn law_split_is_exclusive(u: CacheUsage, total_real: i32)
    ensures
        ({
            let (input, creation, read) = usage::split(u, total_real);
            &&& input >= 0 && creation >= 0 && read >= 0
            &&& input + creation + read == if total_real > 0 {
                total_real as int
            } else {
                0
            }
        }),
{
}

/// Where nothing is covered, or the size of the prompt is unknown, all of the total is input.
pub proof fn law_without_coverage_all_is_input(u: CacheUsage, total_real: i32)
    requires
        u.cache_covered_est <= 0 || u.prompt_total_est <= 0,
        total_real >= 0,
    ensures
        usage::split(u, total_real) == (total_real as int, 0int, 0int),
{
}

/// Where the cache covers the whole prompt, nothing is input.
pub proof fn law_full_coverage_leaves_no_input(u: CacheUsage, total_real: i32)
    requires
        0 < u.prompt_total_est <= u.cache_covered_est,
    ensures
        usage::split(u, total_real).0 == 0,
{
}

/// Where everything covered was read, nothing is created; where nothing was read, nothing counts
/// as read.
pub proof fn law_what_was_read_is_not_created(u: CacheUsage, total_real: i32)
    ensures
        u.cache_read >= u.cache_covered_est ==> usage::split(u, total_real).1 == 0,
        u.cache_read <= 0 ==> usage::split(u, total_real).2 == 0,
{
}

/// The five-minute and one-hour parts are not negative and sum to the cache creation.
pub proof fn law_ttl_parts_sum_to_creation(u: CacheUsage, total_real: i32)
    ensures
        ({
            let creation = usage::split(u, total_real).1;
            let (five_minutes, one_hour) = usage::ttl_split(u, creation);
            &&& five_minutes >= 0 && one_hour >= 0
            &&& five_minutes + one_hour == creation
        }),
{
}

/// A creation that is all for five minutes, or all for an hour, is reported as such.
pub proof fn law_single_ttl_takes_all(u: CacheUsage, total_real: i32)
    ensures
        u.cache_creation_1h <= 0 ==> usage::ttl_split(u, usage::split(u, total_real).1).1 == 0,
        u.cache_creation_5m <= 0 && u.cache_creation_1h >= u.cache_covered_est - u.cache_read
            && u.cache_read >= 0 ==> usage::ttl_split(u, usage::split(u, total_real).1).0 == 0,
{
}

} // verus!
