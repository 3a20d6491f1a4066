//! Proportions as IEEE 754 binary64 arithmetic gives them, computed on integers.
//!
//! `a * (n / d)` is evaluated with a quotient that is rounded to 53 significant bits and a product
//! that is rounded to 53 significant bits, each to the nearest number and in a tie to the one with
//! an even last bit. For the sizes that occur here no exponent is out of range.

use vstd::arithmetic::power2::*;
use vstd::prelude::*;

verus! {

/// Two to the power of 52: the least integer with 53 significant bits.
pub const HIDDEN_BIT: u128 = 0x10_0000_0000_0000;

/// The integer nearest to `n / d`; in a tie, the even one.
pub open spec fn nearest_even(n: nat, d: nat) -> nat {
    let q = n / d;
    let r = n % d;
    if 2 * r < d || (2 * r == d && q % 2 == 0) {
        q
    } else {
        q + 1
    }
}

/// By how many bits `n` is longer than 53 bits.
pub open spec fn excess_bits(n: nat) -> nat
    decreases n,
{
    if n < 2 * HIDDEN_BIT {
        0
    } else {
        1 + excess_bits(n / 2)
    }
}

/// The binary64 number nearest to the integer `n`.
pub open spec fn nearest_double(n: nat) -> nat {
    let unit = pow2(excess_bits(n));
    nearest_even(n, unit) * unit
}

/// The power of two by which `n / d` is multiplied to have 53 bits before the point, where `n` is
/// positive and at most `d`.
pub open spec fn quotient_bits(n: nat, d: nat) -> nat
    decreases
            if n >= HIDDEN_BIT * d {
                0
            } else {
                HIDDEN_BIT * d - n
            },
{
    if n == 0 || n >= HIDDEN_BIT * d {
        0
    } else {
        1 + quotient_bits(2 * n, d)
    }
}

/// The significand of the binary64 number nearest to `n / d`; its unit is one over two to the power
/// of [`quotient_bits`].
pub open spec fn quotient_significand(n: nat, d: nat) -> nat {
    nearest_even(n * pow2(quotient_bits(n, d)), d)
}

/// `a * (n / d)` in binary64, in units of one over two to the power of [`quotient_bits`].
pub open spec fn scaled(a: nat, n: nat, d: nat) -> nat {
    nearest_double(a * quotient_significand(n, d))
}

/// `a * (n / d)` in binary64, rounded to the nearest integer; halves are rounded up.
pub open spec fn scaled_round(a: nat, n: nat, d: nat) -> nat {
    let unit = pow2(quotient_bits(n, d));
    (2 * scaled(a, n, d) + unit) / (2 * unit)
}

/// `a * (n / d)` in binary64, with the part behind the point cut off.
pub open spec fn scaled_trunc(a: nat, n: nat, d: nat) -> nat {
    scaled(a, n, d) / pow2(quotient_bits(n, d))
}

// ---------------------------------------------------------------------------
// Rounding keeps the order
// ---------------------------------------------------------------------------

proof fn lemma_nearest_even_bounds(n: nat, d: nat)
    requires
        d > 0,
    ensures
        2 * (nearest_even(n, d) * d) <= 2 * n + d,
        2 * n <= 2 * (nearest_even(n, d) * d) + d,
{
    let q = n / d;
    let r = n % d;
    vstd::arithmetic::div_mod::lemma_fundamental_div_mod(n as int, d as int);
    assert(d * q == q * d) by (nonlinear_arith);
    assert((q + 1) * d == q * d + d) by (nonlinear_arith);
}

proof fn lemma_nearest_even_monotone(n1: nat, n2: nat, d: nat)
    requires
        d > 0,
        n1 <= n2,
    ensures
        nearest_even(n1, d) <= nearest_even(n2, d),
{
    let q1 = n1 / d;
    let q2 = n2 / d;
    vstd::arithmetic::div_mod::lemma_div_is_ordered(n1 as int, n2 as int, d as int);
    if q1 == q2 {
        vstd::arithmetic::div_mod::lemma_fundamental_div_mod(n1 as int, d as int);
        vstd::arithmetic::div_mod::lemma_fundamental_div_mod(n2 as int, d as int);
        assert(n1 % d <= n2 % d);
    }
}

/// A number that is `e` bits too long lies between the two powers of two that this names.
proof fn lemma_excess_bits(n: nat)
    ensures
        n < 2 * HIDDEN_BIT * pow2(excess_bits(n)),
        excess_bits(n) > 0 ==> HIDDEN_BIT * pow2(excess_bits(n)) <= n,
        pow2(excess_bits(n)) >= 1,
    decreases n,
{
    lemma2_to64();
    let e = excess_bits(n);
    lemma_pow2_pos(e);
    if n >= 2 * HIDDEN_BIT {
        lemma_excess_bits(n / 2);
        lemma_pow2_unfold(e);
        let u = pow2((e - 1) as nat);
        assert(pow2(e) == 2 * u);
        if e == 1 {
            assert(u == 1);
        }
    }
}

proof fn lemma_excess_bits_monotone(n1: nat, n2: nat)
    requires
        n1 <= n2,
    ensures
        excess_bits(n1) <= excess_bits(n2),
    decreases n2,
{
    if n1 >= 2 * HIDDEN_BIT {
        lemma_excess_bits_monotone(n1 / 2, n2 / 2);
    }
}

/// Where the rounded number lies.
proof fn lemma_nearest_double_bounds(n: nat)
    ensures
        nearest_double(n) <= 2 * HIDDEN_BIT * pow2(excess_bits(n)),
        excess_bits(n) > 0 ==> HIDDEN_BIT * pow2(excess_bits(n)) <= nearest_double(n),
        excess_bits(n) == 0 ==> nearest_double(n) == n,
{
    lemma2_to64();
    lemma_excess_bits(n);
    let unit = pow2(excess_bits(n));
    let low = HIDDEN_BIT as nat;
    let high = (2 * HIDDEN_BIT) as nat;
    if excess_bits(n) == 0 {
        assert(unit == 1);
        assert(n % 1 == 0 && n / 1 == n);
        assert(n * 1 == n);
        assert(nearest_even(n, 1) == n);
    } else {
        lemma_nearest_even_monotone(low * unit, n, unit);
        lemma_nearest_even_monotone(n, high * unit, unit);
        lemma_nearest_even_exact(low, unit);
        lemma_nearest_even_exact(high, unit);
        let q = nearest_even(n, unit);
        assert(low * unit <= q * unit <= high * unit) by (nonlinear_arith)
            requires
                low <= q <= high,
                unit >= 1,
        ;
    }
}

/// A multiple of `d` is not rounded.
proof fn lemma_nearest_even_exact(q: nat, d: nat)
    requires
        d > 0,
    ensures
        nearest_even(q * d, d) == q,
{
    vstd::arithmetic::div_mod::lemma_div_by_multiple(q as int, d as int);
    vstd::arithmetic::div_mod::lemma_mod_multiples_basic(q as int, d as int);
}

/// Rounding to binary64 keeps the order.
proof fn lemma_nearest_double_monotone(n1: nat, n2: nat)
    requires
        n1 <= n2,
    ensures
        nearest_double(n1) <= nearest_double(n2),
{
    lemma_excess_bits_monotone(n1, n2);
    lemma_nearest_double_bounds(n1);
    lemma_nearest_double_bounds(n2);
    let e1 = excess_bits(n1);
    let e2 = excess_bits(n2);
    let u1 = pow2(e1);
    let u2 = pow2(e2);
    if e1 == e2 {
        lemma_excess_bits(n1);
        lemma_nearest_even_monotone(n1, n2, u1);
        let q1 = nearest_even(n1, u1);
        let q2 = nearest_even(n2, u1);
        assert(q1 * u1 <= q2 * u1) by (nonlinear_arith)
            requires
                q1 <= q2,
        ;
    } else {
        lemma_pow2_unfold(e2);
        if e1 < e2 - 1 {
            lemma_pow2_strictly_increases(e1, (e2 - 1) as nat);
        }
        assert(u1 <= pow2((e2 - 1) as nat));
        assert(2 * HIDDEN_BIT * u1 <= HIDDEN_BIT * u2) by (nonlinear_arith)
            requires
                2 * u1 <= u2,
        ;
    }
}

/// A 64-bit number stays positive, keeps the order and does not pass two to the power of 64.
proof fn lemma_nearest_double_of_u64(n1: nat, n2: nat)
    requires
        n1 <= n2 <= 0xffff_ffff_ffff_ffff,
    ensures
        nearest_double(n1) <= nearest_double(n2) <= 0x1_0000_0000_0000_0000,
        n1 > 0 ==> nearest_double(n1) > 0,
{
    let top: nat = 0x1_0000_0000_0000_0000;
    lemma_nearest_double_monotone(n1, n2);
    lemma_nearest_double_monotone(n2, top);
    assert(nearest_double(top) == top) by {
        reveal_with_fuel(excess_bits, 13);
        assert(excess_bits(top) == 12);
        lemma2_to64();
        lemma_nearest_even_exact(HIDDEN_BIT as nat, 4096);
    }
    lemma_nearest_double_bounds(n1);
    lemma_excess_bits(n1);
}

// ---------------------------------------------------------------------------
// Rounding stays near
// ---------------------------------------------------------------------------

/// The quotient, scaled, has 53 bits before the point.
proof fn lemma_quotient_bits(n: nat, d: nat)
    requires
        0 < n < 2 * HIDDEN_BIT * d,
    ensures
        HIDDEN_BIT * d <= n * pow2(quotient_bits(n, d)) < 2 * HIDDEN_BIT * d,
    decreases
            if n >= HIDDEN_BIT * d {
                0
            } else {
                HIDDEN_BIT * d - n
            },
{
    lemma2_to64();
    if n < HIDDEN_BIT * d {
        let s = quotient_bits(2 * n, d);
        assert(2 * HIDDEN_BIT * d == 2 * (HIDDEN_BIT * d)) by (nonlinear_arith);
        lemma_quotient_bits(2 * n, d);
        lemma_pow2_unfold(s + 1);
        assert(n * (2 * pow2(s)) == (2 * n) * pow2(s)) by (nonlinear_arith);
    } else {
        assert(n * 1 == n);
    }
}

/// A proportion of an amount of less than 32 bits is off by half of one, and by what rounding to 53
/// bits may add to that.
proof fn lemma_scaled_round_error(a: nat, n: nat, d: nat)
    requires
        a <= 0xffff_ffff,
        0 < n < d,
    ensures
        ({
            let unit = pow2(quotient_bits(n, d));
            let rd = scaled_round(a, n, d) * d;
            let an = a * n;
            &&& unit > HIDDEN_BIT
            &&& 2 * (unit * rd) <= 2 * (unit * an) + d * unit + d * (3 * a + 1)
            &&& 2 * (unit * an) <= 2 * (unit * rd) + d * unit + d * (3 * a + 1)
        }),
{
    let s = quotient_bits(n, d);
    let unit = pow2(s);
    let m = quotient_significand(n, d);
    let product = a * m;
    let p = nearest_double(product);
    let u = pow2(excess_bits(product));
    let r = scaled_round(a, n, d);
    lemma2_to64();
    lemma_pow2_pos(s);
    lemma_quotient_bits(n, d);
    lemma_nearest_even_bounds(n * unit, d);
    lemma_excess_bits(product);
    lemma_nearest_even_bounds(product, u);
    let hidden = HIDDEN_BIT as nat;
    if unit <= hidden {
        assert(n * unit <= n * hidden) by (nonlinear_arith)
            requires
                unit <= hidden,
        ;
        assert(n * hidden < hidden * d) by (nonlinear_arith)
            requires
                n < d,
                hidden > 0,
        ;
    }
    // The significand has at most 53 bits, up to a carry.
    assert(m <= 2 * hidden) by (nonlinear_arith)
        requires
            2 * (m * d) <= 2 * (n * unit) + d,
            n * unit < 2 * hidden * d,
            d > 0,
    ;
    assert(u <= 2 * a + 1) by {
        if excess_bits(product) > 0 {
            assert(product <= a * (2 * hidden)) by (nonlinear_arith)
                requires
                    product == a * m,
                    m <= 2 * hidden,
            ;
            assert(u <= 2 * a) by (nonlinear_arith)
                requires
                    hidden * u <= a * (2 * hidden),
                    hidden > 0,
            ;
        } else {
            assert(u == 1);
        }
    }
    // Halves are rounded up.
    vstd::arithmetic::div_mod::lemma_fundamental_div_mod((2 * p + unit) as int, (2 * unit) as int);
    assert((2 * unit) * r <= 2 * p + unit);
    assert(2 * p + unit < (2 * unit) * r + 2 * unit);
    let rd = r * d;
    let an = a * n;
    let err_m = 2 * (m * d) - 2 * (n * unit);
    let err_p = 2 * p - 2 * product;
    let err_r = (2 * unit) * r - 2 * p;
    assert(-d <= err_m <= d);
    assert(-u <= err_p <= u);
    assert(-unit < err_r <= unit);
    // The three errors add up.
    assert(2 * (unit * rd) - 2 * (unit * an) == d * err_r + d * err_p + a * err_m)
        by (nonlinear_arith)
        requires
            rd == r * d,
            an == a * n,
            err_m == 2 * (m * d) - 2 * (n * unit),
            err_p == 2 * p - 2 * product,
            err_r == (2 * unit) * r - 2 * p,
            product == a * m,
    ;
    assert(-(d * unit) <= d * err_r <= d * unit) by (nonlinear_arith)
        requires
            -unit < err_r <= unit,
            d > 0,
    ;
    assert(-(d * u) <= d * err_p <= d * u) by (nonlinear_arith)
        requires
            -u <= err_p <= u,
            d > 0,
    ;
    assert(-(a * d) <= a * err_m <= a * d) by (nonlinear_arith)
        requires
            -d <= err_m <= d,
            a >= 0,
    ;
    assert(d * u + a * d <= d * (3 * a + 1)) by (nonlinear_arith)
        requires
            u <= 2 * a + 1,
            d > 0,
    ;
}

/// A proportion of an amount of less than 32 bits is less than one off: by no more than half of one
/// and a part in a quarter of a million.
pub proof fn lemma_scaled_round_is_near(a: nat, n: nat, d: nat)
    requires
        a <= 0xffff_ffff,
        0 < n < d,
    ensures
        scaled_round(a, n, d) * d < a * n + d,
        a * n < scaled_round(a, n, d) * d + d,
        0x4_0000 * (2 * (scaled_round(a, n, d) * d)) <= 0x4_0000 * (2 * (a * n)) + 0x4_0001 * d,
        0x4_0000 * (2 * (a * n)) <= 0x4_0000 * (2 * (scaled_round(a, n, d) * d)) + 0x4_0001 * d,
{
    lemma_scaled_round_error(a, n, d);
    let unit = pow2(quotient_bits(n, d));
    let rd = scaled_round(a, n, d) * d;
    let an = a * n;
    let e = 3 * a + 1;
    assert(0x4_0000 * e <= unit);
    lemma_error_is_small(unit, rd, an, d, e, 0x4_0000);
    lemma_error_is_small(unit, an, rd, d, e, 0x4_0000);
    assert(0x4_0000 * (2 * rd) <= 0x4_0000 * (2 * an) + 0x4_0001 * d);
    assert(0x4_0000 * (2 * an) <= 0x4_0000 * (2 * rd) + 0x4_0001 * d);
}

/// A proportion that is cut off is at most one above the true one, and less than two below it.
pub proof fn lemma_scaled_trunc_is_near(a: nat, n: nat, d: nat)
    requires
        a <= 0xffff_ffff,
        0 < n < d,
    ensures
        scaled_trunc(a, n, d) * d < a * n + d,
        a * n < scaled_trunc(a, n, d) * d + 2 * d,
{
    lemma_scaled_round_is_near(a, n, d);
    let unit = pow2(quotient_bits(n, d));
    let p = scaled(a, n, d);
    let t = scaled_trunc(a, n, d);
    let r = scaled_round(a, n, d);
    lemma_pow2_pos(quotient_bits(n, d));
    vstd::arithmetic::div_mod::lemma_fundamental_div_mod(p as int, unit as int);
    vstd::arithmetic::div_mod::lemma_fundamental_div_mod((2 * p + unit) as int, (2 * unit) as int);
    assert(t <= r <= t + 1) by (nonlinear_arith)
        requires
            unit * t <= p < unit * t + unit,
            (2 * unit) * r <= 2 * p + unit < (2 * unit) * r + 2 * unit,
            unit > 0,
    ;
    assert(t * d <= r * d <= t * d + d) by (nonlinear_arith)
        requires
            t <= r <= t + 1,
    ;
}

/// An integer of at most 53 bits is a binary64 number.
pub proof fn lemma_short_integers_are_exact(n: nat)
    requires
        n < 2 * HIDDEN_BIT,
    ensures
        nearest_double(n) == n,
{
    lemma_nearest_double_bounds(n);
}

/// A proportion is the nearest integer where amount and whole are not too large.
pub proof fn lemma_scaled_round_is_nearest(a: nat, n: nat, d: nat)
    requires
        a <= 0xffff_ffff,
        0 < n < d,
        d * (3 * a + 1) <= HIDDEN_BIT,
    ensures
        2 * (scaled_round(a, n, d) * d) <= 2 * (a * n) + d,
        2 * (a * n) <= 2 * (scaled_round(a, n, d) * d) + d,
{
    lemma_scaled_round_error(a, n, d);
    let unit = pow2(quotient_bits(n, d));
    let rd = scaled_round(a, n, d) * d;
    let an = a * n;
    let e = d * (3 * a + 1);
    assert(2 * rd <= 2 * an + d) by (nonlinear_arith)
        requires
            2 * (unit * rd) <= 2 * (unit * an) + d * unit + e,
            e < unit,
    ;
    assert(2 * an <= 2 * rd + d) by (nonlinear_arith)
        requires
            2 * (unit * an) <= 2 * (unit * rd) + d * unit + e,
            e < unit,
    ;
}

/// The half of an amount is exact, and a half that is left over is rounded up or cut off.
pub proof fn lemma_scaled_to_the_half(a: nat, n: nat)
    requires
        a <= 0xffff_ffff,
        0 < n,
    ensures
        scaled_round(a, n, 2 * n) == (a + 1) / 2,
        scaled_trunc(a, n, 2 * n) == a / 2,
{
    let d = 2 * n;
    let hidden = HIDDEN_BIT as nat;
    let s = quotient_bits(n, d);
    let unit = pow2(s);
    lemma2_to64();
    lemma2_to64_rest();
    assert(hidden == pow2(52));
    assert(0 < n < 2 * hidden * d) by (nonlinear_arith)
        requires
            d == 2 * n,
            n > 0,
            hidden > 0,
    ;
    lemma_quotient_bits(n, d);
    // The quotient is one half, so that its unit is two to the power of 53.
    assert(2 * hidden <= unit < 4 * hidden) by (nonlinear_arith)
        requires
            hidden * d <= n * unit < 2 * hidden * d,
            d == 2 * n,
            n > 0,
    ;
    assert(pow2(53) == 2 * hidden && pow2(54) == 4 * hidden);
    if s < 53 {
        lemma_pow2_strictly_increases(s, 53);
    }
    if s >= 54 {
        if s > 54 {
            lemma_pow2_strictly_increases(54, s);
        }
    }
    assert(s == 53);
    assert(n * unit == hidden * d) by (nonlinear_arith)
        requires
            unit == 2 * hidden,
            d == 2 * n,
    ;
    lemma_nearest_even_exact(hidden, d);
    assert(quotient_significand(n, d) == hidden);
    // The product needs no rounding.
    let product = a * hidden;
    let e = excess_bits(product);
    let u = pow2(e);
    lemma_excess_bits(product);
    if e > 52 {
        lemma_pow2_strictly_increases(52, e);
        assert(hidden * hidden < product) by (nonlinear_arith)
            requires
                hidden * u <= product,
                hidden < u,
                hidden > 0,
        ;
        assert(false) by (nonlinear_arith)
            requires
                hidden * hidden < a * hidden,
                a < hidden,
        ;
    }
    let rest = pow2((52 - e) as nat);
    lemma_pow2_adds(e, (52 - e) as nat);
    assert(product == (a * rest) * u) by (nonlinear_arith)
        requires
            product == a * hidden,
            hidden == u * rest,
    ;
    lemma_nearest_even_exact(a * rest, u);
    assert(scaled(a, n, d) == product);
    // What is left is to halve.
    assert((2 * product + unit) / (2 * unit) == (a + 1) / 2) by {
        vstd::arithmetic::div_mod::lemma_div_denominator(
            (2 * product + unit) as int,
            unit as int,
            2,
        );
        assert(2 * product + unit == (a + 1) * unit) by (nonlinear_arith)
            requires
                product == a * hidden,
                unit == 2 * hidden,
        ;
        vstd::arithmetic::div_mod::lemma_div_by_multiple((a + 1) as int, unit as int);
    }
    assert(product / unit == a / 2) by {
        vstd::arithmetic::div_mod::lemma_div_denominator(product as int, hidden as int, 2);
        vstd::arithmetic::div_mod::lemma_div_by_multiple(a as int, hidden as int);
    }
}

proof fn lemma_error_is_small(unit: nat, x: nat, y: nat, d: nat, e: nat, k: nat)
    requires
        2 * (unit * x) <= 2 * (unit * y) + d * unit + d * e,
        k * e <= unit,
        unit > 0,
    ensures
        k * (2 * x) <= k * (2 * y) + (k + 1) * d,
{
    assert(unit * (k * (2 * x)) <= unit * (k * (2 * y) + (k + 1) * d)) by (nonlinear_arith)
        requires
            2 * (unit * x) <= 2 * (unit * y) + d * unit + d * e,
            k * e <= unit,
    ;
    assert(k * (2 * x) <= k * (2 * y) + (k + 1) * d) by (nonlinear_arith)
        requires
            unit * (k * (2 * x)) <= unit * (k * (2 * y) + (k + 1) * d),
            unit > 0,
    ;
}

/// Rounding gives the nearest integer and, where two are equally near, the even one.
pub proof fn law_ties_go_to_even(n: nat, d: nat)
    requires
        d > 0,
    ensures
        ({
            let r = nearest_even(n, d);
            &&& 2 * (r * d) <= 2 * n + d
            &&& 2 * n <= 2 * (r * d) + d
            &&& 2 * (r * d) == 2 * n + d || 2 * n == 2 * (r * d) + d ==> r % 2 == 0
        }),
{
    let q = n / d;
    let r = n % d;
    lemma_nearest_even_bounds(n, d);
    vstd::arithmetic::div_mod::lemma_fundamental_div_mod(n as int, d as int);
    assert(d * q == q * d) by (nonlinear_arith);
    assert((q + 1) * d == q * d + d) by (nonlinear_arith);
}

/// An integer of up to 53 bits stays; of one with 54 bits the last bit is rounded.
pub proof fn law_doubles_have_53_bits(n: nat)
    ensures
        n < 0x20_0000_0000_0000 ==> nearest_double(n) == n,
        0x20_0000_0000_0000 <= n < 0x40_0000_0000_0000 ==> nearest_double(n) == if n % 4 == 1 {
            n - 1
        } else if n % 4 == 3 {
            (n + 1) as int
        } else {
            n as int
        },
{
    lemma2_to64();
    if n < 0x20_0000_0000_0000 {
        lemma_nearest_double_bounds(n);
    } else if n < 0x40_0000_0000_0000 {
        reveal_with_fuel(excess_bits, 2);
        assert(excess_bits(n) == 1);
        assert(nearest_double(n) == nearest_even(n, 2) * 2);
    }
}

/// The quotient of two numbers, the first of them smaller, has 53 bits: its significand is the
/// integer nearest to it in its unit, and its unit makes that an integer of 53 bits.
pub proof fn law_quotients_have_53_bits(n: nat, d: nat)
    requires
        0 < n < d,
    ensures
        ({
            let m = quotient_significand(n, d);
            let unit = pow2(quotient_bits(n, d));
            &&& 0x10_0000_0000_0000 <= m <= 0x20_0000_0000_0000
            &&& 2 * (m * d) <= 2 * (n * unit) + d
            &&& 2 * (n * unit) <= 2 * (m * d) + d
        }),
{
    let m = quotient_significand(n, d);
    let unit = pow2(quotient_bits(n, d));
    let hidden = HIDDEN_BIT as nat;
    assert(0 < n < 2 * hidden * d) by (nonlinear_arith)
        requires
            0 < n < d,
            hidden > 0,
    ;
    lemma_quotient_bits(n, d);
    lemma_nearest_even_bounds(n * unit, d);
    assert(hidden <= m <= 2 * hidden) by (nonlinear_arith)
        requires
            2 * (m * d) <= 2 * (n * unit) + d,
            2 * (n * unit) <= 2 * (m * d) + d,
            hidden * d <= n * unit < 2 * hidden * d,
            d > 0,
    ;
}

/// A proportion is the rounded product of the amount and the significand, in units of the quotient;
/// it is then rounded to the nearest integer, halves up, or cut off.
pub proof fn law_proportions_are_rounded_once_more(a: nat, n: nat, d: nat)
    requires
        0 < n < d,
    ensures
        ({
            let unit = pow2(quotient_bits(n, d));
            let p = nearest_double(a * quotient_significand(n, d));
            let r = scaled_round(a, n, d);
            let t = scaled_trunc(a, n, d);
            &&& (2 * unit) * r <= 2 * p + unit < (2 * unit) * r + 2 * unit
            &&& unit * t <= p < unit * t + unit
        }),
{
    let unit = pow2(quotient_bits(n, d));
    let p = nearest_double(a * quotient_significand(n, d));
    lemma_pow2_pos(quotient_bits(n, d));
    vstd::arithmetic::div_mod::lemma_fundamental_div_mod(p as int, unit as int);
    vstd::arithmetic::div_mod::lemma_fundamental_div_mod((2 * p + unit) as int, (2 * unit) as int);
}

// ---------------------------------------------------------------------------
// Computing
// ---------------------------------------------------------------------------

fn nearest_even_of(n: u128, d: u128) -> (r: u128)
    requires
        0 < d <= 0x8000_0000_0000_0000_0000_0000_0000_0000 - 1,
        n <= 0x8000_0000_0000_0000_0000_0000_0000_0000,
    ensures
        r == nearest_even(n as nat, d as nat),
        r <= n / d + 1,
{
    let q: u128 = n / d;
    let r: u128 = n % d;
    assert(q <= n) by (nonlinear_arith)
        requires
            q == n / d,
            d > 0,
    ;
    if 2 * r < d || (2 * r == d && q % 2 == 0) {
        q
    } else {
        q + 1
    }
}

/// The binary64 number nearest to the integer `n`.
fn nearest_double_of(n: u128) -> (r: u128)
    requires
        n <= 0x20_0000_0000_0000 * 0x1_0000_0000_0000_0000,
    ensures
        r == nearest_double(n as nat),
        r <= 2 * n,
{
    let mut x: u128 = n;
    let mut unit: u128 = 1;
    let ghost mut e: nat = 0;
    proof {
        lemma2_to64();
    }
    while x >= 2 * HIDDEN_BIT
        invariant
            n <= 0x20_0000_0000_0000 * 0x1_0000_0000_0000_0000,
            unit == pow2(e),
            x == n / unit,
            1 <= unit <= n || unit == 1,
            excess_bits(n as nat) == e + excess_bits(x as nat),
        decreases x,
    {
        proof {
            lemma_pow2_unfold(e + 1);
            vstd::arithmetic::div_mod::lemma_div_denominator(n as int, unit as int, 2);
            assert(2 * unit <= n) by (nonlinear_arith)
                requires
                    x == n / unit,
                    x >= 2,
                    unit >= 1,
            ;
            e = e + 1;
        }
        x = x / 2;
        unit = 2 * unit;
    }
    let q: u128 = nearest_even_of(n, unit);
    proof {
        if unit == 1 {
            assert(n % 1 == 0);
            assert(n / 1 == n);
            assert(q == n);
            assert(q * unit == q) by (nonlinear_arith)
                requires
                    unit == 1,
            ;
        } else {
            assert(q * unit <= 2 * n) by (nonlinear_arith)
                requires
                    q <= n / unit + 1,
                    1 <= unit <= n,
            ;
        }
        assert(q * unit <= 2 * n);
    }
    q * unit
}

/// The binary64 number nearest to `n / d`: its significand and what it is to be divided by.
fn quotient_of(n: u128, d: u128) -> (r: (u128, u128))
    requires
        0 < n <= d <= 0x1_0000_0000_0000_0000,
    ensures
        r.0 == quotient_significand(n as nat, d as nat),
        r.1 == pow2(quotient_bits(n as nat, d as nat)),
        r.0 <= 0x20_0000_0000_0000,
        1 <= r.1 <= 0x20_0000_0000_0000 * 0x1_0000_0000_0000_0000,
{
    let mut x: u128 = n;
    let mut unit: u128 = 1;
    let ghost mut s: nat = 0;
    proof {
        lemma2_to64();
    }
    while x < HIDDEN_BIT * d
        invariant
            0 < n <= d <= 0x1_0000_0000_0000_0000,
            unit == pow2(s),
            x == n * unit,
            1 <= unit <= x,
            x < 0x20_0000_0000_0000 * d,
            quotient_bits(n as nat, d as nat) == s + quotient_bits(x as nat, d as nat),
        decreases
                if x >= HIDDEN_BIT * d {
                    0
                } else {
                    HIDDEN_BIT * d - x
                },
    {
        proof {
            lemma_pow2_unfold(s + 1);
            assert(n * (2 * unit) == 2 * (n * unit)) by (nonlinear_arith);
            s = s + 1;
        }
        x = 2 * x;
        unit = 2 * unit;
    }
    let m: u128 = nearest_even_of(x, d);
    assert(x / d < 0x20_0000_0000_0000) by (nonlinear_arith)
        requires
            x < 0x20_0000_0000_0000 * d,
            d > 0,
    ;
    (m, unit)
}

/// `a * (n / d)` in binary64, rounded to the nearest integer; halves are rounded up.
pub fn scale_round(a: u64, n: u64, d: u64) -> (r: u128)
    requires
        0 < n <= d,
    ensures
        r == scaled_round(a as nat, n as nat, d as nat),
{
    let (m, unit) = quotient_of(n as u128, d as u128);
    assert(a * m <= 0xffff_ffff_ffff_ffff * 0x20_0000_0000_0000) by (nonlinear_arith)
        requires
            a <= 0xffff_ffff_ffff_ffff,
            m <= 0x20_0000_0000_0000,
    ;
    let p: u128 = nearest_double_of(a as u128 * m);
    (2 * p + unit) / (2 * unit)
}

/// `a * (n / d)` in binary64, with the part behind the point cut off.
pub fn scale_trunc(a: u64, n: u64, d: u64) -> (r: u128)
    requires
        0 < n <= d,
    ensures
        r == scaled_trunc(
            nearest_double(a as nat),
            nearest_double(n as nat),
            nearest_double(d as nat),
        ),
{
    let fa: u128 = nearest_double_of(a as u128);
    let fn_: u128 = nearest_double_of(n as u128);
    let fd: u128 = nearest_double_of(d as u128);
    proof {
        lemma_nearest_double_of_u64(a as nat, a as nat);
        lemma_nearest_double_of_u64(n as nat, d as nat);
    }
    let (m, unit) = quotient_of(fn_, fd);
    assert(fa * m <= 0x1_0000_0000_0000_0000 * 0x20_0000_0000_0000) by (nonlinear_arith)
        requires
            fa <= 0x1_0000_0000_0000_0000,
            m <= 0x20_0000_0000_0000,
    ;
    let p: u128 = nearest_double_of(fa * m);
    p / unit
}

} // verus!
