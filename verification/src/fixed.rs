//! Fixed-point arithmetic with nine decimal places.

use vstd::prelude::*;
use vstd::arithmetic::div_mod::{lemma_fundamental_div_mod, lemma_fundamental_div_mod_converse};

verus! {

/// The fixed-point representation of 1.0.
pub const ONE: i64 = 1_000_000_000;

/// The square of [`ONE`]: the unit of a product of two fixed-point numbers.
pub const ONE_SQUARED: i128 = 1_000_000_000_000_000_000;

/// 1/sqrt(2), rounded down to nine decimal places.
pub const FRAC_1_SQRT_2: i64 = 707_106_781;

/// Probabilities are rounded to five decimal places before an outcome is
/// drawn, that is to a multiple of 1/`PROBABILITY_STEPS`.
pub const PROBABILITY_STEPS: u32 = 100_000;

/// One probability step, in units of [`ONE_SQUARED`].
pub const NORM_QUANTUM: i128 = 10_000_000_000_000;

/// No component of a vector whose squared norm is within a
/// hundred-thousandth of one exceeds this.
pub const AMPLITUDE_LIMIT: i64 = 1_000_005_000;

/// The quotient `a / b` rounded to the nearest integer, ties away from zero.
pub open spec fn round_div(a: int, b: int) -> int
    recommends
        b > 0,
{
    if a >= 0 {
        (2 * a + b) / (2 * b)
    } else {
        -((b - 2 * a) / (2 * b))
    }
}

/// The product of two fixed-point numbers, rounded to the nearest unit.
pub open spec fn fixed_mul(a: int, b: int) -> int {
    round_div(a * b, ONE as int)
}

/// The absolute value of an integer.
pub open spec fn abs(a: int) -> int {
    if a >= 0 {
        a
    } else {
        -a
    }
}

/// A rounded quotient is within half a unit of the exact one.
pub proof fn lemma_round_div_bounds(a: int, b: int)
    requires
        b > 0,
    ensures
        -b <= 2 * (b * round_div(a, b)) - 2 * a <= b,
{
    if a >= 0 {
        let x = 2 * a + b;
        lemma_fundamental_div_mod(x, 2 * b);
        assert((2 * b) * (x / (2 * b)) == 2 * (b * (x / (2 * b)))) by (nonlinear_arith);
    } else {
        let x = b - 2 * a;
        lemma_fundamental_div_mod(x, 2 * b);
        assert((2 * b) * (x / (2 * b)) == 2 * (b * (x / (2 * b)))) by (nonlinear_arith);
        assert(b * (-(x / (2 * b))) == -(b * (x / (2 * b)))) by (nonlinear_arith);
    }
}

/// Rounding is exact on multiples of the divisor.
pub proof fn lemma_round_div_exact(k: int, b: int)
    requires
        b > 0,
    ensures
        round_div(k * b, b) == k,
{
    if k >= 0 {
        assert(k * b >= 0) by (nonlinear_arith)
            requires
                k >= 0,
                b > 0,
        ;
        assert(2 * (k * b) + b == k * (2 * b) + b) by (nonlinear_arith);
        lemma_fundamental_div_mod_converse(2 * (k * b) + b, 2 * b, k, b);
    } else {
        assert(k * b < 0) by (nonlinear_arith)
            requires
                k < 0,
                b > 0,
        ;
        assert(b - 2 * (k * b) == (-k) * (2 * b) + b) by (nonlinear_arith);
        lemma_fundamental_div_mod_converse(b - 2 * (k * b), 2 * b, -k, b);
    }
}

/// A quotient is bounded as its dividend is.
pub proof fn lemma_round_div_magnitude(a: int, b: int, m: int)
    requires
        b > 0,
        m >= 0,
        abs(a) <= m * b,
    ensures
        abs(round_div(a, b)) <= m,
{
    lemma_round_div_bounds(a, b);
    let q = round_div(a, b);
    assert(abs(q) <= m) by (nonlinear_arith)
        requires
            b > 0,
            m >= 0,
            -(m * b) <= a <= m * b,
            -b <= 2 * (b * q) - 2 * a <= b,
    ;
}

/// Rounding preserves order.
pub proof fn lemma_round_div_monotonic(a1: int, a2: int, b: int)
    requires
        b > 0,
        a1 <= a2,
    ensures
        round_div(a1, b) <= round_div(a2, b),
{
    lemma_round_div_bounds(a1, b);
    lemma_round_div_bounds(a2, b);
    let q1 = round_div(a1, b);
    let q2 = round_div(a2, b);
    if a1 >= 0 {
        vstd::arithmetic::div_mod::lemma_div_is_ordered(2 * a1 + b, 2 * a2 + b, 2 * b);
    } else if a2 < 0 {
        vstd::arithmetic::div_mod::lemma_div_is_ordered(b - 2 * a2, b - 2 * a1, 2 * b);
    } else {
        vstd::arithmetic::div_mod::lemma_div_pos_is_pos(2 * a2 + b, 2 * b);
        vstd::arithmetic::div_mod::lemma_div_pos_is_pos(b - 2 * a1, 2 * b);
    }
}

/// Multiplying by one, on either side, or by zero is exact.
pub proof fn lemma_fixed_mul_unit(x: int)
    ensures
        fixed_mul(x, ONE as int) == x,
        fixed_mul(ONE as int, x) == x,
        fixed_mul(x, 0) == 0,
        fixed_mul(0, x) == 0,
{
    lemma_round_div_exact(x, ONE as int);
    assert(ONE as int * x == x * ONE as int) by (nonlinear_arith);
    lemma_round_div_exact(0, ONE as int);
    assert(x * 0 == 0 && 0 * x == 0 && 0 * (ONE as int) == 0) by (nonlinear_arith);
}

/// Computes [`round_div`].
pub fn round_div_i128(a: i128, b: i128) -> (q: i128)
    requires
        0 < b <= 0x1000_0000_0000_0000_0000_0000_0000,
        -0x2000_0000_0000_0000_0000_0000_0000_0000 <= a,
        a <= 0x2000_0000_0000_0000_0000_0000_0000_0000,
    ensures
        q == round_div(a as int, b as int),
{
    if a >= 0 {
        (2 * a + b) / (2 * b)
    } else {
        -((b - 2 * a) / (2 * b))
    }
}

/// Computes [`fixed_mul`].
pub fn fixed_mul_i64(a: i64, b: i64) -> (p: i64)
    requires
        abs(a as int) <= 0x1_0000_0000,
        abs(b as int) <= 0x1_0000_0000,
    ensures
        p == fixed_mul(a as int, b as int),
{
    proof {
        assert(abs(a as int * b as int) <= 0x1_0000_0000 * 0x1_0000_0000) by (nonlinear_arith)
            requires
                abs(a as int) <= 0x1_0000_0000,
                abs(b as int) <= 0x1_0000_0000,
        ;
        lemma_round_div_magnitude(a as int * b as int, ONE as int, 0x8_0000_0000);
    }
    let wide: i128 = (a as i128) * (b as i128);
    let q = round_div_i128(wide, ONE as i128);
    q as i64
}

/// Whether `r` is the square root of `x`, rounded down.
pub open spec fn is_sqrt_floor(x: int, r: int) -> bool {
    0 <= r && r * r <= x && x < (r + 1) * (r + 1)
}

/// The square root of `x`, rounded down.
pub open spec fn isqrt(x: int) -> int {
    choose|r: int| is_sqrt_floor(x, r)
}

/// There is one rounded-down square root.
pub proof fn lemma_isqrt_unique(x: int, r1: int, r2: int)
    requires
        is_sqrt_floor(x, r1),
        is_sqrt_floor(x, r2),
    ensures
        r1 == r2,
{
    assert(r1 == r2) by (nonlinear_arith)
        requires
            0 <= r1,
            r1 * r1 <= x,
            x < (r1 + 1) * (r1 + 1),
            0 <= r2,
            r2 * r2 <= x,
            x < (r2 + 1) * (r2 + 1),
    ;
}

/// Every number that is not negative has a rounded-down square root.
pub proof fn lemma_isqrt(x: int)
    requires
        x >= 0,
    ensures
        is_sqrt_floor(x, isqrt(x)),
    decreases x,
{
    if x == 0 {
        assert(is_sqrt_floor(0, 0));
    } else {
        lemma_isqrt(x - 1);
        let r = isqrt(x - 1);
        if (r + 1) * (r + 1) <= x {
            assert(is_sqrt_floor(x, r + 1)) by (nonlinear_arith)
                requires
                    0 <= r,
                    x - 1 < (r + 1) * (r + 1),
                    (r + 1) * (r + 1) <= x,
            ;
        } else {
            assert(is_sqrt_floor(x, r));
        }
    }
}

/// The square root of a number is at least `r` where the number is at
/// least the square of `r`.
pub proof fn lemma_isqrt_at_least(x: int, r: int)
    requires
        0 <= r,
        r * r <= x,
    ensures
        isqrt(x) >= r,
{
    assert(r * r >= 0) by (nonlinear_arith);
    lemma_isqrt(x);
    let s = isqrt(x);
    assert(s >= r) by (nonlinear_arith)
        requires
            0 <= s,
            0 <= r,
            r * r <= x,
            x < (s + 1) * (s + 1),
    ;
}

/// Squaring preserves the order of numbers that are not negative.
pub proof fn lemma_square_monotonic(a: int, b: int)
    requires
        0 <= a <= b,
    ensures
        a * a <= b * b,
{
    assert(a * a <= b * b) by (nonlinear_arith)
        requires
            0 <= a <= b,
    ;
}

/// Computes [`isqrt`].
pub fn isqrt_u128(x: u128) -> (r: u128)
    ensures
        is_sqrt_floor(x as int, r as int),
        r == isqrt(x as int),
        r < 0x1_0000_0000_0000_0000,
{
    let mut lo: u128 = 0;
    let mut hi: u128 = 0x1_0000_0000_0000_0000;
    proof {
        assert(0x1_0000_0000_0000_0000int * 0x1_0000_0000_0000_0000int
            == 0x1_0000_0000_0000_0000_0000_0000_0000_0000int) by (nonlinear_arith);
    }
    while hi - lo > 1
        invariant
            lo < hi <= 0x1_0000_0000_0000_0000,
            lo * lo <= x,
            x < hi * hi,
        decreases hi - lo,
    {
        let mid = lo + (hi - lo) / 2;
        proof {
            lemma_square_monotonic(mid as int, 0xffff_ffff_ffff_ffff);
            assert(0xffff_ffff_ffff_ffffint * 0xffff_ffff_ffff_ffffint
                < 0x1_0000_0000_0000_0000_0000_0000_0000_0000int) by (nonlinear_arith);
        }
        if mid * mid <= x {
            lo = mid;
        } else {
            hi = mid;
        }
    }
    proof {
        assert(hi == lo + 1);
        assert(is_sqrt_floor(x as int, lo as int));
        lemma_isqrt_unique(x as int, lo as int, isqrt(x as int));
    }
    lo
}

} // verus!
