//! Rounding helpers and the plane vectors that measurement bases are made of.

use vstd::prelude::*;
use crate::fixed::{abs, round_div, round_div_i128};

verus! {

/// A vector of the plane, in fixed-point components.
#[derive(Clone, Copy, Debug, PartialEq, Eq, Structural)]
pub struct Vector2 {
    pub x: i64,
    pub y: i64,
}

/// Ten to the power `e`.
pub open spec fn pow10(e: nat) -> int
    decreases e,
{
    if e == 0 {
        1
    } else {
        10 * pow10((e - 1) as nat)
    }
}

/// The fixed-point number `value` rounded to `decimals` decimal places,
/// ties away from zero.  Nine places and more leave it as it is.
pub open spec fn rounded_to_places(value: int, decimals: nat) -> int {
    if decimals >= 9 {
        value
    } else {
        round_div(value, pow10((9 - decimals) as nat)) * pow10((9 - decimals) as nat)
    }
}

/// Ten to the power `e`, for the places that a fixed-point number has.
fn power_of_ten(e: u32) -> (p: i128)
    requires
        e <= 9,
    ensures
        p == pow10(e as nat),
        1 <= p <= 1_000_000_000,
{
    let mut p: i128 = 1;
    let mut i: u32 = 0;
    proof {
        lemma_pow10_nine();
    }
    while i < e
        invariant
            i <= e <= 9,
            p == pow10(i as nat),
            1 <= p,
            p * pow10((9 - i) as nat) == 1_000_000_000,
            pow10((9 - i) as nat) >= 1,
        decreases e - i,
    {
        proof {
            let rest = pow10((9 - i - 1) as nat);
            lemma_pow10_positive((9 - i - 1) as nat);
            assert(pow10((9 - i) as nat) == 10 * rest);
            assert((p * 10) * rest == p * (10 * rest)) by (nonlinear_arith);
            assert(p * 10 <= 1_000_000_000) by (nonlinear_arith)
                requires
                    (p * 10) * rest == 1_000_000_000,
                    rest >= 1,
                    p >= 1,
            ;
        }
        p = p * 10;
        i += 1;
    }
    proof {
        assert(p <= 1_000_000_000) by (nonlinear_arith)
            requires
                p * pow10((9 - i) as nat) == 1_000_000_000,
                pow10((9 - i) as nat) >= 1,
                p >= 1,
        ;
    }
    p
}

/// Powers of ten are positive.
proof fn lemma_pow10_positive(e: nat)
    ensures
        pow10(e) >= 1,
    decreases e,
{
    if e > 0 {
        lemma_pow10_positive((e - 1) as nat);
    }
}

/// Ten to the ninth is one, in fixed point.
proof fn lemma_pow10_nine()
    ensures
        pow10(9) == 1_000_000_000,
        pow10(0) == 1,
{
    reveal_with_fuel(pow10, 10);
}

/// Rounds a fixed-point number to `decimals` decimal places.
pub fn round_to_n_decimal_places(value: i64, decimals: u32) -> (rounded: i64)
    requires
        abs(value as int) <= i64::MAX - 500_000_000,
    ensures
        rounded == rounded_to_places(value as int, decimals as nat),
{
    if decimals >= 9 {
        return value;
    }
    let step = power_of_ten(9 - decimals);
    let q = round_div_i128(value as i128, step);
    proof {
        crate::fixed::lemma_round_div_bounds(value as int, step as int);
        let qi = q as int;
        let s = step as int;
        let v = value as int;
        assert(-(i64::MAX as int) <= qi * s <= i64::MAX as int) by (nonlinear_arith)
            requires
                -s <= 2 * (s * qi) - 2 * v <= s,
                1 <= s <= 1_000_000_000,
                -(i64::MAX - 500_000_000) <= v <= i64::MAX - 500_000_000,
        ;
    }
    (q * step) as i64
}

/// Whether two vectors agree in both components once these are rounded to
/// six decimal places.
pub fn approx_eq(a: &Vector2, b: &Vector2) -> (same: bool)
    ensures
        same == (rounded_to_places(a.x as int, 6) == rounded_to_places(b.x as int, 6)
            && rounded_to_places(a.y as int, 6) == rounded_to_places(b.y as int, 6)),
{
    let ax = round_div_i128(a.x as i128, 1000);
    let bx = round_div_i128(b.x as i128, 1000);
    let ay = round_div_i128(a.y as i128, 1000);
    let by = round_div_i128(b.y as i128, 1000);
    proof {
        reveal_with_fuel(pow10, 4);
        assert(pow10(3) == 1000);
    }
    ax == bx && ay == by
}

} // verus!
