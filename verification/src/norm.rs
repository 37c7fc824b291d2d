//! The norm invariant of amplitude vectors, and the rounding of
//! probabilities.

use vstd::prelude::*;
use crate::fixed::{abs, AMPLITUDE_LIMIT, NORM_QUANTUM, ONE_SQUARED, round_div};
use crate::matrix::dot_i128;
use crate::sums::{
    ints, lemma_norm_sq_component, lemma_squares_nonneg, lemma_sum_prefix, norm_sq, prod_term,
};

verus! {

/// The squared norm of an amplitude vector differs from one by no more
/// than this, in units of the square of one: a hundred-thousandth.
pub const NORM_TOLERANCE: i128 = 10_000_000_000_000;

/// A probability, in units of the square of one, rounded to five decimal
/// places: the result counts probability steps.
pub open spec fn quantize(x: int) -> int {
    round_div(x, NORM_QUANTUM as int)
}

/// Whether the squared norm of `v` is one, within the tolerance.
pub open spec fn unit_norm(v: Seq<int>) -> bool {
    abs(norm_sq(v) - ONE_SQUARED) <= NORM_TOLERANCE
}

/// No component of a vector of unit norm exceeds the amplitude limit.
pub proof fn lemma_unit_norm_component(v: Seq<int>, i: int)
    requires
        0 <= i < v.len(),
        unit_norm(v),
    ensures
        abs(v[i]) <= AMPLITUDE_LIMIT,
{
    lemma_norm_sq_component(v, i);
    let x = v[i];
    assert(abs(x) <= 1_000_005_000) by (nonlinear_arith)
        requires
            x * x <= 1_000_010_000_000_000_000,
    ;
}

/// Whether every component of `v` is within the amplitude limit.
pub open spec fn within_limit(v: Seq<int>) -> bool {
    forall|i: int| 0 <= i < v.len() ==> abs(#[trigger] v[i]) <= AMPLITUDE_LIMIT
}

/// Whether every component of `v` is within the amplitude limit.
pub(crate) fn all_within_limit(v: &Vec<i64>) -> (ok: bool)
    ensures
        ok == within_limit(ints(v@)),
{
    let mut i: usize = 0;
    while i < v.len()
        invariant
            i <= v.len(),
            forall|k: int| 0 <= k < i ==> abs(#[trigger] ints(v@)[k]) <= AMPLITUDE_LIMIT,
        decreases v.len() - i,
    {
        let x = v[i];
        if x > AMPLITUDE_LIMIT || x < -AMPLITUDE_LIMIT {
            assert(abs(ints(v@)[i as int]) > AMPLITUDE_LIMIT);
            return false;
        }
        i += 1;
    }
    true
}

/// The squared norm of a vector within the amplitude limit.
pub(crate) fn squared_norm(v: &Vec<i64>) -> (s: i128)
    requires
        within_limit(ints(v@)),
    ensures
        s == norm_sq(ints(v@)),
        0 <= s <= v.len() * (AMPLITUDE_LIMIT * AMPLITUDE_LIMIT),
{
    proof {
        assert(v.len() * (AMPLITUDE_LIMIT * AMPLITUDE_LIMIT)
            <= 0x2000_0000_0000_0000_0000_0000_0000_0000) by (nonlinear_arith)
            requires
                v.len() <= 0xffff_ffff_ffff_ffff,
                AMPLITUDE_LIMIT == 1_000_005_000,
        ;
        lemma_squares_nonneg(ints(v@));
        lemma_sum_prefix(prod_term(ints(v@), ints(v@)), 0, v.len() as nat);
    }
    dot_i128(v, v, Ghost(AMPLITUDE_LIMIT as int), Ghost(AMPLITUDE_LIMIT as int))
}

/// Whether the squared norm of `v` is one, within the tolerance.
pub fn has_unit_norm(v: &Vec<i64>) -> (ok: bool)
    ensures
        ok == unit_norm(ints(v@)),
{
    if !all_within_limit(v) {
        proof {
            if unit_norm(ints(v@)) {
                assert forall|i: int| 0 <= i < v.len() implies abs(#[trigger] ints(v@)[i])
                    <= AMPLITUDE_LIMIT by {
                    lemma_unit_norm_component(ints(v@), i);
                }
            }
        }
        return false;
    }
    let s = squared_norm(v);
    ONE_SQUARED - NORM_TOLERANCE <= s && s <= ONE_SQUARED + NORM_TOLERANCE
}

} // verus!
