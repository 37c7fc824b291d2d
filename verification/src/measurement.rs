//! Projective measurement: the projector of an outcome, the probability of
//! the outcome true, and the state that an outcome leaves behind.

use vstd::prelude::*;
use vstd::arithmetic::power2::pow2;
use crate::basis::{is_unit, lemma_unit_components};
use crate::error::QuantumError;
use crate::fixed::{
    abs, AMPLITUDE_LIMIT, fixed_mul, fixed_mul_i64, isqrt, isqrt_u128, lemma_round_div_exact,
    lemma_round_div_magnitude, NORM_QUANTUM, ONE, ONE_SQUARED, PROBABILITY_STEPS, round_div,
    round_div_i128,
};
use crate::gates::{lemma_joint_dim, lemma_log2_pow2, log2, qubit_weight};
use crate::matrix::{copy_of, dot_i128, entries_within, grid, grid2, identity, is_square, mat_vec};
use crate::norm::{NORM_TOLERANCE, quantize, unit_norm, within_limit};
use crate::sums::{abs_term, ints, lemma_squares_nonneg, lemma_sum_prefix, norm_sq, prod_term, sum};
use crate::tensor::{
    block_index, embed, embedded, lemma_embedded_row, lemma_embedded_within, lemma_identity_row,
    lemma_pow2_step, with_block,
};
use crate::utils::Vector2;

verus! {

/// No register has more qubits than this.
pub const MAX_QUBITS: usize = 24;

/// A divisor below this rounds to zero at five decimal places.
pub const SMALLEST_DIVISOR: u128 = 5_000;

/// No component of a projected state exceeds this.
pub const PROJECTED_LIMIT: i64 = 2_000_010_000;

/// The outer product of a basis vector with itself: the projector onto its
/// direction.
pub open spec fn projector(v: Vector2) -> Seq<Seq<int>> {
    seq![
        seq![fixed_mul(v.x as int, v.x as int), fixed_mul(v.x as int, v.y as int)],
        seq![fixed_mul(v.y as int, v.x as int), fixed_mul(v.y as int, v.y as int)],
    ]
}

/// The projector of the whole register for an outcome of qubit `index`: the
/// tensor product with the projector onto `v` at `index` and the identity
/// at every other qubit.  An index past the last qubit projects nothing
/// away.
pub open spec fn joint_projector(v: Vector2, dim: nat, index: nat) -> Seq<Seq<int>> {
    if index < log2(dim) {
        embedded(projector(v), dim, qubit_weight(log2(dim), index))
    } else {
        identity(dim)
    }
}

/// The state projected onto the outcome that `v` stands for.
pub open spec fn projected(v: Vector2, index: nat, state: Seq<int>) -> Seq<int> {
    mat_vec(joint_projector(v, state.len(), index), state)
}

/// The probability of the outcome that `north` stands for, in units of the
/// square of one.
pub open spec fn probability(north: Vector2, index: nat, state: Seq<int>) -> int {
    norm_sq(projected(north, index, state))
}

/// The probability rounded to five decimal places, as a number of
/// probability steps, and no more than certainty.
pub open spec fn probability_steps(north: Vector2, index: nat, state: Seq<int>) -> int {
    let steps = quantize(probability(north, index, state));
    if steps > PROBABILITY_STEPS {
        PROBABILITY_STEPS as int
    } else {
        steps
    }
}

/// The square of the divisor that renormalises the state after an outcome
/// where true has probability `p`: `p` itself after true, what is left to
/// one after false.
pub open spec fn divisor_squared(p: int, outcome: bool) -> int {
    if outcome {
        p
    } else if p < ONE_SQUARED {
        ONE_SQUARED - p
    } else {
        0
    }
}

/// Each component divided by the divisor.
pub open spec fn renormalised(u: Seq<int>, divisor: int) -> Seq<int> {
    Seq::new(u.len(), |i: int| round_div(u[i] * ONE, divisor))
}

/// What a measurement of qubit `index` with the given outcome makes of a
/// state: the projection onto the outcome, divided by the square root of
/// the outcome's probability.  A divisor that rounds to zero and a result
/// whose squared norm is not one are errors.
pub open spec fn collapse_result(
    pair: (Vector2, Vector2),
    index: nat,
    state: Seq<int>,
    outcome: bool,
) -> Result<Seq<int>, QuantumError> {
    let p = probability(pair.0, index, state);
    let divisor = isqrt(divisor_squared(p, outcome));
    let unnormalised = projected(
        if outcome {
            pair.0
        } else {
            pair.1
        },
        index,
        state,
    );
    let after = renormalised(unnormalised, divisor);
    if divisor < SMALLEST_DIVISOR {
        Err(QuantumError::DegenerateCollapse)
    } else if !unit_norm(after) {
        Err(QuantumError::InvariantViolation)
    } else {
        Ok(after)
    }
}

/// Whether every component of `v` is within the limit of projected states.
pub open spec fn within_projected_limit(v: Seq<int>) -> bool {
    forall|i: int| 0 <= i < v.len() ==> abs(#[trigger] v[i]) <= PROJECTED_LIMIT
}

/// No entry of the projector onto a unit vector exceeds one.
pub proof fn lemma_projector_within(v: Vector2)
    requires
        is_unit(v),
    ensures
        is_square(projector(v), 2),
        entries_within(projector(v), ONE as int),
{
    lemma_unit_components(v);
    let x = v.x as int;
    let y = v.y as int;
    assert(abs(x * x) <= 1 * 1_000_000_000_000_000_000 && abs(x * y) <= 1
        * 1_000_000_000_000_000_000 && abs(y * x) <= 1 * 1_000_000_000_000_000_000 && abs(y * y)
        <= 1 * 1_000_000_000_000_000_000) by (nonlinear_arith)
        requires
            abs(x) <= 1_000_000_000,
            abs(y) <= 1_000_000_000,
    ;
    lemma_round_div_magnitude(x * x, ONE as int, ONE as int);
    lemma_round_div_magnitude(x * y, ONE as int, ONE as int);
    lemma_round_div_magnitude(y * x, ONE as int, ONE as int);
    lemma_round_div_magnitude(y * y, ONE as int, ONE as int);
    let p = projector(v);
    assert forall|r: int, c: int| 0 <= r < 2 && 0 <= c < 2 implies abs(#[trigger] p[r][c])
        <= ONE by {
        assert(r == 0 || r == 1);
        assert(c == 0 || c == 1);
    }
}

/// Projects a state onto the outcome of qubit `index` that `v` stands for:
/// builds the projector of the whole register and applies it.
pub(crate) fn project(v: Vector2, index: usize, qubits: usize, state: &Vec<i64>) -> (out: Vec<i64>)
    requires
        is_unit(v),
        qubits <= MAX_QUBITS,
        state.len() == pow2(qubits as nat),
        within_limit(ints(state@)),
    ensures
        ints(out@) == projected(v, index as nat, ints(state@)),
        within_projected_limit(ints(out@)),
        out.len() == state.len(),
{
    let ghost s = ints(state@);
    let ghost dim = state.len() as nat;
    proof {
        lemma_log2_pow2(qubits as nat);
    }
    if index >= qubits {
        let out = copy_of(state);
        proof {
            let want = projected(v, index as nat, s);
            assert forall|r: int| 0 <= r < dim implies #[trigger] ints(out@)[r] == want[r] by {
                lemma_identity_row(s, r);
                let x = s[r];
                assert(ONE as int * x == x * ONE as int) by (nonlinear_arith);
                lemma_round_div_exact(x, ONE as int);
            }
            assert(ints(out@) =~= want);
            assert forall|i: int| 0 <= i < out.len() implies abs(#[trigger] ints(out@)[i])
                <= PROJECTED_LIMIT by {
                assert(abs(s[i]) <= AMPLITUDE_LIMIT);
            }
        }
        return out;
    }
    proof {
        lemma_unit_components(v);
        lemma_projector_within(v);
        lemma_pow2_step(0);
        lemma_joint_dim(index as nat, 1, qubits as nat);
    }
    let p = grid2(
        fixed_mul_i64(v.x, v.x),
        fixed_mul_i64(v.x, v.y),
        fixed_mul_i64(v.y, v.x),
        fixed_mul_i64(v.y, v.y),
    );
    assert(grid(p@) =~~= projector(v));
    let rows = embed(&p, index, qubits - 1 - index);
    let ghost low = pow2((qubits - 1 - index) as nat);
    let ghost blocks = pow2(index as nat);
    let ghost joint = embedded(projector(v), dim, low);
    let ghost want = projected(v, index as nat, s);
    proof {
        lemma_pow2_step((qubits - 1 - index) as nat);
        assert(dim == blocks * (2 * low)) by (nonlinear_arith)
            requires
                dim == blocks * 2 * low,
        ;
        lemma_embedded_within(projector(v), dim, low, ONE as int);
        assert(want == mat_vec(joint, s));
        vstd::arithmetic::power2::lemma2_to64();
        crate::tensor::lemma_pow2_monotonic(qubits as nat, 32);
    }
    let mut out: Vec<i64> = Vec::new();
    let mut r: usize = 0;
    while r < rows.len()
        invariant
            r <= rows.len(),
            rows.len() == dim,
            state.len() == dim,
            dim <= 0x1_0000_0000,
            s == ints(state@),
            low > 0,
            dim == blocks * (2 * low),
            grid(rows@) == joint,
            joint == embedded(projector(v), dim, low),
            is_square(joint, dim),
            is_square(projector(v), 2),
            entries_within(joint, ONE as int),
            entries_within(projector(v), ONE as int),
            within_limit(s),
            want == mat_vec(joint, s),
            out.len() == r,
            forall|k: int| 0 <= k < r ==> #[trigger] out@[k] as int == want[k],
            forall|k: int| 0 <= k < r ==> abs(#[trigger] out@[k] as int) <= PROJECTED_LIMIT,
        decreases rows.len() - r,
    {
        let row = &rows[r];
        proof {
            assert(ints(row@) == joint[r as int]);
            assert(joint[r as int].len() == dim);
            assert forall|i: int| 0 <= i < row.len() implies abs(#[trigger] ints(row@)[i])
                <= ONE by {
                assert(abs(joint[r as int][i]) <= ONE);
            }
            assert(row.len() * (ONE as int * AMPLITUDE_LIMIT as int)
                <= 0x2000_0000_0000_0000_0000_0000_0000_0000) by (nonlinear_arith)
                requires
                    row.len() <= 0x1_0000_0000,
                    ONE == 1_000_000_000,
                    AMPLITUDE_LIMIT == 1_000_005_000,
            ;
        }
        let d = dot_i128(row, state, Ghost(ONE as int), Ghost(AMPLITUDE_LIMIT as int));
        proof {
            lemma_embedded_row(projector(v), blocks, low, s, r as int);
            let b = block_index(r as int, 2, low as int);
            let i0 = with_block(r as int, 0, 2, low as int);
            let i1 = with_block(r as int, 1, 2, low as int);
            let f0 = projector(v)[b][0];
            let f1 = projector(v)[b][1];
            let v0 = s[i0];
            let v1 = s[i1];
            assert(abs(f0) <= ONE && abs(f1) <= ONE);
            assert(abs(v0) <= AMPLITUDE_LIMIT && abs(v1) <= AMPLITUDE_LIMIT);
            assert(abs(f0 * v0 + f1 * v1) <= 2_000_010_000 * 1_000_000_000) by (nonlinear_arith)
                requires
                    abs(f0) <= 1_000_000_000,
                    abs(f1) <= 1_000_000_000,
                    abs(v0) <= 1_000_005_000,
                    abs(v1) <= 1_000_005_000,
            ;
            lemma_round_div_magnitude(d as int, ONE as int, 2_000_010_000);
        }
        let q = round_div_i128(d, ONE as i128);
        out.push(q as i64);
        r += 1;
    }
    assert(ints(out@) =~= want);
    out
}

/// The squared norm of a projected state.
pub(crate) fn squared_norm_projected(v: &Vec<i64>) -> (s: i128)
    requires
        within_projected_limit(ints(v@)),
        v.len() <= 0x1_0000_0000,
    ensures
        s == norm_sq(ints(v@)),
        0 <= s <= 0x1_0000_0000 * (PROJECTED_LIMIT * PROJECTED_LIMIT),
{
    proof {
        assert(v.len() * (PROJECTED_LIMIT as int * PROJECTED_LIMIT as int) <= 0x1_0000_0000 * (
        PROJECTED_LIMIT * PROJECTED_LIMIT)) by (nonlinear_arith)
            requires
                v.len() <= 0x1_0000_0000,
                PROJECTED_LIMIT == 2_000_010_000,
        ;
        lemma_squares_nonneg(ints(v@));
        lemma_sum_prefix(prod_term(ints(v@), ints(v@)), 0, v.len() as nat);
    }
    dot_i128(v, v, Ghost(PROJECTED_LIMIT as int), Ghost(PROJECTED_LIMIT as int))
}

/// Rounds a probability to five decimal places and caps it at certainty.
pub(crate) fn steps_of(p: i128) -> (steps: u32)
    requires
        0 <= p <= 0x1_0000_0000 * (PROJECTED_LIMIT * PROJECTED_LIMIT),
    ensures
        steps == (if quantize(p as int) > PROBABILITY_STEPS {
            PROBABILITY_STEPS as int
        } else {
            quantize(p as int)
        }),
        steps <= PROBABILITY_STEPS,
{
    let q = round_div_i128(p, NORM_QUANTUM);
    proof {
        crate::fixed::lemma_round_div_bounds(p as int, NORM_QUANTUM as int);
    }
    if q > PROBABILITY_STEPS as i128 {
        PROBABILITY_STEPS
    } else {
        q as u32
    }
}

/// Divides a projected state by the square root of `squared`.  Fails where
/// the root rounds to zero, and where a quotient leaves the range of
/// amplitudes, in which case the squared norm cannot be one.
pub(crate) fn renormalise(u: &Vec<i64>, squared: u128) -> (r: Result<Vec<i64>, QuantumError>)
    requires
        within_projected_limit(ints(u@)),
    ensures
        match r {
            Ok(after) => {
                &&& isqrt(squared as int) >= SMALLEST_DIVISOR
                &&& ints(after@) == renormalised(ints(u@), isqrt(squared as int))
                &&& within_limit(ints(after@))
            },
            Err(e) => {
                &&& e == (if isqrt(squared as int) < SMALLEST_DIVISOR {
                    QuantumError::DegenerateCollapse
                } else {
                    QuantumError::InvariantViolation
                })
                &&& isqrt(squared as int) >= SMALLEST_DIVISOR ==> !within_limit(
                    renormalised(ints(u@), isqrt(squared as int)),
                )
            },
        },
{
    let divisor = isqrt_u128(squared);
    if divisor < SMALLEST_DIVISOR {
        return Err(QuantumError::DegenerateCollapse);
    }
    let ghost want = renormalised(ints(u@), divisor as int);
    let mut after: Vec<i64> = Vec::new();
    let mut i: usize = 0;
    while i < u.len()
        invariant
            i <= u.len(),
            5_000 <= divisor < 0x1_0000_0000_0000_0000,
            divisor == isqrt(squared as int),
            within_projected_limit(ints(u@)),
            want == renormalised(ints(u@), divisor as int),
            after.len() == i,
            forall|k: int| 0 <= k < i ==> #[trigger] after@[k] as int == want[k],
            forall|k: int| 0 <= k < i ==> abs(#[trigger] after@[k] as int) <= AMPLITUDE_LIMIT,
        decreases u.len() - i,
    {
        let x = u[i];
        proof {
            assert(abs(ints(u@)[i as int]) <= PROJECTED_LIMIT);
            assert(abs(x as int * ONE as int) <= 2_000_010_000 * 1_000_000_000) by (nonlinear_arith)
                requires
                    abs(x as int) <= 2_000_010_000,
                    ONE == 1_000_000_000,
            ;
        }
        let q = round_div_i128((x as i128) * (ONE as i128), divisor as i128);
        if q > AMPLITUDE_LIMIT as i128 || q < -(AMPLITUDE_LIMIT as i128) {
            proof {
                assert(want[i as int] == q);
                assert(!within_limit(want));
            }
            return Err(QuantumError::InvariantViolation);
        }
        after.push(q as i64);
        i += 1;
    }
    assert(ints(after@) =~= want);
    Ok(after)
}

/// A quotient of the renormalisation, squared, is short of the exact one
/// by no more than the rounding of one component.
proof fn lemma_renormalised_term(w: int, a: int, d: int)
    requires
        d > 0,
        a == round_div(w * ONE, d),
    ensures
        (d * d) * (a * a) >= (ONE * ONE) * (w * w) - (ONE * d) * abs(w),
{
    crate::fixed::lemma_round_div_bounds(w * ONE, d);
    let s = ONE as int;
    let big = abs(w) * s;
    let da = d * abs(a);
    assert(2 * da >= 2 * big - d) by (nonlinear_arith)
        requires
            -d <= 2 * (d * a) - 2 * (w * s) <= d,
            big == abs(w) * s,
            da == d * abs(a),
            d > 0,
            s > 0,
    ;
    assert(da * da >= big * big - big * d) by (nonlinear_arith)
        requires
            2 * da >= 2 * big - d,
            da >= 0,
            big >= 0,
            d > 0,
    ;
    assert(da * da == (d * d) * (a * a)) by (nonlinear_arith)
        requires
            da == d * abs(a),
    ;
    assert(big * big == (s * s) * (w * w) && big * d == (s * d) * abs(w)) by (nonlinear_arith)
        requires
            big == abs(w) * s,
    ;
}

/// The sums of the squares of the quotients, of the squares of the
/// dividends and of the magnitudes of the dividends, over the first `k`
/// components.
proof fn lemma_renormalised_sums(w: Seq<int>, d: int, k: nat)
    requires
        d > 0,
        k <= w.len(),
    ensures
        (d * d) * sum(prod_term(renormalised(w, d), renormalised(w, d)), k) >= (ONE * ONE) * sum(
            prod_term(w, w),
            k,
        ) - (ONE * d) * sum(abs_term(w), k),
    decreases k,
{
    let a = renormalised(w, d);
    if k == 0 {
        assert((d * d) * 0 == 0 && (ONE * ONE) * 0int == 0 && (ONE * d) * 0 == 0)
            by (nonlinear_arith);
    } else {
        let m = (k - 1) as nat;
        lemma_renormalised_sums(w, d, m);
        lemma_renormalised_term(w[k - 1], a[k - 1], d);
        let sa = sum(prod_term(a, a), m);
        let sw = sum(prod_term(w, w), m);
        let sl = sum(abs_term(w), m);
        let ta = a[k - 1] * a[k - 1];
        let tw = w[k - 1] * w[k - 1];
        let tl = abs(w[k - 1]);
        assert(prod_term(a, a)(k - 1) == ta);
        assert(prod_term(w, w)(k - 1) == tw);
        assert(abs_term(w)(k - 1) == tl);
        let dd = d * d;
        let ss = ONE as int * ONE as int;
        let sd = ONE as int * d;
        assert(dd * (sa + ta) >= ss * (sw + tw) - sd * (sl + tl)) by (nonlinear_arith)
            requires
                dd * sa >= ss * sw - sd * sl,
                dd * ta >= ss * tw - sd * tl,
        ;
    }
}

/// Dividing a vector by the root of its own squared norm gives a vector
/// whose squared norm is not short of one by more than the rounding of the
/// quotients, which half a probability step covers for every register.
pub proof fn lemma_renormalised_norm(w: Seq<int>)
    requires
        w.len() <= 0x100_0000,
        isqrt(norm_sq(w)) >= SMALLEST_DIVISOR,
    ensures
        norm_sq(renormalised(w, isqrt(norm_sq(w)))) >= ONE_SQUARED - NORM_QUANTUM / 2,
{
    let pp = norm_sq(w);
    let d = isqrt(pp);
    let a = renormalised(w, d);
    let n = w.len();
    lemma_squares_nonneg(w);
    lemma_sum_prefix(prod_term(w, w), 0, n);
    crate::fixed::lemma_isqrt(pp);
    crate::sums::lemma_sum_of_magnitudes(w, n);
    lemma_renormalised_sums(w, d, n);
    let l = sum(abs_term(w), n);
    let x = norm_sq(a);
    assert(a.len() == n);
    assert(l <= 4096 * (d + 1)) by (nonlinear_arith)
        requires
            0 <= l,
            l * l <= n * pp,
            n <= 4096 * 4096,
            0 <= pp,
            pp < (d + 1) * (d + 1),
            d >= 0,
    ;
    let ss = ONE as int * ONE as int;
    let sd = ONE as int * d;
    assert(ss == 1_000_000_000_000_000_000 && sd == 1_000_000_000 * d) by (nonlinear_arith)
        requires
            ss == ONE as int * ONE as int,
            sd == ONE as int * d,
            ONE == 1_000_000_000,
    ;
    assert((d * d) * x >= (d * d) * (1_000_000_000_000_000_000 - 4_097_000_000_000))
        by (nonlinear_arith)
        requires
            (d * d) * x >= ss * pp - sd * l,
            ss == 1_000_000_000_000_000_000,
            sd == 1_000_000_000 * d,
            d * d <= pp,
            l <= 4096 * (d + 1),
            d >= 5_000,
    ;
    assert(x >= 1_000_000_000_000_000_000 - 4_097_000_000_000) by (nonlinear_arith)
        requires
            (d * d) * x >= (d * d) * (1_000_000_000_000_000_000 - 4_097_000_000_000),
            d >= 5_000,
    ;
}

/// Dividing a vector of unit norm by a divisor whose square is within the
/// tolerance of the norm gives a vector that is far too long.
pub proof fn lemma_renormalised_excess(w: Seq<int>, d: int)
    requires
        w.len() <= 0x100_0000,
        unit_norm(w),
        SMALLEST_DIVISOR <= d,
        d * d <= NORM_TOLERANCE,
    ensures
        !unit_norm(renormalised(w, d)),
{
    let pp = norm_sq(w);
    let a = renormalised(w, d);
    let n = w.len();
    crate::sums::lemma_sum_of_magnitudes(w, n);
    lemma_renormalised_sums(w, d, n);
    let l = sum(abs_term(w), n);
    let x = norm_sq(a);
    assert(a.len() == n);
    assert(l <= 4_096_020_480_000) by (nonlinear_arith)
        requires
            0 <= l,
            l * l <= n * pp,
            n <= 4096 * 4096,
            0 <= pp <= 1_000_010_000_000_000_000,
    ;
    assert(d <= 3_162_278) by (nonlinear_arith)
        requires
            d * d <= 10_000_000_000_000,
            d >= 0,
    ;
    let ss = ONE as int * ONE as int;
    let sd = ONE as int * d;
    assert(ss == 1_000_000_000_000_000_000 && sd == 1_000_000_000 * d) by (nonlinear_arith)
        requires
            ss == ONE as int * ONE as int,
            sd == ONE as int * d,
            ONE == 1_000_000_000,
    ;
    assert(x > 1_000_010_000_000_000_000) by (nonlinear_arith)
        requires
            (d * d) * x >= ss * pp - sd * l,
            ss == 1_000_000_000_000_000_000,
            sd == 1_000_000_000 * d,
            0 <= l <= 4_096_020_480_000,
            5_000 <= d <= 3_162_278,
            d * d <= 10_000_000_000_000,
            pp >= 999_990_000_000_000_000,
    ;
}

} // verus!
