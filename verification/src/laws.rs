//! What holds of every operator that the library builds and of every
//! register, whatever the inputs.

use vstd::prelude::*;
use vstd::arithmetic::power2::pow2;
use crate::basis::is_sharp;
use crate::entangled_particle_n::valid_dimension;
use crate::error::QuantumError;
use crate::fixed::{
    abs, AMPLITUDE_LIMIT, FRAC_1_SQRT_2, isqrt, lemma_fixed_mul_unit, lemma_isqrt_at_least,
    lemma_round_div_bounds, lemma_round_div_exact, lemma_round_div_monotonic, NORM_QUANTUM, ONE,
    ONE_SQUARED, PROBABILITY_STEPS, round_div,
};
use crate::gates::{
    cnot_block, is_power_of_two, lemma_joint_dim, log2, qubit_weight, SingleInputGate,
    TwoInputGate,
};
use crate::matrix::{gram, identity, is_orthogonal, is_square, mat_vec};
use crate::measurement::{
    collapse_result, divisor_squared, joint_projector, lemma_renormalised_excess,
    lemma_renormalised_norm, probability, probability_steps, projected, projector, renormalised,
    SMALLEST_DIVISOR,
};
use crate::norm::{quantize, unit_norm, within_limit};
use crate::random::draw_allowed;
use crate::sums::{lemma_dot_zero, lemma_squares_nonneg, lemma_sum_prefix, norm_sq, prod_term};
use crate::tensor::{
    block_index, factors_with, is_permutation_matrix, lemma_embedded_gram,
    lemma_embedded_permutation_gram, lemma_embedded_row, lemma_identity_gram, lemma_identity_row,
    lemma_index_unique, lemma_pow2_monotonic, lemma_pow2_step, lemma_tensor_product_embedded,
    lemma_tensor_product_identity, lemma_with_block, same_outside, tensor_product, with_block,
};
use crate::utils::Vector2;

verus! {

/// What applying an operator makes of a state: the product, or the state
/// itself where the squared norm of the product is not one.
pub open spec fn applied(matrix: Seq<Seq<int>>, state: Seq<int>) -> Seq<int> {
    if unit_norm(mat_vec(matrix, state)) {
        mat_vec(matrix, state)
    } else {
        state
    }
}

/// What applying operators one after the other makes of a state.
pub open spec fn applied_all(matrices: Seq<Seq<Seq<int>>>, state: Seq<int>) -> Seq<int>
    decreases matrices.len(),
{
    if matrices.len() == 0 {
        state
    } else {
        applied(matrices.last(), applied_all(matrices.drop_last(), state))
    }
}

/// After any sequence of operators, the squared norm is still within a
/// hundred-thousandth of one.
pub proof fn lemma_norm_kept(matrices: Seq<Seq<Seq<int>>>, state: Seq<int>)
    requires
        unit_norm(state),
    ensures
        unit_norm(applied_all(matrices, state)),
        abs(norm_sq(applied_all(matrices, state)) - ONE_SQUARED) <= ONE_SQUARED / 100_000,
    decreases matrices.len(),
{
    if matrices.len() > 0 {
        lemma_norm_kept(matrices.drop_last(), state);
    }
}

/// The operator on one qubit of a register is the tensor product, taken
/// from qubit 0 on, of the identity on every other qubit and the two by two
/// matrix on that one.
pub proof fn lemma_single_input_tensor_product(kind: SingleInputGate, dim: nat, index: nat)
    requires
        is_power_of_two(dim),
    ensures
        kind.joint(dim, index) == tensor_product(factors_with(kind.local(), log2(dim), index)),
{
    let n = log2(dim);
    if index < n {
        lemma_pow2_step(0);
        lemma_joint_dim(index, 1, n);
        lemma_tensor_product_embedded(kind.local(), n, index);
    } else {
        lemma_tensor_product_identity(kind.local(), n, index);
    }
}

/// The operator on two neighbouring qubits is the tensor product of the
/// identity on every other qubit and the four by four block on the pair.
pub proof fn lemma_two_input_tensor_product(kind: TwoInputGate, dim: nat, control: nat, target: nat)
    requires
        is_power_of_two(dim),
        control + 1 == target || target + 1 == control,
        control < log2(dim),
        target < log2(dim),
    ensures
        kind.joint(dim, control, target) == tensor_product(
            factors_with(
                cnot_block(control < target),
                (log2(dim) - 1) as nat,
                if control < target {
                    control
                } else {
                    target
                },
            ),
        ),
{
    let n = log2(dim);
    let first = if control < target {
        control
    } else {
        target
    };
    lemma_pow2_step(0);
    lemma_pow2_step(1);
    lemma_joint_dim(first, 2, n);
    lemma_tensor_product_embedded(cnot_block(control < target), (n - 1) as nat, first);
}

/// The projector of an outcome is built as the operators are: it is the
/// tensor product, taken from qubit 0 on, of the identity on every other
/// qubit and the two by two projector on the measured one.
pub proof fn lemma_projector_tensor_product(v: Vector2, dim: nat, index: nat)
    requires
        is_power_of_two(dim),
    ensures
        joint_projector(v, dim, index) == tensor_product(
            factors_with(projector(v), log2(dim), index),
        ),
{
    let n = log2(dim);
    if index < n {
        lemma_pow2_step(0);
        lemma_joint_dim(index, 1, n);
        lemma_tensor_product_embedded(projector(v), n, index);
    } else {
        lemma_tensor_product_identity(projector(v), n, index);
    }
}

/// The columns of an operator on one qubit are at right angles exactly,
/// and their squared length is within this of one: a billionth.
pub const GRAM_TOLERANCE: i128 = 1_000_000_000;

/// Every operator on one qubit is `dim` by `dim`, for `dim` a power of two,
/// and orthogonal: its transpose times itself is the identity, up to the
/// rounding of one over the square root of two.
pub proof fn lemma_single_input_orthogonal(kind: SingleInputGate, dim: nat, index: nat)
    requires
        is_power_of_two(dim),
    ensures
        is_square(kind.joint(dim, index), dim),
        is_orthogonal(kind.joint(dim, index), GRAM_TOLERANCE as int),
{
    let m = kind.joint(dim, index);
    let n = log2(dim);
    if index < n {
        let low = qubit_weight(n, index);
        let blocks = pow2(index);
        let f = kind.local();
        lemma_pow2_step(0);
        lemma_pow2_step((n - 1 - index) as nat);
        lemma_joint_dim(index, 1, n);
        assert(dim == blocks * (2 * low)) by (nonlinear_arith)
            requires
                dim == blocks * 2 * low,
        ;
        assert(is_square(f, 2));
        assert(FRAC_1_SQRT_2 == 707_106_781);
        assert forall|i: int, j: int| 0 <= i < m.len() && 0 <= j < m.len() implies abs(
            #[trigger] gram(m, i, j) - (if i == j {
                ONE_SQUARED as int
            } else {
                0
            }),
        ) <= GRAM_TOLERANCE by {
            lemma_embedded_gram(f, blocks, low, i, j);
            let bi = block_index(i, 2, low as int);
            let bj = block_index(j, 2, low as int);
            if same_outside(i, j, 2, low as int) {
                if bi == bj {
                    lemma_index_unique(i, j, 2, low as int);
                }
                lemma_local_gram(kind);
            }
        }
    } else {
        assert forall|i: int, j: int| 0 <= i < m.len() && 0 <= j < m.len() implies abs(
            #[trigger] gram(m, i, j) - (if i == j {
                ONE_SQUARED as int
            } else {
                0
            }),
        ) <= GRAM_TOLERANCE by {
            lemma_identity_gram(dim, i, j);
        }
    }
}

/// The two by two matrices of the operators on one qubit are orthogonal.
proof fn lemma_local_gram(kind: SingleInputGate)
    ensures
        ({
            let f = kind.local();
            &&& f[0][0] * f[0][1] + f[1][0] * f[1][1] == 0
            &&& f[0][1] * f[0][0] + f[1][1] * f[1][0] == 0
            &&& abs(f[0][0] * f[0][0] + f[1][0] * f[1][0] - ONE_SQUARED) <= GRAM_TOLERANCE
            &&& abs(f[0][1] * f[0][1] + f[1][1] * f[1][1] - ONE_SQUARED) <= GRAM_TOLERANCE
        }),
{
    let f = kind.local();
    let a = f[0][0];
    let b = f[0][1];
    let c = f[1][0];
    let d = f[1][1];
    match kind {
        SingleInputGate::X => {
            assert(a == 0 && b == 1_000_000_000 && c == 1_000_000_000 && d == 0);
        },
        SingleInputGate::Z => {
            assert(a == 1_000_000_000 && b == 0 && c == 0 && d == -1_000_000_000);
        },
        SingleInputGate::Y => {
            assert(a == 0 && b == 1_000_000_000 && c == -1_000_000_000 && d == 0);
        },
        SingleInputGate::Hadamard => {
            assert(a == 707_106_781 && b == 707_106_781 && c == 707_106_781 && d
                == -707_106_781);
        },
    }
    assert(a * b + c * d == 0 && b * a + d * c == 0 && abs(
        a * a + c * c - 1_000_000_000_000_000_000,
    ) <= 1_000_000_000 && abs(b * b + d * d - 1_000_000_000_000_000_000) <= 1_000_000_000)
        by (nonlinear_arith)
        requires
            (a == 0 && b == 1_000_000_000 && c == 1_000_000_000 && d == 0) || (a == 1_000_000_000
                && b == 0 && c == 0 && d == -1_000_000_000) || (a == 0 && b == 1_000_000_000 && c
                == -1_000_000_000 && d == 0) || (a == 707_106_781 && b == 707_106_781 && c
                == 707_106_781 && d == -707_106_781),
    ;
}

/// The row in which each column of the controlled NOT's block has its one.
pub open spec fn cnot_row(control_first: bool) -> spec_fn(int) -> int {
    |c: int|
        if control_first {
            if c == 2 {
                3
            } else if c == 3 {
                2
            } else {
                c
            }
        } else {
            if c == 0 {
                1
            } else if c == 1 {
                0
            } else {
                c
            }
        }
}

/// Every operator on two neighbouring qubits is `dim` by `dim`, for `dim` a
/// power of two, and orthogonal, exactly: it permutes the amplitudes.
pub proof fn lemma_two_input_orthogonal(kind: TwoInputGate, dim: nat, control: nat, target: nat)
    requires
        is_power_of_two(dim),
        control + 1 == target || target + 1 == control,
        control < log2(dim),
        target < log2(dim),
    ensures
        is_square(kind.joint(dim, control, target), dim),
        is_orthogonal(kind.joint(dim, control, target), 0),
{
    let m = kind.joint(dim, control, target);
    let n = log2(dim);
    let first = if control < target {
        control
    } else {
        target
    };
    let low = pow2((n - 2 - first) as nat);
    let blocks = pow2(first);
    let f = cnot_block(control < target);
    let sigma = cnot_row(control < target);
    lemma_pow2_step(0);
    lemma_pow2_step(1);
    lemma_pow2_step((n - 2 - first) as nat);
    lemma_joint_dim(first, 2, n);
    assert(dim == blocks * (f.len() * low)) by (nonlinear_arith)
        requires
            dim == blocks * 4 * low,
            f.len() == 4,
    ;
    assert(is_permutation_matrix(f, sigma)) by {
        assert(is_square(f, 4));
        assert forall|a: int, c: int| 0 <= a < 4 && 0 <= c < 4 implies #[trigger] f[a][c] == (if a
            == sigma(c) {
            ONE as int
        } else {
            0
        }) by {
            assert(a == 0 || a == 1 || a == 2 || a == 3);
            assert(c == 0 || c == 1 || c == 2 || c == 3);
        }
    }
    assert forall|i: int, j: int| 0 <= i < m.len() && 0 <= j < m.len() implies abs(
        #[trigger] gram(m, i, j) - (if i == j {
            ONE_SQUARED as int
        } else {
            0
        }),
    ) <= 0 by {
        lemma_embedded_permutation_gram(f, sigma, blocks, low, i, j);
        assert(ONE as int * ONE as int == ONE_SQUARED) by (nonlinear_arith)
            requires
                ONE == 1_000_000_000,
                ONE_SQUARED == 1_000_000_000_000_000_000,
        ;
    }
}

/// The identity leaves every vector as it is.
pub proof fn lemma_identity_applied(v: Seq<int>)
    ensures
        mat_vec(identity(v.len()), v) == v,
{
    let w = mat_vec(identity(v.len()), v);
    assert forall|r: int| 0 <= r < v.len() implies #[trigger] w[r] == v[r] by {
        lemma_identity_row(v, r);
        let x = v[r];
        assert(ONE as int * x == x * ONE as int) by (nonlinear_arith);
        lemma_round_div_exact(x, ONE as int);
    }
    assert(w =~= v);
}

/// Two rounded Hadamard steps on a pair of amplitudes bring each back to
/// within one unit of itself.
proof fn lemma_hadamard_pair(v0: int, v1: int)
    requires
        abs(v0) <= AMPLITUDE_LIMIT,
        abs(v1) <= AMPLITUDE_LIMIT,
    ensures
        ({
            let w0 = round_div(707_106_781 * v0 + 707_106_781 * v1, 1_000_000_000);
            let w1 = round_div(707_106_781 * v0 + (-707_106_781) * v1, 1_000_000_000);
            let u0 = round_div(707_106_781 * w0 + 707_106_781 * w1, 1_000_000_000);
            let u1 = round_div(707_106_781 * w0 + (-707_106_781) * w1, 1_000_000_000);
            &&& abs(u0 - v0) <= 1
            &&& abs(u1 - v1) <= 1
            &&& abs(w0) <= 2 * AMPLITUDE_LIMIT
            &&& abs(w1) <= 2 * AMPLITUDE_LIMIT
        }),
{
    let w0 = round_div(707_106_781 * v0 + 707_106_781 * v1, 1_000_000_000);
    let w1 = round_div(707_106_781 * v0 + (-707_106_781) * v1, 1_000_000_000);
    let u0 = round_div(707_106_781 * w0 + 707_106_781 * w1, 1_000_000_000);
    let u1 = round_div(707_106_781 * w0 + (-707_106_781) * w1, 1_000_000_000);
    lemma_round_div_bounds(707_106_781 * v0 + 707_106_781 * v1, 1_000_000_000);
    lemma_round_div_bounds(707_106_781 * v0 + (-707_106_781) * v1, 1_000_000_000);
    lemma_round_div_bounds(707_106_781 * w0 + 707_106_781 * w1, 1_000_000_000);
    lemma_round_div_bounds(707_106_781 * w0 + (-707_106_781) * w1, 1_000_000_000);
}

/// Applying the Hadamard operator on one qubit twice brings every
/// amplitude back to within one unit of the last decimal place.
pub proof fn lemma_hadamard_twice(dim: nat, index: nat, state: Seq<int>)
    requires
        is_power_of_two(dim),
        state.len() == dim,
        within_limit(state),
    ensures
        ({
            let h = SingleInputGate::Hadamard.joint(dim, index);
            let twice = mat_vec(h, mat_vec(h, state));
            &&& twice.len() == dim
            &&& forall|i: int| 0 <= i < dim ==> abs(#[trigger] twice[i] - state[i]) <= 1
        }),
{
    let h = SingleInputGate::Hadamard.joint(dim, index);
    let once = mat_vec(h, state);
    let twice = mat_vec(h, once);
    let n = log2(dim);
    if index < n {
        let low = qubit_weight(n, index);
        let lw = low as int;
        let blocks = pow2(index);
        let f = SingleInputGate::Hadamard.local();
        lemma_pow2_step(0);
        lemma_pow2_step((n - 1 - index) as nat);
        lemma_joint_dim(index, 1, n);
        assert(dim == blocks * (2 * low)) by (nonlinear_arith)
            requires
                dim == blocks * 2 * low,
        ;
        assert(is_square(f, 2));
        assert(FRAC_1_SQRT_2 == 707_106_781 && ONE == 1_000_000_000);
        assert forall|i: int| 0 <= i < dim implies abs(#[trigger] twice[i] - state[i]) <= 1 by {
            let p = with_block(i, 0, 2, lw);
            let q = with_block(i, 1, 2, lw);
            let b = block_index(i, 2, lw);
            lemma_embedded_row(f, blocks, low, once, i);
            lemma_embedded_row(f, blocks, low, state, p);
            lemma_embedded_row(f, blocks, low, state, q);
            lemma_with_block(i, 0, 2, lw);
            lemma_with_block(i, 1, 2, lw);
            lemma_with_block(p, 0, 2, lw);
            lemma_with_block(p, 1, 2, lw);
            lemma_with_block(q, 0, 2, lw);
            lemma_with_block(q, 1, 2, lw);
            assert(with_block(p, 0, 2, lw) == p && with_block(p, 1, 2, lw) == q);
            assert(with_block(q, 0, 2, lw) == p && with_block(q, 1, 2, lw) == q);
            let v0 = state[p];
            let v1 = state[q];
            assert(abs(v0) <= AMPLITUDE_LIMIT && abs(v1) <= AMPLITUDE_LIMIT);
            lemma_hadamard_pair(v0, v1);
            assert(once[p] == round_div(707_106_781 * v0 + 707_106_781 * v1, 1_000_000_000));
            assert(once[q] == round_div(707_106_781 * v0 + (-707_106_781) * v1, 1_000_000_000));
        }
    } else {
        lemma_identity_applied(state);
    }
}

/// An outcome that the draw of a measurement can have is never one whose
/// divisor rounds to zero: the outcome true is drawn only where its
/// probability rounds to a step at least, and false only where the
/// probability of true does not round to certainty.
pub proof fn lemma_drawn_outcome_not_degenerate(
    pair: (Vector2, Vector2),
    index: nat,
    state: Seq<int>,
    outcome: bool,
)
    requires
        draw_allowed(probability_steps(pair.0, index, state), PROBABILITY_STEPS as int, outcome),
    ensures
        collapse_result(pair, index, state, outcome) != Err::<Seq<int>, QuantumError>(
            QuantumError::DegenerateCollapse,
        ),
{
    let p = probability(pair.0, index, state);
    lemma_round_div_bounds(p, NORM_QUANTUM as int);
    lemma_round_div_exact(0, NORM_QUANTUM as int);
    let steps = quantize(p);
    if outcome {
        assert(steps != 0);
        if p < 5_000_000_000_000 {
            if p >= 0 {
                lemma_round_div_monotonic(p, 4_999_999_999_999, NORM_QUANTUM as int);
                assert(round_div(4_999_999_999_999, NORM_QUANTUM as int) == 0);
                lemma_round_div_monotonic(0, p, NORM_QUANTUM as int);
            } else {
                lemma_squares_nonneg(projected(pair.0, index, state));
                lemma_sum_prefix(
                    prod_term(
                        projected(pair.0, index, state),
                        projected(pair.0, index, state),
                    ),
                    0,
                    projected(pair.0, index, state).len(),
                );
            }
        }
        lemma_isqrt_at_least(divisor_squared(p, outcome), SMALLEST_DIVISOR as int);
    } else {
        assert(steps < PROBABILITY_STEPS);
        if p >= 999_995_000_000_000_000 {
            lemma_round_div_monotonic(999_995_000_000_000_000, p, NORM_QUANTUM as int);
            assert(round_div(999_995_000_000_000_000, NORM_QUANTUM as int) == 100_000);
        }
        lemma_isqrt_at_least(divisor_squared(p, outcome), SMALLEST_DIVISOR as int);
    }
}

/// The projectors of a pair whose first vector lies along an axis are
/// diagonal, and where the first keeps a component the second drops it.
proof fn lemma_sharp_projectors(pair: (Vector2, Vector2))
    requires
        is_sharp(pair.0),
        pair.0.x * pair.1.x + pair.0.y * pair.1.y == 0,
    ensures
        ({
            let north = projector(pair.0);
            let south = projector(pair.1);
            &&& is_square(north, 2)
            &&& is_square(south, 2)
            &&& north[0][1] == 0 && north[1][0] == 0
            &&& south[0][1] == 0 && south[1][0] == 0
            &&& (north[0][0] == ONE && north[1][1] == 0 && south[0][0] == 0) || (north[0][0] == 0
                && north[1][1] == ONE && south[1][1] == 0)
        }),
{
    let nx = pair.0.x as int;
    let ny = pair.0.y as int;
    let sx = pair.1.x as int;
    let sy = pair.1.y as int;
    lemma_fixed_mul_unit(nx);
    lemma_fixed_mul_unit(ny);
    lemma_fixed_mul_unit(sx);
    lemma_fixed_mul_unit(sy);
    lemma_fixed_mul_unit(0);
    lemma_round_div_exact(ONE as int, ONE as int);
    assert(ONE == 1_000_000_000);
    assert((-1_000_000_000) * (-1_000_000_000) == 1_000_000_000 * 1_000_000_000)
        by (nonlinear_arith);
    if ny == 0 {
        assert(nx * nx == ONE as int * ONE as int) by (nonlinear_arith)
            requires
                nx == 1_000_000_000 || nx == -1_000_000_000,
                ONE == 1_000_000_000,
        ;
        assert(sx == 0) by (nonlinear_arith)
            requires
                nx * sx + ny * sy == 0,
                ny == 0,
                nx == 1_000_000_000 || nx == -1_000_000_000,
        ;
    } else {
        assert(ny * ny == ONE as int * ONE as int) by (nonlinear_arith)
            requires
                ny == 1_000_000_000 || ny == -1_000_000_000,
                ONE == 1_000_000_000,
        ;
        assert(sy == 0) by (nonlinear_arith)
            requires
                nx * sx + ny * sy == 0,
                nx == 0,
                ny == 1_000_000_000 || ny == -1_000_000_000,
        ;
    }
}

/// The projection of a state by a diagonal projector scales each amplitude
/// by the diagonal entry of its bit.
proof fn lemma_projected_diagonal(v: Vector2, index: nat, state: Seq<int>, r: int)
    requires
        is_power_of_two(state.len()),
        index < log2(state.len()),
        is_square(projector(v), 2),
        projector(v)[0][1] == 0,
        projector(v)[1][0] == 0,
        0 <= r < state.len(),
    ensures
        ({
            let b = block_index(r, 2, qubit_weight(log2(state.len()), index) as int);
            &&& (b == 0 || b == 1)
            &&& projected(v, index, state)[r] == round_div(
                projector(v)[b][b] * state[r],
                ONE as int,
            )
        }),
{
    let dim = state.len();
    let n = log2(dim);
    let low = qubit_weight(n, index);
    let blocks = pow2(index);
    lemma_pow2_step(0);
    lemma_pow2_step((n - 1 - index) as nat);
    lemma_joint_dim(index, 1, n);
    assert(dim == blocks * (2 * low)) by (nonlinear_arith)
        requires
            dim == blocks * 2 * low,
    ;
    lemma_embedded_row(projector(v), blocks, low, state, r);
    let p = with_block(r, 0, 2, low as int);
    let q = with_block(r, 1, 2, low as int);
    let x = state[p];
    let y = state[q];
    assert(0 * x == 0 && 0 * y == 0) by (nonlinear_arith);
}

/// Measuring a qubit a second time, with no operator in between, gives the
/// outcome of the first measurement.  This is shown for a basis whose first
/// vector lies along an axis, as the standard basis does and every basis
/// turned by a multiple of a half turn of the apparatus: its projectors are
/// exact.  `second` is an outcome that the draw of the second measurement
/// may have.
pub proof fn lemma_repeated_measurement_along_axis(
    pair: (Vector2, Vector2),
    index: nat,
    state: Seq<int>,
    outcome: bool,
    second: bool,
)
    requires
        valid_dimension(state.len()),
        unit_norm(state),
        is_sharp(pair.0),
        pair.0.x * pair.1.x + pair.0.y * pair.1.y == 0,
        draw_allowed(probability_steps(pair.0, index, state), PROBABILITY_STEPS as int, outcome),
        collapse_result(pair, index, state, outcome) is Ok,
        draw_allowed(
            probability_steps(pair.0, index, collapse_result(pair, index, state, outcome)->Ok_0),
            PROBABILITY_STEPS as int,
            second,
        ),
    ensures
        second == outcome,
{
    let dim = state.len();
    let n = log2(dim);
    let after = collapse_result(pair, index, state, outcome)->Ok_0;
    let p = probability(pair.0, index, state);
    let divisor = isqrt(divisor_squared(p, outcome));
    let chosen = if outcome {
        pair.0
    } else {
        pair.1
    };
    let unnormalised = projected(chosen, index, state);
    assert(after == renormalised(unnormalised, divisor));
    assert(unit_norm(after));
    assert(divisor >= SMALLEST_DIVISOR);
    assert(after.len() == dim);
    let again = projected(pair.0, index, after);
    if outcome {
        // The state was divided by the root of its own squared norm.
        vstd::arithmetic::power2::lemma2_to64();
        lemma_pow2_monotonic(n, 24);
        lemma_renormalised_norm(unnormalised);
        lemma_round_div_monotonic(
            999_995_000_000_000_000,
            norm_sq(after),
            NORM_QUANTUM as int,
        );
        assert(round_div(999_995_000_000_000_000, NORM_QUANTUM as int) == 100_000);
    }
    lemma_round_div_exact(0, divisor);
    lemma_round_div_exact(0, ONE as int);
    lemma_round_div_exact(0, crate::fixed::NORM_QUANTUM as int);
    if index < n {
        lemma_sharp_projectors(pair);
        let north = projector(pair.0);
        let south = projector(pair.1);
        let low = qubit_weight(n, index) as int;
        if outcome {
            assert forall|r: int| 0 <= r < dim implies #[trigger] again[r] == after[r] by {
                lemma_projected_diagonal(pair.0, index, state, r);
                lemma_projected_diagonal(pair.0, index, after, r);
                let b = block_index(r, 2, low);
                let x = after[r];
                let y = state[r];
                if north[b][b] == 0 {
                    assert(0 * y == 0) by (nonlinear_arith);
                    assert(0 * x == 0) by (nonlinear_arith);
                    assert(unnormalised[r] == 0);
                    assert(0 * (ONE as int) == 0);
                    assert(after[r] == 0);
                } else {
                    assert(ONE as int * x == x * ONE as int) by (nonlinear_arith);
                    lemma_round_div_exact(x, ONE as int);
                }
            }
            assert(again =~= after);
        } else {
            assert forall|r: int| 0 <= r < dim implies #[trigger] again[r] == 0 || again[r]
                == 0 by {
                lemma_projected_diagonal(pair.1, index, state, r);
                lemma_projected_diagonal(pair.0, index, after, r);
                let b = block_index(r, 2, low);
                let x = after[r];
                let y = state[r];
                if north[b][b] == 0 {
                    assert(0 * x == 0) by (nonlinear_arith);
                } else {
                    assert(south[b][b] == 0);
                    assert(0 * y == 0) by (nonlinear_arith);
                    assert(unnormalised[r] == 0);
                    assert(0 * (ONE as int) == 0);
                    assert(after[r] == 0);
                    assert(north[b][b] * 0 == 0) by (nonlinear_arith);
                }
            }
            lemma_dot_zero(again, again);
        }
    } else {
        lemma_identity_applied(state);
        lemma_identity_applied(after);
        if !outcome {
            // What is left to one of the squared norm is within the
            // tolerance, so the divisor is far too small.
            crate::fixed::lemma_isqrt(divisor_squared(p, outcome));
            vstd::arithmetic::power2::lemma2_to64();
            lemma_pow2_monotonic(n, 24);
            lemma_renormalised_excess(state, divisor);
        }
    }
}

} // verus!
