//! A register of qubits: its amplitudes, its measurement bases, the
//! application of operators and measurement.

use vstd::prelude::*;
use vstd::arithmetic::power2::pow2;
pub use crate::basis::Basis;
use crate::basis::{is_orthonormal, is_unit, lemma_standard_pair, rotated_pair, standard_pair};
use crate::error::QuantumError;
use crate::fixed::{abs, AMPLITUDE_LIMIT, ONE, ONE_SQUARED, PROBABILITY_STEPS, round_div_i128};
use crate::gates::{is_power_of_two, lemma_half_power_of_two, log2};
use crate::laws::{applied, lemma_drawn_outcome_not_degenerate};
use crate::matrix::{copy_of, dot_i128, is_square, mat_vec, SquareMatrix};
use crate::measurement::{
    collapse_result, divisor_squared, MAX_QUBITS, probability, probability_steps, project,
    projected, renormalise, renormalised, squared_norm_projected, steps_of, within_projected_limit,
};
use crate::norm::{has_unit_norm, lemma_unit_norm_component, unit_norm, within_limit};
use crate::random::{draw, draw_allowed};
use crate::sums::ints;
use crate::tensor::{lemma_pow2_monotonic, lemma_pow2_step};
use crate::utils::Vector2;

verus! {

/// Whether a register can have `n` amplitudes: `n` is a power of two, of no
/// more than [`MAX_QUBITS`] qubits.
pub open spec fn valid_dimension(n: nat) -> bool {
    is_power_of_two(n) && log2(n) <= MAX_QUBITS
}

/// The standard basis for each of `n` qubits.
pub open spec fn standard_bases(n: nat) -> Seq<(Vector2, Vector2)> {
    Seq::new(n, |i: int| standard_pair())
}

/// The basis in which qubit `index` is measured.  Past the last qubit there
/// is nothing to measure, and the standard pair stands in.
pub open spec fn measured_pair(bases: Seq<(Vector2, Vector2)>, index: nat) -> (Vector2, Vector2) {
    if index < bases.len() {
        bases[index as int]
    } else {
        standard_pair()
    }
}

/// The number of qubits of a register with `n` amplitudes, where there is
/// such a register.
pub fn qubit_count(n: usize) -> (qubits: Option<usize>)
    ensures
        qubits is Some <==> valid_dimension(n as nat),
        qubits is Some ==> qubits->0 == log2(n as nat) && pow2(qubits->0 as nat) == n,
{
    let mut e: usize = 0;
    let mut m: usize = n;
    proof {
        lemma_pow2_step(0);
    }
    while m > 1 && m % 2 == 0 && e < 64
        invariant
            e <= 64,
            m * pow2(e as nat) == n,
            is_power_of_two(n as nat) <==> is_power_of_two(m as nat),
            is_power_of_two(m as nat) ==> log2(n as nat) == e + log2(m as nat),
        decreases m,
    {
        proof {
            lemma_pow2_step(e as nat);
            assert((m / 2) * pow2((e + 1) as nat) == n) by (nonlinear_arith)
                requires
                    m == 2 * (m / 2),
                    pow2((e + 1) as nat) == 2 * pow2(e as nat),
                    m * pow2(e as nat) == n,
            ;
            if is_power_of_two(m as nat) {
                lemma_half_power_of_two(m as nat);
            }
            if is_power_of_two((m / 2) as nat) {
                lemma_pow2_step(log2((m / 2) as nat));
            }
        }
        m = m / 2;
        e = e + 1;
    }
    proof {
        lemma_pow2_step(0);
        if m > 1 {
            if m % 2 == 0 {
                // Sixty-four halvings leave nothing of a machine integer.
                vstd::arithmetic::power2::lemma2_to64();
                assert(false) by (nonlinear_arith)
                    requires
                        m * pow2(64) == n,
                        m > 1,
                        pow2(64) == 0x1_0000_0000_0000_0000,
                        n <= 0xffff_ffff_ffff_ffff,
                ;
            } else if is_power_of_two(m as nat) {
                lemma_pow2_step((log2(m as nat) - 1) as nat);
            }
        }
    }
    if m == 1 && e <= MAX_QUBITS {
        Some(e)
    } else {
        None
    }
}

/// A register of qubits with `N` real amplitudes.  Its squared norm is
/// within a hundred-thousandth of one at all times, and it has one
/// measurement basis for each qubit.
#[derive(Debug)]
pub struct EntangledParticleN<const N: usize> {
    basis: Basis,
    state: Vec<i64>,
}

impl<const N: usize> View for EntangledParticleN<N> {
    type V = Seq<int>;

    closed spec fn view(&self) -> Seq<int> {
        ints(self.state@)
    }
}

impl<const N: usize> Clone for EntangledParticleN<N> {
    fn clone(&self) -> (copy: Self)
        ensures
            copy@ == self@,
            copy.bases() == self.bases(),
    {
        proof {
            use_type_invariant(self);
        }
        EntangledParticleN { basis: self.basis.clone(), state: copy_of(&self.state) }
    }
}

impl<const N: usize> EntangledParticleN<N> {
    #[verifier::type_invariant]
    spec fn well_formed(self) -> bool {
        &&& valid_dimension(N as nat)
        &&& self.state@.len() == N
        &&& unit_norm(ints(self.state@))
        &&& self.basis@.len() == log2(N as nat)
    }

    /// The measurement bases, one pair for each qubit.
    pub closed spec fn bases(&self) -> Seq<(Vector2, Vector2)> {
        self.basis@
    }

    /// A register with the given amplitudes and the standard basis on every
    /// qubit.
    pub fn new(state: Vec<i64>) -> (r: Result<Self, QuantumError>)
        ensures
            match r {
                Ok(particle) => {
                    &&& valid_dimension(N as nat)
                    &&& state@.len() == N
                    &&& unit_norm(ints(state@))
                    &&& particle@ == ints(state@)
                    &&& particle.bases() == standard_bases(log2(N as nat))
                },
                Err(e) => if valid_dimension(N as nat) && state@.len() == N {
                    e == QuantumError::InvariantViolation && !unit_norm(ints(state@))
                } else {
                    e == QuantumError::DimensionMismatch
                },
            },
    {
        let qubits = match qubit_count(N) {
            Some(q) => q,
            None => {
                return Err(QuantumError::DimensionMismatch);
            },
        };
        if state.len() != N {
            return Err(QuantumError::DimensionMismatch);
        }
        if !has_unit_norm(&state) {
            return Err(QuantumError::InvariantViolation);
        }
        let basis = Basis::new(qubits);
        assert(basis@ =~= standard_bases(log2(N as nat)));
        Ok(EntangledParticleN { basis, state })
    }

    /// Replaces the amplitudes by the product of `matrix` and the
    /// amplitudes.  Where the squared norm of the product is not one, as
    /// after a matrix that is not orthogonal, the register stays as it was.
    pub fn change_state_by_matrix(&mut self, matrix: &SquareMatrix<N>) -> (r: Result<
        (),
        QuantumError,
    >)
        ensures
            final(self).bases() == old(self).bases(),
            final(self)@ == applied(matrix@, old(self)@),
            unit_norm(final(self)@),
            match r {
                Ok(()) => unit_norm(mat_vec(matrix@, old(self)@)),
                Err(e) => e == QuantumError::InvariantViolation && !unit_norm(
                    mat_vec(matrix@, old(self)@),
                ),
            },
    {
        proof {
            use_type_invariant(&*self);
        }
        let rows = matrix.rows();
        let ghost s = ints(self.state@);
        let ghost want = mat_vec(matrix@, s);
        proof {
            vstd::arithmetic::power2::lemma2_to64();
            lemma_pow2_monotonic(log2(N as nat), 32);
            assert forall|i: int| 0 <= i < s.len() implies abs(#[trigger] s[i])
                <= AMPLITUDE_LIMIT by {
                lemma_unit_norm_component(s, i);
            }
        }
        let mut next: Vec<i64> = Vec::new();
        let mut r: usize = 0;
        while r < N
            invariant
                r <= N,
                N <= 0x1_0000_0000,
                rows.len() == N,
                self.state.len() == N,
                s == ints(self.state@),
                unit_norm(s),
                within_limit(s),
                is_square(matrix@, N as nat),
                crate::matrix::grid(rows@) == matrix@,
                want == mat_vec(matrix@, s),
                next.len() == r,
                forall|k: int| 0 <= k < r ==> #[trigger] next@[k] as int == want[k],
            decreases N - r,
        {
            let row = &rows[r];
            proof {
                assert(ints(row@) == matrix@[r as int]);
                assert(matrix@[r as int].len() == N);
                assert forall|i: int| 0 <= i < row.len() implies abs(#[trigger] ints(row@)[i])
                    <= 0x8000_0000_0000_0000 by {}
                assert(row.len() * (0x8000_0000_0000_0000int * AMPLITUDE_LIMIT as int)
                    <= 0x2000_0000_0000_0000_0000_0000_0000_0000) by (nonlinear_arith)
                    requires
                        row.len() <= 0x1_0000_0000,
                        AMPLITUDE_LIMIT == 1_000_005_000,
                ;
            }
            let d = dot_i128(
                row,
                &self.state,
                Ghost(0x8000_0000_0000_0000int),
                Ghost(AMPLITUDE_LIMIT as int),
            );
            let q = round_div_i128(d, ONE as i128);
            if q > AMPLITUDE_LIMIT as i128 || q < -(AMPLITUDE_LIMIT as i128) {
                proof {
                    assert(want[r as int] == q);
                    if unit_norm(want) {
                        lemma_unit_norm_component(want, r as int);
                    }
                }
                return Err(QuantumError::InvariantViolation);
            }
            next.push(q as i64);
            r += 1;
        }
        assert(ints(next@) =~= want);
        if !has_unit_norm(&next) {
            return Err(QuantumError::InvariantViolation);
        }
        self.state = next;
        Ok(())
    }

    /// The number of qubits.
    pub fn get_no_particles(&self) -> (n: usize)
        ensures
            n == log2(N as nat),
            n == self.bases().len(),
            pow2(n as nat) == N,
    {
        proof {
            use_type_invariant(self);
        }
        self.basis.len()
    }

    /// The amplitudes, whose squared norm is within a hundred-thousandth
    /// of one.
    pub fn get_params(&self) -> (state: &Vec<i64>)
        ensures
            ints(state@) == self@,
            state@.len() == N,
            unit_norm(self@),
    {
        proof {
            use_type_invariant(self);
        }
        &self.state
    }

    /// A copy of the measurement bases.
    pub fn get_basis(&self) -> (basis: Basis)
        ensures
            basis@ == self.bases(),
    {
        self.basis.clone()
    }

    /// Computes the squared norm again and says whether it is still one,
    /// within the tolerance, which it always is.
    pub fn check_params(&self) -> (ok: bool)
        ensures
            ok,
            unit_norm(self@),
    {
        proof {
            use_type_invariant(self);
        }
        has_unit_norm(&self.state)
    }

    /// Turns the measurement basis of qubit `index` to the rotation with
    /// the given cosine and sine, those of half the angle by which the
    /// apparatus is turned.  A cosine and a sine whose squares do not add up
    /// to one are refused, and the register stays as it was.
    pub fn swap_basis(&mut self, cos: i64, sin: i64, index: usize) -> (r: Result<
        (),
        QuantumError,
    >)
        requires
            index < log2(N as nat),
        ensures
            final(self)@ == old(self)@,
            unit_norm(final(self)@),
            match r {
                Ok(()) => {
                    &&& is_unit(Vector2 { x: cos, y: sin })
                    &&& final(self).bases() == old(self).bases().update(
                        index as int,
                        rotated_pair(cos, sin),
                    )
                },
                Err(e) => {
                    &&& e == QuantumError::InvariantViolation
                    &&& !is_unit(Vector2 { x: cos, y: sin })
                    &&& final(self).bases() == old(self).bases()
                },
            },
    {
        proof {
            use_type_invariant(&*self);
        }
        let mut rotated = self.basis.clone();
        match rotated.rotate_to_angle(cos, sin, index) {
            Ok(_) => {
                self.basis = rotated;
                Ok(())
            },
            Err(e) => Err(e),
        }
    }

    /// The pair of basis vectors in which qubit `index` is measured.
    fn pair_at(&self, index: usize) -> (pair: (Vector2, Vector2))
        ensures
            pair == measured_pair(self.bases(), index as nat),
            is_orthonormal(pair),
    {
        proof {
            lemma_standard_pair();
        }
        if index < self.basis.len() {
            self.basis.get_basis(index)
        } else {
            (Vector2 { x: ONE, y: 0 }, Vector2 { x: 0, y: ONE })
        }
    }

    /// The probability that a measurement of qubit `index` gives true,
    /// rounded to five decimal places: a number of probability steps.
    pub fn probability(&self, index: usize) -> (steps: u32)
        ensures
            steps == probability_steps(
                measured_pair(self.bases(), index as nat).0,
                index as nat,
                self@,
            ),
            steps <= PROBABILITY_STEPS,
    {
        proof {
            use_type_invariant(self);
            self.lemma_state_bounds();
        }
        let pair = self.pair_at(index);
        let candidate = project(pair.0, index, self.basis.len(), &self.state);
        let p = squared_norm_projected(&candidate);
        steps_of(p)
    }

    /// What the type's invariant says of the amplitudes.
    proof fn lemma_state_bounds(&self)
        requires
            self.well_formed(),
        ensures
            within_limit(ints(self.state@)),
            self.state@.len() == pow2(self.basis@.len()),
            self.state@.len() <= 0x1_0000_0000,
            self.basis@.len() <= MAX_QUBITS,
    {
        let s = ints(self.state@);
        assert forall|i: int| 0 <= i < s.len() implies abs(#[trigger] s[i]) <= AMPLITUDE_LIMIT by {
            lemma_unit_norm_component(s, i);
        }
        vstd::arithmetic::power2::lemma2_to64();
        lemma_pow2_monotonic(log2(N as nat), 32);
    }

    /// Makes the state what a measurement of qubit `index` with the given
    /// outcome leaves behind.  On an error the register stays as it was.
    pub fn collapse(&mut self, index: usize, outcome: bool) -> (r: Result<(), QuantumError>)
        ensures
            final(self).bases() == old(self).bases(),
            unit_norm(final(self)@),
            match collapse_result(
                measured_pair(old(self).bases(), index as nat),
                index as nat,
                old(self)@,
                outcome,
            ) {
                Ok(after) => r is Ok && final(self)@ == after,
                Err(e) => r == Err::<(), QuantumError>(e) && final(self)@ == old(self)@,
            },
    {
        proof {
            use_type_invariant(&*self);
            self.lemma_state_bounds();
        }
        let pair = self.pair_at(index);
        let candidate = project(pair.0, index, self.basis.len(), &self.state);
        let p = squared_norm_projected(&candidate);
        self.finish(index, outcome, candidate, p)
    }

    /// The second half of a measurement: renormalises the projection onto
    /// the outcome and stores it.
    fn finish(&mut self, index: usize, outcome: bool, candidate: Vec<i64>, p: i128) -> (r: Result<
        (),
        QuantumError,
    >)
        requires
            ints(candidate@) == projected(
                measured_pair(old(self).bases(), index as nat).0,
                index as nat,
                old(self)@,
            ),
            within_projected_limit(ints(candidate@)),
            p == probability(
                measured_pair(old(self).bases(), index as nat).0,
                index as nat,
                old(self)@,
            ),
            0 <= p <= 0x1_0000_0000 * (crate::measurement::PROJECTED_LIMIT
                * crate::measurement::PROJECTED_LIMIT),
        ensures
            final(self).bases() == old(self).bases(),
            unit_norm(final(self)@),
            match collapse_result(
                measured_pair(old(self).bases(), index as nat),
                index as nat,
                old(self)@,
                outcome,
            ) {
                Ok(after) => r is Ok && final(self)@ == after,
                Err(e) => r == Err::<(), QuantumError>(e) && final(self)@ == old(self)@,
            },
    {
        proof {
            use_type_invariant(&*self);
            self.lemma_state_bounds();
        }
        let pair = self.pair_at(index);
        let unnormalised = if outcome {
            candidate
        } else {
            project(pair.1, index, self.basis.len(), &self.state)
        };
        let squared: u128 = if outcome {
            p as u128
        } else if p < ONE_SQUARED {
            (ONE_SQUARED - p) as u128
        } else {
            0
        };
        assert(squared == divisor_squared(p as int, outcome));
        match renormalise(&unnormalised, squared) {
            Err(e) => {
                proof {
                    let after = renormalised(
                        ints(unnormalised@),
                        crate::fixed::isqrt(squared as int),
                    );
                    if unit_norm(after) {
                        assert forall|i: int| 0 <= i < after.len() implies abs(#[trigger] after[i])
                            <= AMPLITUDE_LIMIT by {
                            lemma_unit_norm_component(after, i);
                        }
                    }
                }
                Err(e)
            },
            Ok(after) => {
                if !has_unit_norm(&after) {
                    return Err(QuantumError::InvariantViolation);
                }
                assert(after@.len() == ints(after@).len());
                self.state = after;
                Ok(())
            },
        }
    }

    /// Measures qubit `index` in its basis: draws the outcome true with the
    /// probability of the projection onto the first basis vector, rounded to
    /// five decimal places, and leaves the state that the outcome makes of
    /// it.  On an error the register stays as it was.
    pub fn measure(&mut self, index: usize, rng: &mut rand::rngs::StdRng) -> (r: Result<
        bool,
        QuantumError,
    >)
        ensures
            final(self).bases() == old(self).bases(),
            unit_norm(final(self)@),
            r != Err::<bool, QuantumError>(QuantumError::DegenerateCollapse),
            exists|outcome: bool|
                {
                    &&& #[trigger] draw_allowed(
                        probability_steps(
                            measured_pair(old(self).bases(), index as nat).0,
                            index as nat,
                            old(self)@,
                        ),
                        PROBABILITY_STEPS as int,
                        outcome,
                    )
                    &&& match collapse_result(
                        measured_pair(old(self).bases(), index as nat),
                        index as nat,
                        old(self)@,
                        outcome,
                    ) {
                        Ok(after) => r == Ok::<bool, QuantumError>(outcome) && final(self)@
                            == after,
                        Err(e) => r == Err::<bool, QuantumError>(e) && final(self)@ == old(
                            self,
                        )@,
                    }
                },
    {
        proof {
            use_type_invariant(&*self);
            self.lemma_state_bounds();
        }
        let pair = self.pair_at(index);
        let candidate = project(pair.0, index, self.basis.len(), &self.state);
        let p = squared_norm_projected(&candidate);
        let steps = steps_of(p);
        let outcome = draw(rng, steps, PROBABILITY_STEPS);
        let done = self.finish(index, outcome, candidate, p);
        proof {
            lemma_drawn_outcome_not_degenerate(
                measured_pair(old(self).bases(), index as nat),
                index as nat,
                old(self)@,
                outcome,
            );
            assert(draw_allowed(
                probability_steps(
                    measured_pair(old(self).bases(), index as nat).0,
                    index as nat,
                    old(self)@,
                ),
                PROBABILITY_STEPS as int,
                outcome,
            ));
        }
        match done {
            Ok(()) => Ok(outcome),
            Err(e) => Err(e),
        }
    }
}

} // verus!
