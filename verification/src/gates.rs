//! Operator matrices of one- and two-qubit gates on a whole register.

use vstd::prelude::*;
use vstd::arithmetic::power2::{lemma_pow2_adds, pow2};
use crate::error::QuantumError;
use crate::fixed::{abs, FRAC_1_SQRT_2, lemma_fixed_mul_unit, ONE};
use crate::laws::{
    GRAM_TOLERANCE, lemma_single_input_orthogonal, lemma_single_input_tensor_product,
    lemma_two_input_orthogonal, lemma_two_input_tensor_product,
};
use crate::matrix::{
    entries_within, grid, grid2, grid_add, identity, identity_grid, is_orthogonal, is_square, kron,
    kronecker, mat_add, SquareMatrix,
};
use crate::tensor::{
    embed, embedded, factors_with, joint_dim, lemma_pow2_monotonic, lemma_pow2_step,
    tensor_product,
};

verus! {

/// The number of times that `n` can be halved before it reaches one.
pub open spec fn log2(n: nat) -> nat
    decreases n,
{
    if n <= 1 {
        0
    } else {
        1 + log2(n / 2)
    }
}

/// Whether `n` is a power of two.
pub open spec fn is_power_of_two(n: nat) -> bool {
    n == pow2(log2(n))
}

/// The logarithm of a power of two is its exponent.
pub proof fn lemma_log2_pow2(e: nat)
    ensures
        log2(pow2(e)) == e,
        is_power_of_two(pow2(e)),
    decreases e,
{
    lemma_pow2_step(e);
    if e > 0 {
        lemma_pow2_step((e - 1) as nat);
        lemma_log2_pow2((e - 1) as nat);
        assert(pow2(e) / 2 == pow2((e - 1) as nat));
    }
}

/// Half of a power of two above one is a power of two.
pub proof fn lemma_half_power_of_two(n: nat)
    requires
        is_power_of_two(n),
        n > 1,
    ensures
        is_power_of_two(n / 2),
        log2(n) == 1 + log2(n / 2),
        n == 2 * (n / 2),
{
    let e = log2(n);
    lemma_pow2_step((e - 1) as nat);
}

/// The number of qubits of a register with `n` amplitudes: the exponent of
/// the power of two `n`.
pub fn log(n: usize) -> (e: usize)
    requires
        is_power_of_two(n as nat),
    ensures
        e == log2(n as nat),
        pow2(e as nat) == n,
        e < usize::BITS,
{
    let mut e: usize = 0;
    let mut m: usize = n;
    proof {
        lemma_pow2_step(0);
    }
    while m > 1
        invariant
            m >= 1,
            is_power_of_two(m as nat),
            log2(n as nat) == e + log2(m as nat),
            m * pow2(e as nat) == n,
            e < usize::BITS,
        decreases m,
    {
        proof {
            lemma_half_power_of_two(m as nat);
            lemma_pow2_step(e as nat);
            assert((m / 2) * pow2((e + 1) as nat) == n) by (nonlinear_arith)
                requires
                    m == 2 * (m / 2),
                    pow2((e + 1) as nat) == 2 * pow2(e as nat),
                    m * pow2(e as nat) == n,
            ;
            if e + 1 >= usize::BITS {
                lemma_pow2_monotonic(32, (e + 1) as nat);
                vstd::arithmetic::power2::lemma2_to64();
                if usize::BITS == 64 {
                    lemma_pow2_monotonic(64, (e + 1) as nat);
                }
                assert(false) by (nonlinear_arith)
                    requires
                        (m / 2) * pow2((e + 1) as nat) == n,
                        m / 2 >= 1,
                        pow2((e + 1) as nat) > n,
                ;
            }
        }
        m = m / 2;
        e = e + 1;
    }
    e
}

/// The gates on one qubit.
#[derive(Clone, Copy, Debug, PartialEq, Eq, Structural)]
pub enum SingleInputGate {
    X,
    Z,
    Y,
    Hadamard,
}

/// The gates on two qubits.
#[derive(Clone, Copy, Debug, PartialEq, Eq, Structural)]
pub enum TwoInputGate {
    CNot,
}

/// The weight of qubit `index` in an amplitude's index: qubit 0 is the most
/// significant of `qubits` bits.
pub open spec fn qubit_weight(qubits: nat, index: nat) -> nat
    recommends
        index < qubits,
{
    pow2((qubits - 1 - index) as nat)
}

/// The qubits before an operator, those it acts on and the qubits after it
/// make up the register.
pub proof fn lemma_joint_dim(lead: nat, width: nat, qubits: nat)
    requires
        lead + width <= qubits,
    ensures
        joint_dim(lead, pow2(width), (qubits - width - lead) as nat) == pow2(qubits),
{
    let trail = (qubits - width - lead) as nat;
    lemma_pow2_adds(lead, width);
    lemma_pow2_adds(lead + width, trail);
}

impl SingleInputGate {
    /// The two by two matrix on the one qubit.
    pub open spec fn local(self) -> Seq<Seq<int>> {
        match self {
            SingleInputGate::X => seq![seq![0int, ONE as int], seq![ONE as int, 0int]],
            SingleInputGate::Z => seq![seq![ONE as int, 0int], seq![0int, -(ONE as int)]],
            SingleInputGate::Y => seq![seq![0int, ONE as int], seq![-(ONE as int), 0int]],
            SingleInputGate::Hadamard => seq![
                seq![FRAC_1_SQRT_2 as int, FRAC_1_SQRT_2 as int],
                seq![FRAC_1_SQRT_2 as int, -(FRAC_1_SQRT_2 as int)],
            ],
        }
    }

    /// The operator on a register of dimension `dim` that acts on qubit
    /// `index`: the tensor product with the two by two matrix at `index` and
    /// the identity at every other qubit.  An index past the last qubit
    /// places nothing, and the operator is the identity.
    pub open spec fn joint(self, dim: nat, index: nat) -> Seq<Seq<int>> {
        if index < log2(dim) {
            embedded(self.local(), dim, qubit_weight(log2(dim), index))
        } else {
            identity(dim)
        }
    }

    /// Builds the `N` by `N` operator that acts on qubit `input_index`.
    pub fn get_matrix<const N: usize>(&self, input_index: usize) -> (m: SquareMatrix<N>)
        requires
            is_power_of_two(N as nat),
        ensures
            m@ == self.joint(N as nat, input_index as nat),
            m@ == tensor_product(
                factors_with(self.local(), log2(N as nat), input_index as nat),
            ),
            is_square(m@, N as nat),
            is_orthogonal(m@, GRAM_TOLERANCE as int),
    {
        proof {
            lemma_single_input_orthogonal(*self, N as nat, input_index as nat);
            lemma_single_input_tensor_product(*self, N as nat, input_index as nat);
        }
        let n = log(N);
        if input_index >= n {
            return SquareMatrix::from_grid(identity_grid(N));
        }
        let local = match self {
            SingleInputGate::X => grid2(0, ONE, ONE, 0),
            SingleInputGate::Z => grid2(ONE, 0, 0, -ONE),
            SingleInputGate::Y => grid2(0, ONE, -ONE, 0),
            SingleInputGate::Hadamard => grid2(
                FRAC_1_SQRT_2,
                FRAC_1_SQRT_2,
                FRAC_1_SQRT_2,
                -FRAC_1_SQRT_2,
            ),
        };
        proof {
            assert(grid(local@) =~~= self.local());
            lemma_pow2_step(1);
            lemma_pow2_step(0);
            lemma_joint_dim(input_index as nat, 1, n as nat);
        }
        let rows = embed(&local, input_index, n - 1 - input_index);
        SquareMatrix::from_grid(rows)
    }
}

/// The four by four matrix of the controlled NOT on two neighbours:
/// `proj0 (x) I + proj1 (x) X` where the control comes first, and
/// `proj1 (x) I + proj0 (x) X` where it comes second.
pub open spec fn cnot_block(control_first: bool) -> Seq<Seq<int>> {
    if control_first {
        seq![
            seq![ONE as int, 0int, 0int, 0int],
            seq![0int, ONE as int, 0int, 0int],
            seq![0int, 0int, 0int, ONE as int],
            seq![0int, 0int, ONE as int, 0int],
        ]
    } else {
        seq![
            seq![0int, ONE as int, 0int, 0int],
            seq![ONE as int, 0int, 0int, 0int],
            seq![0int, 0int, ONE as int, 0int],
            seq![0int, 0int, 0int, ONE as int],
        ]
    }
}

/// The projector onto the first basis state, and that onto the second.
pub open spec fn basis_projector(second: bool) -> Seq<Seq<int>> {
    if second {
        seq![seq![0int, 0int], seq![0int, ONE as int]]
    } else {
        seq![seq![ONE as int, 0int], seq![0int, 0int]]
    }
}

/// The block of the controlled NOT is the sum of two tensor products.
pub proof fn lemma_cnot_block(control_first: bool)
    ensures
        cnot_block(control_first) == mat_add(
            kron(basis_projector(!control_first), identity(2)),
            kron(basis_projector(control_first), SingleInputGate::X.local()),
        ),
{
    let left = kron(basis_projector(!control_first), identity(2));
    let right = kron(basis_projector(control_first), SingleInputGate::X.local());
    let total = mat_add(left, right);
    let want = cnot_block(control_first);
    lemma_fixed_mul_unit(0);
    lemma_fixed_mul_unit(ONE as int);
    assert(basis_projector(control_first).len() == 2);
    assert(basis_projector(!control_first).len() == 2);
    assert(identity(2).len() == 2);
    assert(SingleInputGate::X.local().len() == 2);
    assert(left.len() == 4);
    assert(right.len() == 4);
    assert forall|r: int| 0 <= r < 4 implies #[trigger] total[r] == want[r] by {
        assert forall|c: int| 0 <= c < 4 implies #[trigger] total[r][c] == want[r][c] by {
            assert(r == 0 || r == 1 || r == 2 || r == 3);
            assert(c == 0 || c == 1 || c == 2 || c == 3);
            assert(total[r][c] == left[r][c] + right[r][c]);
        }
        assert(total[r] =~= want[r]);
    }
    assert(total =~= want);
}

impl TwoInputGate {
    /// The operator with its control on qubit `control` and its target on
    /// the neighbouring qubit `target`, in a register of dimension `dim`.
    pub open spec fn joint(self, dim: nat, control: nat, target: nat) -> Seq<Seq<int>> {
        let first = if control < target {
            control
        } else {
            target
        };
        embedded(
            cnot_block(control < target),
            dim,
            pow2((log2(dim) - 2 - first) as nat),
        )
    }

    /// Builds the `N` by `N` operator.  The two qubits must be neighbours:
    /// the block is placed on the pair as a whole.
    pub fn get_matrix<const N: usize>(&self, control_index: usize, input_index: usize) -> (r:
        Result<SquareMatrix<N>, QuantumError>)
        requires
            is_power_of_two(N as nat),
            control_index + 1 == input_index || input_index + 1 == control_index ==> control_index
                < log2(N as nat) && input_index < log2(N as nat),
        ensures
            match r {
                Ok(m) => {
                    &&& control_index + 1 == input_index || input_index + 1 == control_index
                    &&& m@ == self.joint(N as nat, control_index as nat, input_index as nat)
                    &&& m@ == tensor_product(
                        factors_with(
                            cnot_block(control_index < input_index),
                            (log2(N as nat) - 1) as nat,
                            if control_index < input_index {
                                control_index as nat
                            } else {
                                input_index as nat
                            },
                        ),
                    )
                    &&& is_square(m@, N as nat)
                    &&& is_orthogonal(m@, 0)
                },
                Err(e) => e == QuantumError::AdjacencyViolation && !(control_index + 1
                    == input_index || input_index + 1 == control_index),
            },
    {
        let n = log(N);
        let control_first = control_index < input_index;
        let adjacent = if control_first {
            input_index - control_index == 1
        } else {
            control_index - input_index == 1
        };
        if !adjacent {
            return Err(QuantumError::AdjacencyViolation);
        }
        proof {
            lemma_two_input_orthogonal(
                *self,
                N as nat,
                control_index as nat,
                input_index as nat,
            );
            lemma_two_input_tensor_product(
                *self,
                N as nat,
                control_index as nat,
                input_index as nat,
            );
        }
        let identity = identity_grid(2);
        let proj0 = grid2(ONE, 0, 0, 0);
        let proj1 = grid2(0, 0, 0, ONE);
        let x_gate = grid2(0, ONE, ONE, 0);
        proof {
            assert(grid(proj0@) =~~= basis_projector(false));
            assert(grid(proj1@) =~~= basis_projector(true));
            assert(grid(x_gate@) =~~= SingleInputGate::X.local());
            assert(grid(identity@).len() == identity.len());
            assert(grid(proj0@).len() == proj0.len());
            assert(grid(proj1@).len() == proj1.len());
            assert(grid(x_gate@).len() == x_gate.len());
            lemma_cnot_block(control_first);
        }
        let block = if control_first {
            let plain = kronecker(&proj0, &identity);
            let flipped = kronecker(&proj1, &x_gate);
            proof {
                lemma_cnot_block(true);
                assert(grid(plain@).len() == plain.len());
                lemma_block_terms();
            }
            grid_add(&plain, &flipped)
        } else {
            let plain = kronecker(&proj1, &identity);
            let flipped = kronecker(&proj0, &x_gate);
            proof {
                lemma_cnot_block(false);
                assert(grid(plain@).len() == plain.len());
                lemma_block_terms();
            }
            grid_add(&plain, &flipped)
        };
        let first = if control_first {
            control_index
        } else {
            input_index
        };
        proof {
            assert(grid(block@) == cnot_block(control_first));
            assert(grid(block@).len() == block.len());
            lemma_pow2_step(1);
            lemma_pow2_step(0);
            assert(pow2(2) == 4);
            lemma_joint_dim(first as nat, 2, n as nat);
        }
        let rows = embed(&block, first, n - 2 - first);
        Ok(SquareMatrix::from_grid(rows))
    }
}

/// The terms of the controlled NOT's block are square, with entries of
/// magnitude at most one.
pub proof fn lemma_block_terms()
    ensures
        forall|p: bool|
            #![trigger basis_projector(p)]
            {
                &&& is_square(kron(basis_projector(p), identity(2)), 4)
                &&& is_square(kron(basis_projector(p), SingleInputGate::X.local()), 4)
                &&& entries_within(kron(basis_projector(p), identity(2)), 0x1_0000_0000)
                &&& entries_within(
                    kron(basis_projector(p), SingleInputGate::X.local()),
                    0x1_0000_0000,
                )
            },
{
    lemma_fixed_mul_unit(0);
    lemma_fixed_mul_unit(ONE as int);
    assert forall|p: bool| #![trigger basis_projector(p)] {
        &&& is_square(kron(basis_projector(p), identity(2)), 4)
        &&& is_square(kron(basis_projector(p), SingleInputGate::X.local()), 4)
        &&& entries_within(kron(basis_projector(p), identity(2)), 0x1_0000_0000)
        &&& entries_within(kron(basis_projector(p), SingleInputGate::X.local()), 0x1_0000_0000)
    } by {
        let a = kron(basis_projector(p), identity(2));
        let b = kron(basis_projector(p), SingleInputGate::X.local());
        assert(basis_projector(p).len() == 2);
        assert(identity(2).len() == 2);
        assert(SingleInputGate::X.local().len() == 2);
        assert(a.len() == 4 && b.len() == 4);
        assert forall|r: int, c: int| 0 <= r < 4 && 0 <= c < 4 implies abs(#[trigger] a[r][c])
            <= 0x1_0000_0000 && abs(#[trigger] b[r][c]) <= 0x1_0000_0000 by {
            assert(r == 0 || r == 1 || r == 2 || r == 3);
            assert(c == 0 || c == 1 || c == 2 || c == 3);
        }
    }
}

} // verus!
