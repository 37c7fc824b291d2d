//! The ways in which an operation on a register can fail.

use vstd::prelude::*;

verus! {

/// A violated contract of the simulator.  None of them is expected under
/// correct use, and none is retried.
#[derive(Clone, Copy, Debug, PartialEq, Eq, Structural)]
pub enum QuantumError {
    /// The squared norm of an amplitude vector differs from one by more
    /// than a hundred-thousandth, or the squares of a cosine and a sine do
    /// not add up to one.
    InvariantViolation,
    /// A dimension is no power of two, exceeds the largest register, or
    /// disagrees with the dimension that the type fixes.
    DimensionMismatch,
    /// A two-qubit gate was asked for on qubits that are not neighbours.
    AdjacencyViolation,
    /// The divisor by which a collapsed state is renormalised rounds to zero.
    DegenerateCollapse,
}

} // verus!
