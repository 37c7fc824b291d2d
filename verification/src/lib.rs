//! A simulator for small registers of qubits with real amplitudes.
//!
//! A register holds the amplitudes of its joint state and one measurement
//! basis for each qubit.  Operators are dense matrices, built as tensor
//! products of two by two and four by four blocks; measurement projects
//! the state onto an outcome, draws the outcome and renormalises.
//!
//! # Numbers
//!
//! Amplitudes, matrix entries and basis components are fixed-point numbers:
//! an `i64` counts units of 10^-9, so [`fixed::ONE`] stands for 1.0.  Every
//! product and quotient is rounded to the nearest unit, ties away from zero.
//! The squared norm of a register's amplitudes stays within a
//! hundred-thousandth of one; a probability is rounded to five decimal
//! places before an outcome is drawn.
//!
//! # Bit order
//!
//! Qubit 0 is the most significant bit of an amplitude's index, both where
//! operators are embedded and where measurement projectors are built.
//!
//! # Modules
//!
//! - [`fixed`], [`sums`], [`norm`], [`utils`]: arithmetic, sums and rounding.
//! - [`matrix`], [`tensor`]: matrices and their embedding into a register.
//! - [`gates`]: the operators on one and on two qubits.
//! - [`basis`], [`measurement`], [`entangled_particle_n`]: the register.
//! - [`random`]: the generator that outcomes are drawn from.
//! - [`laws`]: what holds of every operator and every register.

pub mod basis;
pub mod entangled_particle_n;
pub mod error;
pub mod fixed;
pub mod gates;
pub mod laws;
pub mod matrix;
pub mod measurement;
pub mod norm;
pub mod random;
pub mod sums;
pub mod tensor;
pub mod utils;
