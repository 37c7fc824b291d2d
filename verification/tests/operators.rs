use quantum_register::error::QuantumError;
use quantum_register::fixed::{FRAC_1_SQRT_2, ONE};
use quantum_register::gates::{SingleInputGate, TwoInputGate};
use quantum_register::matrix::SquareMatrix;

fn entries<const N: usize>(matrix: &SquareMatrix<N>) -> Vec<Vec<i64>> {
    (0..N)
        .map(|r| (0..N).map(|c| matrix.get(r, c)).collect())
        .collect()
}

/// Each entry divided by one: for matrices of zeros and ones.
fn units<const N: usize>(matrix: &SquareMatrix<N>) -> Vec<Vec<i64>> {
    entries(matrix)
        .iter()
        .map(|row| row.iter().map(|x| x / ONE).collect())
        .collect()
}

/// The transpose of the matrix times the matrix, in units of the square of one.
fn gram<const N: usize>(matrix: &SquareMatrix<N>) -> Vec<Vec<i128>> {
    (0..N)
        .map(|i| {
            (0..N)
                .map(|j| {
                    (0..N)
                        .map(|r| matrix.get(r, i) as i128 * matrix.get(r, j) as i128)
                        .sum()
                })
                .collect()
        })
        .collect()
}

fn assert_orthogonal<const N: usize>(matrix: &SquareMatrix<N>, tolerance: i128) {
    assert_eq!(matrix.dimension(), N);
    let product = gram(matrix);
    for i in 0..N {
        for j in 0..N {
            let want: i128 = if i == j { 1_000_000_000_000_000_000 } else { 0 };
            assert!((product[i][j] - want).abs() <= tolerance);
        }
    }
}

#[test]
fn one_qubit_operators_on_one_qubit_are_their_own_matrices() {
    assert_eq!(
        entries(&SingleInputGate::X.get_matrix::<2>(0)),
        vec![vec![0, ONE], vec![ONE, 0]]
    );
    assert_eq!(
        entries(&SingleInputGate::Z.get_matrix::<2>(0)),
        vec![vec![ONE, 0], vec![0, -ONE]]
    );
    assert_eq!(
        entries(&SingleInputGate::Y.get_matrix::<2>(0)),
        vec![vec![0, ONE], vec![-ONE, 0]]
    );
    assert_eq!(
        entries(&SingleInputGate::Hadamard.get_matrix::<2>(0)),
        vec![
            vec![FRAC_1_SQRT_2, FRAC_1_SQRT_2],
            vec![FRAC_1_SQRT_2, -FRAC_1_SQRT_2]
        ]
    );
}

#[test]
fn qubit_zero_is_the_most_significant_bit() {
    assert_eq!(
        units(&SingleInputGate::X.get_matrix::<4>(0)),
        vec![
            vec![0, 0, 1, 0],
            vec![0, 0, 0, 1],
            vec![1, 0, 0, 0],
            vec![0, 1, 0, 0]
        ]
    );
    assert_eq!(
        units(&SingleInputGate::X.get_matrix::<4>(1)),
        vec![
            vec![0, 1, 0, 0],
            vec![1, 0, 0, 0],
            vec![0, 0, 0, 1],
            vec![0, 0, 1, 0]
        ]
    );
}

#[test]
fn an_operator_in_the_middle_of_three_qubits() {
    let x = SingleInputGate::X.get_matrix::<8>(1);
    let rows = units(&x);
    for r in 0..8 {
        for c in 0..8 {
            // Bit 1 of three has the weight two.
            assert_eq!(rows[r][c], if c == r ^ 2 { 1 } else { 0 });
        }
    }
    let h = SingleInputGate::Hadamard.get_matrix::<8>(1);
    assert_eq!(
        entries(&h)[5],
        vec![0, 0, 0, 0, 0, FRAC_1_SQRT_2, 0, FRAC_1_SQRT_2]
    );
    assert_eq!(
        entries(&h)[6],
        vec![0, 0, 0, 0, FRAC_1_SQRT_2, 0, -FRAC_1_SQRT_2, 0]
    );
}

#[test]
fn an_index_past_the_last_qubit_places_nothing() {
    assert_eq!(
        units(&SingleInputGate::X.get_matrix::<4>(2)),
        vec![
            vec![1, 0, 0, 0],
            vec![0, 1, 0, 0],
            vec![0, 0, 1, 0],
            vec![0, 0, 0, 1]
        ]
    );
    assert_eq!(
        entries(&SingleInputGate::Hadamard.get_matrix::<1>(0)),
        vec![vec![ONE]]
    );
}

#[test]
fn controlled_not_with_the_control_first() {
    let cnot = TwoInputGate::CNot.get_matrix::<4>(0, 1).unwrap();
    assert_eq!(
        units(&cnot),
        vec![
            vec![1, 0, 0, 0],
            vec![0, 1, 0, 0],
            vec![0, 0, 0, 1],
            vec![0, 0, 1, 0]
        ]
    );
}

#[test]
fn controlled_not_with_the_control_second() {
    let cnot = TwoInputGate::CNot.get_matrix::<4>(1, 0).unwrap();
    assert_eq!(
        units(&cnot),
        vec![
            vec![0, 1, 0, 0],
            vec![1, 0, 0, 0],
            vec![0, 0, 1, 0],
            vec![0, 0, 0, 1]
        ]
    );
}

#[test]
fn controlled_not_on_the_last_two_of_three_qubits() {
    let cnot = TwoInputGate::CNot.get_matrix::<8>(1, 2).unwrap();
    let rows = units(&cnot);
    let image = [0, 1, 3, 2, 4, 5, 7, 6];
    for r in 0..8 {
        for c in 0..8 {
            assert_eq!(rows[r][c], if c == image[r] { 1 } else { 0 });
        }
    }
    let first = TwoInputGate::CNot.get_matrix::<8>(0, 1).unwrap();
    let rows = units(&first);
    let image = [0, 1, 2, 3, 6, 7, 4, 5];
    for r in 0..8 {
        for c in 0..8 {
            assert_eq!(rows[r][c], if c == image[r] { 1 } else { 0 });
        }
    }
}

#[test]
fn controlled_not_is_placed_on_the_pair_wherever_the_control_is() {
    // With the control below the target the block is still on qubits 1 and 2.
    let cnot = TwoInputGate::CNot.get_matrix::<8>(2, 1).unwrap();
    let rows = units(&cnot);
    let image = [1, 0, 2, 3, 5, 4, 6, 7];
    for r in 0..8 {
        for c in 0..8 {
            assert_eq!(rows[r][c], if c == image[r] { 1 } else { 0 });
        }
    }
}

#[test]
fn qubits_that_are_no_neighbours_are_refused() {
    assert_eq!(
        TwoInputGate::CNot.get_matrix::<8>(0, 2).err(),
        Some(QuantumError::AdjacencyViolation)
    );
    assert_eq!(
        TwoInputGate::CNot.get_matrix::<8>(2, 0).err(),
        Some(QuantumError::AdjacencyViolation)
    );
    assert_eq!(
        TwoInputGate::CNot.get_matrix::<4>(1, 1).err(),
        Some(QuantumError::AdjacencyViolation)
    );
    assert_eq!(
        TwoInputGate::CNot.get_matrix::<16>(0, 3).err(),
        Some(QuantumError::AdjacencyViolation)
    );
}

#[test]
fn every_operator_is_square_and_orthogonal() {
    let kinds = [
        SingleInputGate::X,
        SingleInputGate::Y,
        SingleInputGate::Z,
        SingleInputGate::Hadamard,
    ];
    for kind in kinds {
        assert_orthogonal(&kind.get_matrix::<2>(0), 1_000_000_000);
        for index in 0..3 {
            assert_orthogonal(&kind.get_matrix::<4>(index), 1_000_000_000);
        }
        for index in 0..4 {
            assert_orthogonal(&kind.get_matrix::<8>(index), 1_000_000_000);
            assert_orthogonal(&kind.get_matrix::<16>(index), 1_000_000_000);
        }
    }
    assert_orthogonal(&TwoInputGate::CNot.get_matrix::<4>(0, 1).unwrap(), 0);
    assert_orthogonal(&TwoInputGate::CNot.get_matrix::<4>(1, 0).unwrap(), 0);
    for first in 0..2 {
        assert_orthogonal(
            &TwoInputGate::CNot.get_matrix::<8>(first, first + 1).unwrap(),
            0,
        );
        assert_orthogonal(
            &TwoInputGate::CNot.get_matrix::<8>(first + 1, first).unwrap(),
            0,
        );
    }
    for first in 0..3 {
        assert_orthogonal(
            &TwoInputGate::CNot.get_matrix::<16>(first, first + 1).unwrap(),
            0,
        );
    }
}

#[test]
fn the_squared_length_of_a_hadamard_column_is_short_of_one() {
    let h = SingleInputGate::Hadamard.get_matrix::<4>(1);
    let product = gram(&h);
    assert_eq!(product[0][0], 999_999_999_472_363_922);
    assert_eq!(product[0][1], 0);
    assert_eq!(product[3][3], 999_999_999_472_363_922);
}

#[test]
fn matrices_are_made_of_rows_of_the_right_number() {
    let m = SquareMatrix::<2>::from_rows(vec![vec![1, 2], vec![3, 4]]).unwrap();
    assert_eq!(m.dimension(), 2);
    assert_eq!(m.get(0, 1), 2);
    assert_eq!(m.get(1, 0), 3);
    assert_eq!(entries(&m.clone()), vec![vec![1, 2], vec![3, 4]]);
    assert_eq!(
        SquareMatrix::<2>::from_rows(vec![vec![1, 2]]).err(),
        Some(QuantumError::DimensionMismatch)
    );
    assert_eq!(
        SquareMatrix::<2>::from_rows(vec![vec![1, 2], vec![3]]).err(),
        Some(QuantumError::DimensionMismatch)
    );
    assert_eq!(
        SquareMatrix::<3>::from_rows(vec![vec![1, 2], vec![3, 4]]).err(),
        Some(QuantumError::DimensionMismatch)
    );
    assert_eq!(
        entries(&SquareMatrix::<3>::identity()),
        vec![vec![ONE, 0, 0], vec![0, ONE, 0], vec![0, 0, ONE]]
    );
}
