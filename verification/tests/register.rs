use quantum_register::basis::Basis;
use quantum_register::entangled_particle_n::EntangledParticleN;
use quantum_register::error::QuantumError;
use quantum_register::fixed::{FRAC_1_SQRT_2, ONE};
use quantum_register::gates::{SingleInputGate, TwoInputGate};
use quantum_register::matrix::SquareMatrix;
use quantum_register::utils::Vector2;
use rand::rngs::StdRng;
use rand::SeedableRng;

const H: i64 = FRAC_1_SQRT_2;

fn standard() -> (Vector2, Vector2) {
    (Vector2 { x: ONE, y: 0 }, Vector2 { x: 0, y: ONE })
}

fn squared_norm(state: &[i64]) -> i128 {
    state.iter().map(|x| *x as i128 * *x as i128).sum()
}

#[test]
fn a_new_register_has_the_standard_basis_on_every_qubit() {
    let particle = EntangledParticleN::<8>::new(vec![0, 0, 0, 0, 0, ONE, 0, 0]).unwrap();
    assert_eq!(particle.get_no_particles(), 3);
    assert_eq!(particle.get_params(), &vec![0, 0, 0, 0, 0, ONE, 0, 0]);
    assert!(particle.check_params());
    let basis = particle.get_basis();
    assert_eq!(basis.len(), 3);
    for index in 0..3 {
        assert_eq!(basis.get_basis(index), standard());
    }
}

#[test]
fn a_register_of_no_qubit_has_one_amplitude() {
    let mut rng = StdRng::seed_from_u64(1);
    let mut particle = EntangledParticleN::<1>::new(vec![-ONE]).unwrap();
    assert_eq!(particle.get_no_particles(), 0);
    assert_eq!(particle.measure(0, &mut rng), Ok(true));
    assert_eq!(particle.get_params(), &vec![-ONE]);
}

#[test]
fn a_state_whose_norm_is_not_one_is_refused() {
    assert_eq!(
        EntangledParticleN::<2>::new(vec![ONE, ONE]).err(),
        Some(QuantumError::InvariantViolation)
    );
    assert_eq!(
        EntangledParticleN::<2>::new(vec![0, 0]).err(),
        Some(QuantumError::InvariantViolation)
    );
    assert_eq!(
        EntangledParticleN::<4>::new(vec![H, 0, 0, H + 10_000]).err(),
        Some(QuantumError::InvariantViolation)
    );
    assert!(EntangledParticleN::<4>::new(vec![H, 0, 0, H + 7_000]).is_ok());
    assert_eq!(
        EntangledParticleN::<4>::new(vec![H, 0, 0, H + 7_100]).err(),
        Some(QuantumError::InvariantViolation)
    );
}

#[test]
fn a_state_of_the_wrong_length_is_refused() {
    assert_eq!(
        EntangledParticleN::<4>::new(vec![ONE, 0]).err(),
        Some(QuantumError::DimensionMismatch)
    );
    assert_eq!(
        EntangledParticleN::<2>::new(vec![ONE, 0, 0, 0]).err(),
        Some(QuantumError::DimensionMismatch)
    );
    assert_eq!(
        EntangledParticleN::<3>::new(vec![ONE, 0, 0]).err(),
        Some(QuantumError::DimensionMismatch)
    );
    assert_eq!(
        EntangledParticleN::<0>::new(vec![]).err(),
        Some(QuantumError::DimensionMismatch)
    );
    // The length is looked at before the norm.
    assert_eq!(
        EntangledParticleN::<4>::new(vec![ONE, ONE]).err(),
        Some(QuantumError::DimensionMismatch)
    );
}

#[test]
fn an_operator_is_applied_with_rounding() {
    let mut particle = EntangledParticleN::<4>::new(vec![ONE, 0, 0, 0]).unwrap();
    particle
        .change_state_by_matrix(&SingleInputGate::Hadamard.get_matrix::<4>(0))
        .unwrap();
    assert_eq!(particle.get_params(), &vec![H, 0, H, 0]);
    particle
        .change_state_by_matrix(&TwoInputGate::CNot.get_matrix::<4>(0, 1).unwrap())
        .unwrap();
    assert_eq!(particle.get_params(), &vec![H, 0, 0, H]);

    let mut particle = EntangledParticleN::<4>::new(vec![0, ONE, 0, 0]).unwrap();
    particle
        .change_state_by_matrix(&SingleInputGate::Hadamard.get_matrix::<4>(0))
        .unwrap();
    particle
        .change_state_by_matrix(&TwoInputGate::CNot.get_matrix::<4>(0, 1).unwrap())
        .unwrap();
    assert_eq!(particle.get_params(), &vec![0, H, H, 0]);

    let mut particle =
        EntangledParticleN::<4>::new(vec![600_000_000, 0, 800_000_000, 0]).unwrap();
    particle
        .change_state_by_matrix(&SingleInputGate::Hadamard.get_matrix::<4>(0))
        .unwrap();
    assert_eq!(
        particle.get_params(),
        &vec![989_949_493, 0, -141_421_356, 0]
    );
}

#[test]
fn an_operator_that_is_not_orthogonal_leaves_the_register_as_it_was() {
    let mut particle = EntangledParticleN::<2>::new(vec![600_000_000, 800_000_000]).unwrap();
    let double = SquareMatrix::<2>::from_rows(vec![vec![2 * ONE, 0], vec![0, 2 * ONE]]).unwrap();
    assert_eq!(
        particle.change_state_by_matrix(&double),
        Err(QuantumError::InvariantViolation)
    );
    assert_eq!(particle.get_params(), &vec![600_000_000, 800_000_000]);
    let zero = SquareMatrix::<2>::from_rows(vec![vec![0, 0], vec![0, 0]]).unwrap();
    assert_eq!(
        particle.change_state_by_matrix(&zero),
        Err(QuantumError::InvariantViolation)
    );
    let huge =
        SquareMatrix::<2>::from_rows(vec![vec![i64::MAX, i64::MAX], vec![i64::MIN, i64::MIN]])
            .unwrap();
    assert_eq!(
        particle.change_state_by_matrix(&huge),
        Err(QuantumError::InvariantViolation)
    );
    assert_eq!(particle.get_params(), &vec![600_000_000, 800_000_000]);
    assert!(particle.check_params());
}

#[test]
fn an_operator_need_not_be_orthogonal_where_the_state_does_not_show_it() {
    let mut particle = EntangledParticleN::<2>::new(vec![ONE, 0]).unwrap();
    let lopsided = SquareMatrix::<2>::from_rows(vec![vec![0, 0], vec![-ONE, 5 * ONE]]).unwrap();
    assert_eq!(particle.change_state_by_matrix(&lopsided), Ok(()));
    assert_eq!(particle.get_params(), &vec![0, -ONE]);
}

#[test]
fn the_norm_stays_one_through_a_sequence_of_operators() {
    let mut particle =
        EntangledParticleN::<8>::new(vec![H, 0, 0, 0, 0, 0, 0, -H]).unwrap();
    let kinds = [
        SingleInputGate::Hadamard,
        SingleInputGate::X,
        SingleInputGate::Hadamard,
        SingleInputGate::Y,
        SingleInputGate::Z,
        SingleInputGate::Hadamard,
    ];
    for round in 0..20 {
        for (position, kind) in kinds.iter().enumerate() {
            let index = (round + position) % 3;
            particle
                .change_state_by_matrix(&kind.get_matrix::<8>(index))
                .unwrap();
            let norm = squared_norm(particle.get_params());
            assert!((norm - 1_000_000_000_000_000_000).abs() <= 10_000_000_000_000);
            assert!(particle.check_params());
        }
        let first = round % 2;
        particle
            .change_state_by_matrix(&TwoInputGate::CNot.get_matrix::<8>(first, first + 1).unwrap())
            .unwrap();
        assert!(particle.check_params());
    }
}

#[test]
fn hadamard_twice_brings_every_amplitude_back() {
    let states: Vec<Vec<i64>> = vec![
        vec![ONE, 0, 0, 0, 0, 0, 0, 0],
        vec![H, 0, 0, 0, 0, 0, 0, H],
        vec![600_000_000, 0, 0, 0, 0, -800_000_000, 0, 0],
        vec![
            500_000_000,
            -500_000_000,
            100_000_000,
            200_000_000,
            -300_000_000,
            400_000_000,
            447_213_595,
            0,
        ],
    ];
    for state in states {
        for index in 0..4 {
            let h = SingleInputGate::Hadamard.get_matrix::<8>(index);
            let mut particle = EntangledParticleN::<8>::new(state.clone()).unwrap();
            particle.change_state_by_matrix(&h).unwrap();
            particle.change_state_by_matrix(&h).unwrap();
            for (after, before) in particle.get_params().iter().zip(state.iter()) {
                assert!((after - before).abs() <= 1);
            }
        }
    }
}

#[test]
fn the_basis_is_turned_to_the_columns_of_a_rotation() {
    let mut particle = EntangledParticleN::<4>::new(vec![H, 0, 0, H]).unwrap();
    assert_eq!(particle.swap_basis(500_000_000, 866_025_404, 1), Ok(()));
    let basis = particle.get_basis();
    assert_eq!(basis.get_basis(0), standard());
    assert_eq!(
        basis.get_basis(1),
        (
            Vector2 { x: 500_000_000, y: 866_025_404 },
            Vector2 { x: -866_025_404, y: 500_000_000 }
        )
    );
    assert_eq!(particle.get_params(), &vec![H, 0, 0, H]);
}

#[test]
fn a_cosine_and_a_sine_of_no_angle_are_refused() {
    let mut particle = EntangledParticleN::<4>::new(vec![H, 0, 0, H]).unwrap();
    assert_eq!(
        particle.swap_basis(ONE, ONE, 0),
        Err(QuantumError::InvariantViolation)
    );
    assert_eq!(
        particle.swap_basis(0, 0, 0),
        Err(QuantumError::InvariantViolation)
    );
    assert_eq!(
        particle.swap_basis(500_000_000, 866_030_000, 0),
        Err(QuantumError::InvariantViolation)
    );
    assert_eq!(
        particle.swap_basis(i64::MIN, 0, 0),
        Err(QuantumError::InvariantViolation)
    );
    assert_eq!(particle.get_basis().get_basis(0), standard());

    let mut basis = Basis::new(2);
    assert_eq!(
        basis.rotate_to_angle(ONE, 2, 1).err(),
        None
    );
    assert_eq!(
        basis.rotate_to_angle(ONE, 1_000_000, 1).err(),
        Some(QuantumError::InvariantViolation)
    );
    assert_eq!(
        basis.get_basis(1),
        (Vector2 { x: ONE, y: 2 }, Vector2 { x: -2, y: ONE })
    );
}

#[test]
fn rotating_a_basis_returns_a_copy_of_it() {
    let mut basis = Basis::new(3);
    let copy = basis.rotate_to_angle(0, ONE, 2).unwrap();
    assert_eq!(copy.len(), 3);
    for index in 0..3 {
        assert_eq!(copy.get_basis(index), basis.get_basis(index));
    }
    assert_eq!(
        copy.get_basis(2),
        (Vector2 { x: 0, y: ONE }, Vector2 { x: -ONE, y: 0 })
    );
    assert_eq!(copy.get_basis(0), standard());
    let again = copy.clone();
    assert_eq!(again.get_basis(2), copy.get_basis(2));
}

#[test]
fn a_copy_of_a_register_goes_its_own_way() {
    let template = EntangledParticleN::<2>::new(vec![ONE, 0]).unwrap();
    let mut copy = template.clone();
    copy.change_state_by_matrix(&SingleInputGate::X.get_matrix::<2>(0))
        .unwrap();
    assert_eq!(copy.get_params(), &vec![0, ONE]);
    assert_eq!(template.get_params(), &vec![ONE, 0]);
}
