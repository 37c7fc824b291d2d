use quantum_register::entangled_particle_n::EntangledParticleN;
use quantum_register::gates::{SingleInputGate, TwoInputGate};
use quantum_register::utils::round_to_n_decimal_places;

fn fx(value: f64) -> i64 {
    (value * 1e9).round() as i64
}

fn rounded<const N: usize>(particle: &EntangledParticleN<N>) -> Vec<i64> {
    particle
        .get_params()
        .iter()
        .map(|amplitude| round_to_n_decimal_places(*amplitude, 5))
        .collect()
}

#[test]
fn test_gates() {
    let mut prtcl = EntangledParticleN::<2>::new(vec![fx(0.0), fx(1.0)]).unwrap();
    let hadamard = SingleInputGate::Hadamard.get_matrix::<2>(0);
    prtcl.change_state_by_matrix(&hadamard).unwrap();
    let params = prtcl.get_params();
    assert_eq!(
        [
            round_to_n_decimal_places(params[0], 5),
            round_to_n_decimal_places(params[1], 5)
        ],
        [
            round_to_n_decimal_places(fx(0.5f64.sqrt()), 5),
            round_to_n_decimal_places(fx(-(0.5f64.sqrt())), 5)
        ]
    );

    let mut prtcl =
        EntangledParticleN::<4>::new(vec![fx(1.0), fx(0.0), fx(0.0), fx(0.0)]).unwrap();
    let hadamard = SingleInputGate::Hadamard.get_matrix::<4>(0);

    prtcl.change_state_by_matrix(&hadamard).unwrap();
    let params = prtcl.get_params();
    assert_eq!(
        [
            round_to_n_decimal_places(params[0], 5),
            round_to_n_decimal_places(params[1], 5),
            round_to_n_decimal_places(params[2], 5),
            round_to_n_decimal_places(params[3], 5)
        ],
        [
            round_to_n_decimal_places(fx(0.5f64.sqrt()), 5),
            round_to_n_decimal_places(fx(0.0), 5),
            round_to_n_decimal_places(fx(0.5f64.sqrt()), 5),
            round_to_n_decimal_places(fx(0.0), 5),
        ]
    );
    prtcl.change_state_by_matrix(&hadamard).unwrap();
    let params = prtcl.get_params();
    assert_eq!(
        [
            round_to_n_decimal_places(params[0], 5),
            round_to_n_decimal_places(params[1], 5),
            round_to_n_decimal_places(params[2], 5),
            round_to_n_decimal_places(params[3], 5)
        ],
        [
            round_to_n_decimal_places(fx(1.0), 5),
            round_to_n_decimal_places(fx(0.0), 5),
            round_to_n_decimal_places(fx(0.0), 5),
            round_to_n_decimal_places(fx(0.0), 5),
        ]
    );

    let mut prtcl = EntangledParticleN::<4>::new(vec![
        fx(0.0),
        fx(0.5f64.sqrt()),
        fx(0.0),
        fx(0.5f64.sqrt()),
    ])
    .unwrap();
    let cnot = TwoInputGate::CNot.get_matrix::<4>(0, 1).unwrap();

    prtcl.change_state_by_matrix(&cnot).unwrap();
    let params = prtcl.get_params();
    assert_eq!(
        [
            round_to_n_decimal_places(params[0], 5),
            round_to_n_decimal_places(params[1], 5),
            round_to_n_decimal_places(params[2], 5),
            round_to_n_decimal_places(params[3], 5)
        ],
        [
            round_to_n_decimal_places(fx(0.0), 5),
            round_to_n_decimal_places(fx(0.5f64.sqrt()), 5),
            round_to_n_decimal_places(fx(0.5f64.sqrt()), 5),
            round_to_n_decimal_places(fx(0.0), 5),
        ]
    );
}

#[test]
fn test_bell_circuit() {
    let mut prtcl =
        EntangledParticleN::<4>::new(vec![fx(1.0), fx(0.0), fx(0.0), fx(0.0)]).unwrap();
    let hadamard = SingleInputGate::Hadamard.get_matrix::<4>(0);
    let cnot = TwoInputGate::CNot.get_matrix::<4>(0, 1).unwrap();

    prtcl.change_state_by_matrix(&hadamard).unwrap();
    prtcl.change_state_by_matrix(&cnot).unwrap();

    let half = round_to_n_decimal_places(fx(0.5f64.sqrt()), 5);
    let zero = round_to_n_decimal_places(fx(0.0), 5);
    assert_eq!(rounded(&prtcl), vec![half, zero, zero, half]);

    let mut prtcl =
        EntangledParticleN::<4>::new(vec![fx(0.0), fx(1.0), fx(0.0), fx(0.0)]).unwrap();
    prtcl.change_state_by_matrix(&hadamard).unwrap();
    prtcl.change_state_by_matrix(&cnot).unwrap();
    assert_eq!(rounded(&prtcl), vec![zero, half, half, zero]);

    let mut prtcl =
        EntangledParticleN::<4>::new(vec![fx(0.0), fx(0.0), fx(1.0), fx(0.0)]).unwrap();
    prtcl.change_state_by_matrix(&hadamard).unwrap();
    prtcl.change_state_by_matrix(&cnot).unwrap();
    assert_eq!(rounded(&prtcl), vec![half, zero, zero, -1 * half]);

    let mut prtcl =
        EntangledParticleN::<4>::new(vec![fx(0.0), fx(0.0), fx(0.0), fx(1.0)]).unwrap();
    prtcl.change_state_by_matrix(&hadamard).unwrap();
    prtcl.change_state_by_matrix(&cnot).unwrap();
    assert_eq!(rounded(&prtcl), vec![zero, half, -1 * half, zero]);
}
