use quantum_register::entangled_particle_n::EntangledParticleN;
use quantum_register::error::QuantumError;
use quantum_register::fixed::{FRAC_1_SQRT_2, ONE};
use quantum_register::gates::SingleInputGate;
use rand::rngs::StdRng;
use rand::SeedableRng;

const H: i64 = FRAC_1_SQRT_2;

fn fx(value: f64) -> i64 {
    (value * 1e9).round() as i64
}

/// The cosine and sine of half an angle given in degrees.
fn half_angle(degrees: f64) -> (i64, i64) {
    let radians = (degrees / 2.0).to_radians();
    (fx(radians.cos()), fx(radians.sin()))
}

fn bell_pair() -> EntangledParticleN<4> {
    EntangledParticleN::<4>::new(vec![H, 0, 0, H]).unwrap()
}

#[test]
fn the_probability_is_counted_in_steps_of_a_hundred_thousandth() {
    let particle = bell_pair();
    assert_eq!(particle.probability(0), 50_000);
    assert_eq!(particle.probability(1), 50_000);
    // Past the last qubit nothing is projected away.
    assert_eq!(particle.probability(2), 100_000);

    let particle = EntangledParticleN::<2>::new(vec![600_000_000, 800_000_000]).unwrap();
    assert_eq!(particle.probability(0), 36_000);

    let particle = EntangledParticleN::<2>::new(vec![ONE, 0]).unwrap();
    assert_eq!(particle.probability(0), 100_000);
    let particle = EntangledParticleN::<2>::new(vec![0, -ONE]).unwrap();
    assert_eq!(particle.probability(0), 0);
}

#[test]
fn the_probability_follows_the_basis() {
    let mut particle = EntangledParticleN::<2>::new(vec![ONE, 0]).unwrap();
    let (cos, sin) = half_angle(120.0);
    assert_eq!((cos, sin), (500_000_000, 866_025_404));
    particle.swap_basis(cos, sin, 0).unwrap();
    assert_eq!(particle.probability(0), 25_000);
    let (cos, sin) = half_angle(90.0);
    particle.swap_basis(cos, sin, 0).unwrap();
    assert_eq!(particle.probability(0), 50_000);
    let (cos, sin) = half_angle(180.0);
    particle.swap_basis(cos, sin, 0).unwrap();
    assert_eq!(particle.probability(0), 0);
    let (cos, sin) = half_angle(360.0);
    particle.swap_basis(cos, sin, 0).unwrap();
    assert_eq!(particle.probability(0), 100_000);
}

#[test]
fn an_outcome_leaves_its_projection_renormalised() {
    let mut particle = bell_pair();
    assert_eq!(particle.collapse(0, true), Ok(()));
    assert_eq!(particle.get_params(), &vec![ONE, 0, 0, 0]);

    let mut particle = bell_pair();
    assert_eq!(particle.collapse(0, false), Ok(()));
    assert_eq!(particle.get_params(), &vec![0, 0, 0, ONE]);

    let mut particle = bell_pair();
    assert_eq!(particle.collapse(1, false), Ok(()));
    assert_eq!(particle.get_params(), &vec![0, 0, 0, ONE]);

    let mut particle =
        EntangledParticleN::<4>::new(vec![500_000_000, 500_000_000, -500_000_000, 500_000_000])
            .unwrap();
    assert_eq!(particle.collapse(1, true), Ok(()));
    assert_eq!(particle.get_params(), &vec![H, 0, -H, 0]);
}

#[test]
fn an_outcome_in_a_turned_basis() {
    // The state (1, 0) seen in a basis turned by 120 degrees: true has the
    // probability of a quarter, and leaves the first basis vector.
    let mut particle = EntangledParticleN::<2>::new(vec![ONE, 0]).unwrap();
    particle.swap_basis(500_000_000, 866_025_404, 0).unwrap();
    assert_eq!(particle.collapse(0, true), Ok(()));
    assert_eq!(particle.get_params(), &vec![500_000_000, 866_025_404]);
    assert_eq!(particle.probability(0), 100_000);

    let mut particle = EntangledParticleN::<2>::new(vec![ONE, 0]).unwrap();
    particle.swap_basis(500_000_000, 866_025_404, 0).unwrap();
    assert_eq!(particle.collapse(0, false), Ok(()));
    assert_eq!(particle.get_params(), &vec![866_025_405, -500_000_001]);
    assert_eq!(particle.probability(0), 0);
}

#[test]
fn an_outcome_of_no_probability_cannot_be_renormalised() {
    let mut particle = EntangledParticleN::<2>::new(vec![ONE, 0]).unwrap();
    assert_eq!(
        particle.collapse(0, false),
        Err(QuantumError::DegenerateCollapse)
    );
    assert_eq!(particle.get_params(), &vec![ONE, 0]);

    let mut particle = EntangledParticleN::<2>::new(vec![0, ONE]).unwrap();
    assert_eq!(
        particle.collapse(0, true),
        Err(QuantumError::DegenerateCollapse)
    );
    assert_eq!(particle.get_params(), &vec![0, ONE]);

}

#[test]
fn past_the_last_qubit_only_true_is_an_outcome() {
    // Nothing is projected away, so the divisor after false is the root of
    // what the squared norm lacks to one, and the quotients are far too
    // large.
    let mut particle = bell_pair();
    assert_eq!(
        particle.collapse(5, false),
        Err(QuantumError::InvariantViolation)
    );
    assert_eq!(particle.get_params(), &vec![H, 0, 0, H]);
    // After true the state is divided by its own norm.
    assert_eq!(particle.collapse(5, true), Ok(()));
    assert_eq!(particle.get_params(), &vec![H + 1, 0, 0, H + 1]);
}

#[test]
fn an_outcome_at_odds_with_the_state_breaks_the_norm() {
    // The squared norm is a little less than one, so what the probability of
    // true lacks to one is more than the squared length of the projection
    // onto false, and the quotient comes out too short.
    let mut particle = EntangledParticleN::<2>::new(vec![999_997_500, 2_236]).unwrap();
    assert_eq!(particle.probability(0), 100_000);
    assert_eq!(
        particle.collapse(0, false),
        Err(QuantumError::InvariantViolation)
    );
    assert_eq!(particle.get_params(), &vec![999_997_500, 2_236]);
}

#[test]
fn a_certain_outcome_is_measured() {
    let mut rng = StdRng::seed_from_u64(17);
    for _ in 0..50 {
        let mut particle = EntangledParticleN::<2>::new(vec![ONE, 0]).unwrap();
        assert_eq!(particle.measure(0, &mut rng), Ok(true));
        assert_eq!(particle.get_params(), &vec![ONE, 0]);
        let mut particle = EntangledParticleN::<2>::new(vec![0, ONE]).unwrap();
        assert_eq!(particle.measure(0, &mut rng), Ok(false));
        assert_eq!(particle.get_params(), &vec![0, ONE]);
        let mut particle = EntangledParticleN::<4>::new(vec![0, H, 0, H]).unwrap();
        assert_eq!(particle.measure(1, &mut rng), Ok(false));
        assert_eq!(particle.get_params(), &vec![0, H, 0, H]);
    }
}

#[test]
fn an_uncertain_outcome_comes_out_both_ways() {
    let mut rng = StdRng::seed_from_u64(19);
    let mut trues = 0;
    for _ in 0..200 {
        let mut particle = EntangledParticleN::<2>::new(vec![H, H]).unwrap();
        if particle.measure(0, &mut rng).unwrap() {
            trues += 1;
            assert_eq!(particle.get_params(), &vec![ONE, 0]);
        } else {
            assert_eq!(particle.get_params(), &vec![0, ONE]);
        }
    }
    assert!(trues > 60 && trues < 140);
}

#[test]
fn the_same_seed_gives_the_same_outcomes() {
    let run = |seed: u64| -> Vec<bool> {
        let mut rng = StdRng::seed_from_u64(seed);
        (0..64)
            .map(|_| {
                let mut particle = EntangledParticleN::<2>::new(vec![H, H]).unwrap();
                particle.measure(0, &mut rng).unwrap()
            })
            .collect()
    };
    assert_eq!(run(23), run(23));
    assert_ne!(run(23), run(29));
}

#[test]
fn a_second_measurement_repeats_the_first() {
    let mut rng = StdRng::seed_from_u64(31);
    for trial in 0..200 {
        let mut particle = EntangledParticleN::<8>::new(vec![
            500_000_000,
            -500_000_000,
            100_000_000,
            200_000_000,
            -300_000_000,
            400_000_000,
            447_213_595,
            0,
        ])
        .unwrap();
        let index = trial % 3;
        let first = particle.measure(index, &mut rng).unwrap();
        for _ in 0..5 {
            assert_eq!(particle.measure(index, &mut rng), Ok(first));
        }
    }
}

#[test]
fn a_second_measurement_repeats_the_first_in_a_turned_basis() {
    let mut rng = StdRng::seed_from_u64(37);
    for trial in 0..300 {
        let mut particle = EntangledParticleN::<4>::new(vec![
            500_000_000,
            500_000_000,
            -500_000_000,
            500_000_000,
        ])
        .unwrap();
        let index = trial % 2;
        let (cos, sin) = half_angle(7.0 * trial as f64);
        particle.swap_basis(cos, sin, index).unwrap();
        let first = particle.measure(index, &mut rng).unwrap();
        for _ in 0..3 {
            assert_eq!(particle.measure(index, &mut rng), Ok(first));
        }
    }
}

#[test]
fn measurement_after_an_operator_may_change() {
    let mut rng = StdRng::seed_from_u64(41);
    let mut particle = EntangledParticleN::<2>::new(vec![ONE, 0]).unwrap();
    assert_eq!(particle.measure(0, &mut rng), Ok(true));
    particle
        .change_state_by_matrix(&SingleInputGate::X.get_matrix::<2>(0))
        .unwrap();
    assert_eq!(particle.measure(0, &mut rng), Ok(false));
}

#[test]
fn an_entangled_pair_agrees_in_equal_bases() {
    let mut rng = StdRng::seed_from_u64(43);
    for degrees in [0.0, 45.0, 90.0, 120.0, 233.0] {
        for _ in 0..100 {
            let mut particle = bell_pair();
            let (cos, sin) = half_angle(degrees);
            particle.swap_basis(cos, sin, 0).unwrap();
            particle.swap_basis(cos, sin, 1).unwrap();
            let alice = particle.measure(0, &mut rng).unwrap();
            let bob = particle.measure(1, &mut rng).unwrap();
            assert_eq!(alice, bob);
        }
    }
}

#[test]
fn an_entangled_pair_agrees_a_quarter_of_the_time_at_120_degrees() {
    let mut rng = StdRng::seed_from_u64(47);
    let reps = 1000;
    let mut agreements = 0;
    for _ in 0..reps {
        let mut particle = bell_pair();
        let (cos, sin) = half_angle(0.0);
        particle.swap_basis(cos, sin, 0).unwrap();
        let (cos, sin) = half_angle(120.0);
        particle.swap_basis(cos, sin, 1).unwrap();
        let alice = particle.measure(0, &mut rng).unwrap();
        let bob = particle.measure(1, &mut rng).unwrap();
        if alice == bob {
            agreements += 1;
        }
    }
    let share = agreements as f64 / reps as f64;
    assert!((share - 0.25).abs() <= 0.05);
}
