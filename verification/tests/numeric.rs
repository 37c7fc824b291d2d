use quantum_register::entangled_particle_n::qubit_count;
use quantum_register::fixed::{fixed_mul_i64, isqrt_u128, round_div_i128, FRAC_1_SQRT_2, ONE};
use quantum_register::gates::log;
use quantum_register::norm::has_unit_norm;
use quantum_register::utils::{approx_eq, round_to_n_decimal_places, Vector2};

#[test]
fn rounding_to_five_places_keeps_five_digits() {
    assert_eq!(round_to_n_decimal_places(707_106_781, 5), 707_110_000);
    assert_eq!(round_to_n_decimal_places(-707_106_781, 5), -707_110_000);
    assert_eq!(round_to_n_decimal_places(123_454_999, 5), 123_450_000);
}

#[test]
fn rounding_puts_ties_away_from_zero() {
    assert_eq!(round_to_n_decimal_places(1_000_005_000, 5), 1_000_010_000);
    assert_eq!(round_to_n_decimal_places(-1_000_005_000, 5), -1_000_010_000);
    assert_eq!(round_to_n_decimal_places(500_000_000, 0), 1_000_000_000);
    assert_eq!(round_to_n_decimal_places(499_999_999, 0), 0);
}

#[test]
fn rounding_to_nine_places_and_more_changes_nothing() {
    assert_eq!(round_to_n_decimal_places(123_456_789, 9), 123_456_789);
    assert_eq!(round_to_n_decimal_places(-123_456_789, 12), -123_456_789);
    assert_eq!(round_to_n_decimal_places(123_456_789, 8), 123_456_790);
}

#[test]
fn vectors_are_compared_at_six_places() {
    let a = Vector2 { x: 707_106_781, y: -707_106_781 };
    let b = Vector2 { x: 707_107_100, y: -707_106_600 };
    let c = Vector2 { x: 707_107_600, y: -707_106_781 };
    assert!(approx_eq(&a, &b));
    assert!(approx_eq(&a, &a));
    assert!(!approx_eq(&a, &c));
    assert!(!approx_eq(
        &Vector2 { x: 0, y: 499 },
        &Vector2 { x: 0, y: 500 }
    ));
}

#[test]
fn quotients_are_rounded_to_the_nearest() {
    assert_eq!(round_div_i128(7, 2), 4);
    assert_eq!(round_div_i128(-7, 2), -4);
    assert_eq!(round_div_i128(6, 4), 2);
    assert_eq!(round_div_i128(5, 4), 1);
    assert_eq!(round_div_i128(-5, 4), -1);
    assert_eq!(round_div_i128(0, 9), 0);
    assert_eq!(round_div_i128(12, 3), 4);
}

#[test]
fn products_are_rounded_to_the_nearest_unit() {
    assert_eq!(fixed_mul_i64(ONE, ONE), ONE);
    assert_eq!(fixed_mul_i64(FRAC_1_SQRT_2, ONE), FRAC_1_SQRT_2);
    assert_eq!(fixed_mul_i64(FRAC_1_SQRT_2, FRAC_1_SQRT_2), 500_000_000);
    assert_eq!(fixed_mul_i64(-FRAC_1_SQRT_2, FRAC_1_SQRT_2), -500_000_000);
    assert_eq!(fixed_mul_i64(500_000_000, 866_025_404), 433_012_702);
    assert_eq!(fixed_mul_i64(3, 500_000_000), 2);
    assert_eq!(fixed_mul_i64(0, ONE), 0);
}

#[test]
fn square_roots_are_rounded_down() {
    assert_eq!(isqrt_u128(0), 0);
    assert_eq!(isqrt_u128(1), 1);
    assert_eq!(isqrt_u128(15), 3);
    assert_eq!(isqrt_u128(16), 4);
    assert_eq!(isqrt_u128(499_999_999_736_181_961), 707_106_781);
    assert_eq!(isqrt_u128(500_000_000_263_818_039), 707_106_781);
    assert_eq!(isqrt_u128(1_000_000_000_000_000_000), 1_000_000_000);
    assert_eq!(isqrt_u128(u128::MAX), 18_446_744_073_709_551_615);
}

#[test]
fn the_logarithm_of_a_power_of_two_is_its_exponent() {
    assert_eq!(log(1), 0);
    assert_eq!(log(2), 1);
    assert_eq!(log(4), 2);
    assert_eq!(log(8), 3);
    assert_eq!(log(1024), 10);
}

#[test]
fn registers_have_a_power_of_two_of_amplitudes() {
    assert_eq!(qubit_count(1), Some(0));
    assert_eq!(qubit_count(2), Some(1));
    assert_eq!(qubit_count(8), Some(3));
    assert_eq!(qubit_count(1 << 24), Some(24));
    assert_eq!(qubit_count(0), None);
    assert_eq!(qubit_count(3), None);
    assert_eq!(qubit_count(12), None);
    assert_eq!(qubit_count(1 << 25), None);
}

#[test]
fn the_norm_may_differ_from_one_by_a_hundred_thousandth() {
    assert!(has_unit_norm(&vec![ONE, 0]));
    assert!(has_unit_norm(&vec![FRAC_1_SQRT_2, 0, 0, -FRAC_1_SQRT_2]));
    assert!(has_unit_norm(&vec![600_000_000, 800_000_000]));
    // The square of 0.999995 is just above 0.99999.
    assert!(has_unit_norm(&vec![999_995_000, 0]));
    assert!(!has_unit_norm(&vec![999_994_999, 0]));
    // The square of 1.000005 is just above 1.00001.
    assert!(has_unit_norm(&vec![0, -1_000_004_999]));
    assert!(!has_unit_norm(&vec![0, -1_000_005_000]));
    assert!(!has_unit_norm(&vec![ONE, ONE]));
    assert!(!has_unit_norm(&vec![i64::MAX, i64::MIN]));
    assert!(!has_unit_norm(&vec![]));
}
