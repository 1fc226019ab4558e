//! The validation predicate and the optional-style conversion, checked
//! against the double-precision comparison semantics they model.

use probability_ghosts::maybe::to_probability;
use probability_ghosts::non_total::is_valid_probability;

fn reference_valid(x: f64) -> bool {
    x >= 0.0 && x <= 1.0
}

#[test]
fn nan_is_not_a_probability() {
    assert!(!is_valid_probability(f64::NAN.to_bits()));
}

#[test]
fn negative_one_is_not_a_probability() {
    assert!(!is_valid_probability((-1.0f64).to_bits()));
}

#[test]
fn two_is_not_a_probability() {
    assert!(!is_valid_probability(2.0f64.to_bits()));
}

#[test]
fn infinities_are_not_probabilities() {
    assert!(!is_valid_probability(f64::INFINITY.to_bits()));
    assert!(!is_valid_probability(f64::NEG_INFINITY.to_bits()));
}

#[test]
fn endpoints_are_probabilities() {
    assert!(is_valid_probability(0.0f64.to_bits()));
    assert!(is_valid_probability(1.0f64.to_bits()));
}

#[test]
fn negative_zero_is_a_probability() {
    assert!(is_valid_probability((-0.0f64).to_bits()));
}

#[test]
fn interior_and_subnormal_values_are_probabilities() {
    assert!(is_valid_probability(0.5f64.to_bits()));
    assert!(is_valid_probability((2.0f64 / 3.0).to_bits()));
    assert!(is_valid_probability(5e-324f64.to_bits()));
    assert!(is_valid_probability(f64::MIN_POSITIVE.to_bits()));
}

#[test]
fn validity_agrees_with_float_comparisons_on_a_grid() {
    let grid: [f64; 18] = [
        f64::NAN,
        f64::INFINITY,
        f64::NEG_INFINITY,
        -1.0,
        -0.5,
        -5e-324,
        -0.0,
        0.0,
        5e-324,
        f64::MIN_POSITIVE,
        0.25,
        0.5,
        2.0 / 3.0,
        1.0 - f64::EPSILON,
        1.0,
        1.0 + f64::EPSILON,
        1.5,
        2.0,
    ];
    for &x in grid.iter() {
        assert_eq!(is_valid_probability(x.to_bits()), reference_valid(x));
    }
}

#[test]
fn to_probability_rejects_nan() {
    assert_eq!(to_probability(f64::NAN.to_bits()), None);
}

#[test]
fn to_probability_rejects_out_of_range() {
    assert_eq!(to_probability((-1.0f64).to_bits()), None);
    assert_eq!(to_probability(2.0f64.to_bits()), None);
}

#[test]
fn to_probability_keeps_a_valid_word() {
    let half = 0.5f64.to_bits();
    assert_eq!(to_probability(half), Some(half));
    let zero = 0.0f64.to_bits();
    assert_eq!(to_probability(zero), Some(zero));
}
