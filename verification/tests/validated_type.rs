//! The validated value type: construction is the only fallible step, and
//! the conversion back is lossless.

use probability_ghosts::naive_ghosts::Probability;

#[test]
fn construction_rejects_two() {
    match Probability::try_from(2.0f64.to_bits()) {
        Err(e) => assert_eq!(e, "Probability not in [0, 1]"),
        Ok(_) => panic!("a probability above one must be rejected"),
    }
}

#[test]
fn construction_rejects_nan_and_negatives() {
    assert!(Probability::try_from(f64::NAN.to_bits()).is_err());
    assert!(Probability::try_from((-1.0f64).to_bits()).is_err());
    assert!(Probability::try_from((-5e-324f64).to_bits()).is_err());
}

#[test]
fn construction_keeps_the_word() {
    let half = 0.5f64.to_bits();
    let p = Probability::try_from(half).unwrap();
    assert_eq!(p.bits(), half);
    assert_eq!(f64::from_bits(p.bits()), 0.5);
}

#[test]
fn typed_complement_is_total_and_exact() {
    let half = Probability::try_from(0.5f64.to_bits()).unwrap();
    assert_eq!(half.complement().bits(), 0.5f64.to_bits());
    let two_thirds = Probability::try_from((2.0f64 / 3.0).to_bits()).unwrap();
    let back = two_thirds.complement().complement();
    assert_eq!(back.bits(), (2.0f64 / 3.0).to_bits());
}

#[test]
fn endpoints_construct_and_complement() {
    let zero = Probability::try_from(0.0f64.to_bits()).unwrap();
    assert_eq!(zero.complement().bits(), 1.0f64.to_bits());
    let one = Probability::try_from(1.0f64.to_bits()).unwrap();
    assert_eq!(one.complement().bits(), 0.0f64.to_bits());
}
