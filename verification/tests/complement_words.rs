//! The word-level complement, held against the hardware's own
//! double-precision subtraction on a grid of probabilities, and the
//! round-trip and agreement properties of the styles.

use probability_ghosts::maybe;
use probability_ghosts::naive_ghosts::Probability;
use probability_ghosts::non_total;

fn grid() -> Vec<f64> {
    vec![
        0.0,
        -0.0,
        1.0,
        0.5,
        0.25,
        0.75,
        2.0 / 3.0,
        1.0 / 3.0,
        0.1,
        0.9,
        0.123456789,
        1e-3,
        1e-10,
        1e-300,
        5e-324,
        1e-310,
        f64::MIN_POSITIVE,
        f64::EPSILON,
        1.0 - f64::EPSILON,
        f64::from_bits(0x3fe0_0000_0000_0001),
        f64::from_bits(0x3fdf_ffff_ffff_ffff),
        f64::from_bits(1),
        f64::from_bits(0x000f_ffff_ffff_ffff),
        f64::from_bits(0x0010_0000_0000_0000),
        f64::from_bits(0x3fef_ffff_ffff_ffff),
        (2.0f64).powi(-54),
        (2.0f64).powi(-53),
        (2.0f64).powi(-54) + (2.0f64).powi(-53),
        0.5 - (2.0f64).powi(-54),
    ]
}

#[test]
fn complement_matches_hardware_subtraction() {
    for &p in grid().iter() {
        let expected = (1.0 - p).to_bits();
        assert_eq!(non_total::complement(p.to_bits()), expected, "at p = {p:e}");
    }
}

#[test]
fn complement_of_half_is_half() {
    let half = 0.5f64.to_bits();
    assert_eq!(non_total::complement(half), half);
}

#[test]
fn complement_round_trips_two_thirds() {
    let two_thirds = (2.0f64 / 3.0).to_bits();
    let once = non_total::complement(two_thirds);
    assert_eq!(non_total::complement(once), two_thirds);
}

#[test]
fn optional_complement_round_trips_two_thirds() {
    let two_thirds = (2.0f64 / 3.0).to_bits();
    let once = maybe::complement(two_thirds).unwrap();
    assert_eq!(maybe::complement(once).unwrap(), two_thirds);
}

#[test]
fn optional_complement_rejects_invalid_words() {
    assert_eq!(maybe::complement(f64::NAN.to_bits()), None);
    assert_eq!(maybe::complement(2.0f64.to_bits()), None);
}

#[test]
fn complement_of_zero_and_one() {
    assert_eq!(non_total::complement(0.0f64.to_bits()), 1.0f64.to_bits());
    assert_eq!(non_total::complement((-0.0f64).to_bits()), 1.0f64.to_bits());
    assert_eq!(non_total::complement(1.0f64.to_bits()), 0.0f64.to_bits());
}

#[test]
fn tiny_probabilities_complement_to_one() {
    // Below the half-spacing of the result binade the difference rounds
    // up to one, with the tie at 2^-54 going to the even significand.
    assert_eq!(non_total::complement((2.0f64).powi(-54).to_bits()), 1.0f64.to_bits());
    assert_eq!(non_total::complement(5e-324f64.to_bits()), 1.0f64.to_bits());
}

#[test]
fn complement_round_trip_misses_when_it_rounds() {
    // One tenth is not a multiple of the result binade's spacing, so the
    // first complement rounds and the round trip strictly misses — in
    // agreement with the hardware.
    let tenth = 0.1f64.to_bits();
    let once = non_total::complement(tenth);
    let back = non_total::complement(once);
    assert_ne!(back, tenth);
    assert_eq!(back, (1.0 - (1.0 - 0.1f64)).to_bits());
}

#[test]
fn complement_matches_hardware_on_a_pseudorandom_sweep() {
    const ONE_BITS: u64 = 0x3ff0_0000_0000_0000;
    // A fixed linear congruential sequence, mapped onto valid words so the
    // sweep crosses zeros, subnormals and every normal binade up to one.
    let mut state: u64 = 0x9e37_79b9_7f4a_7c15;
    for _ in 0..20_000 {
        state = state.wrapping_mul(6364136223846793005).wrapping_add(1442695040888963407);
        let bits = state % (ONE_BITS + 1);
        let p = f64::from_bits(bits);
        let expected = (1.0 - p).to_bits();
        assert_eq!(non_total::complement(bits), expected, "at word {bits:#018x}");
    }
}

#[test]
fn complement_matches_hardware_near_the_boundaries() {
    const ONE_BITS: u64 = 0x3ff0_0000_0000_0000;
    const HALF_BITS: u64 = 0x3fe0_0000_0000_0000;
    for k in 0..2000u64 {
        for &bits in [k, ONE_BITS - k, HALF_BITS - k, HALF_BITS + k].iter() {
            let p = f64::from_bits(bits);
            let expected = (1.0 - p).to_bits();
            assert_eq!(non_total::complement(bits), expected, "at word {bits:#018x}");
        }
    }
}

#[test]
fn all_three_styles_agree_on_the_complement() {
    for &p in grid().iter() {
        let bits = p.to_bits();
        let free = non_total::complement(bits);
        let optional = maybe::complement(bits).unwrap();
        let typed = Probability::try_from(bits).unwrap().complement().bits();
        assert_eq!(free, optional, "at p = {p:e}");
        assert_eq!(free, typed, "at p = {p:e}");
    }
}
