//! A bit-level model of IEEE 754 binary64 values in the unit interval.
//!
//! A 64-bit word is read as a sign bit, an 11-bit biased exponent and a
//! 52-bit fraction.  Every finite double-precision value whose magnitude is
//! at most 1 is an integer multiple of the smallest subnormal, so `fval`
//! maps a word to that integer (the value in units of the smallest
//! subnormal), and `in_unit` holds exactly of the words that encode a value
//! between 0 and 1 inclusive.  The predicate agrees with the usual ordered
//! comparison of a double against the endpoints: NaN and infinite words are
//! rejected, both zeros are accepted.

use vstd::prelude::*;

verus! {

use vstd::arithmetic::power2::{
    pow2,
    lemma_pow2_adds,
    lemma_pow2_pos,
    lemma_pow2_strictly_increases,
    lemma2_to64,
    lemma2_to64_rest,
};

/// The word for negative zero: sign bit set, all other bits clear.
pub const NEG_ZERO_BITS: u64 = 0x8000_0000_0000_0000;

/// The word for positive one: biased exponent 1023, fraction 0.
pub const ONE_BITS: u64 = 0x3ff0_0000_0000_0000;

/// The word for one half: biased exponent 1022, fraction 0.
pub const HALF_BITS: u64 = 0x3fe0_0000_0000_0000;

/// Mask of the 52 fraction bits.
pub const FRAC_MASK: u64 = 0x000f_ffff_ffff_ffff;

/// The weight of the implicit leading significand bit: two to the 52nd.
pub const IMPLICIT_ONE: u64 = 0x0010_0000_0000_0000;

/// The exclusive bound of a full significand: two to the 53rd.
pub const SIG_LIMIT: u64 = 0x0020_0000_0000_0000;

/// The scale of `fval`: a word's value is `fval` times 2^-1074, and the
/// value one has `fval` equal to `pow2(UNIT)`.
pub const UNIT: u64 = 1074;

/// The sign bit of a word, 0 or 1.
pub open spec fn sign_field(b: u64) -> u64 {
    b >> 63
}

/// The 11-bit biased exponent field of a word.
pub open spec fn exp_field(b: u64) -> u64 {
    (b >> 52) & 0x7ff
}

/// The 52-bit fraction field of a word.
pub open spec fn frac_field(b: u64) -> u64 {
    b & FRAC_MASK
}

/// A word encodes a finite value: the exponent field is not all ones
/// (all ones encodes an infinity or a NaN).
pub open spec fn is_finite(b: u64) -> bool {
    exp_field(b) != 0x7ff
}

/// The magnitude of the encoded value in units of 2^-1074: the fraction
/// alone for subnormals, the fraction with its implicit leading bit scaled
/// by the exponent for normal values.
pub open spec fn mag(b: u64) -> int {
    if exp_field(b) == 0 {
        frac_field(b) as int
    } else {
        (frac_field(b) + pow2(52)) * pow2((exp_field(b) - 1) as nat)
    }
}

/// The signed value of a finite word in units of 2^-1074.
pub open spec fn fval(b: u64) -> int {
    if sign_field(b) == 0 {
        mag(b)
    } else {
        -mag(b)
    }
}

/// The word encodes a value in the closed interval from zero to one.
/// This is what comparing a double against the two endpoints with the
/// ordered `>=` and `<=` operators tests: NaN compares false, so only
/// finite in-range words qualify.
pub open spec fn in_unit(b: u64) -> bool {
    &&& is_finite(b)
    &&& 0 <= fval(b) <= pow2(UNIT as nat)
}

/// Field-level facts about a word, read off the bit layout.
pub proof fn lemma_field_facts(b: u64)
    by (bit_vector)
    ensures
        b >> 63 == 0 || b >> 63 == 1,
        (b >> 52) & 0x7ff <= 0x7ff,
        b & 0x000f_ffff_ffff_ffff < 0x0010_0000_0000_0000,
        b < 0x3ff0_0000_0000_0000 ==> (b >> 52) & 0x7ff <= 1022,
        (b >> 63 == 0 && b != 0) ==> ((b >> 52) & 0x7ff != 0 || b & 0x000f_ffff_ffff_ffff != 0),
        b <= 0x3ff0_0000_0000_0000 ==> b >> 63 == 0,
        b <= 0x3ff0_0000_0000_0000 ==> (b >> 52) & 0x7ff <= 1023,
        (b <= 0x3ff0_0000_0000_0000 && (b >> 52) & 0x7ff == 1023) ==> b
            & 0x000f_ffff_ffff_ffff == 0,
        (b >> 63 == 0 && b > 0x3ff0_0000_0000_0000) ==> (b >> 52) & 0x7ff >= 1023,
        (b >> 63 == 0 && b > 0x3ff0_0000_0000_0000 && (b >> 52) & 0x7ff == 1023) ==> b
            & 0x000f_ffff_ffff_ffff >= 1,
        b == 0x8000_0000_0000_0000 ==> (b >> 63 == 1 && (b >> 52) & 0x7ff == 0 && b
            & 0x000f_ffff_ffff_ffff == 0),
        (b >> 63 == 1 && b != 0x8000_0000_0000_0000) ==> ((b >> 52) & 0x7ff != 0 || b
            & 0x000f_ffff_ffff_ffff != 0),
{
}

/// A word is determined by its three fields.
proof fn lemma_fields_determine(b1: u64, b2: u64)
    by (bit_vector)
    requires
        b1 >> 63 == b2 >> 63,
        (b1 >> 52) & 0x7ff == (b2 >> 52) & 0x7ff,
        b1 & 0x000f_ffff_ffff_ffff == b2 & 0x000f_ffff_ffff_ffff,
    ensures
        b1 == b2,
{
}

/// The fields of the named constant words, and the values of the two
/// significand constants, read off the bit layout.
pub proof fn lemma_word_consts()
    by (bit_vector)
    ensures
        0x3ff0_0000_0000_0000u64 >> 63 == 0,
        (0x3ff0_0000_0000_0000u64 >> 52) & 0x7ff == 1023,
        0x3ff0_0000_0000_0000u64 & 0x000f_ffff_ffff_ffff == 0,
        0x3fe0_0000_0000_0000u64 >> 63 == 0,
        (0x3fe0_0000_0000_0000u64 >> 52) & 0x7ff == 1022,
        0x3fe0_0000_0000_0000u64 & 0x000f_ffff_ffff_ffff == 0,
        0u64 >> 63 == 0,
        (0u64 >> 52) & 0x7ff == 0,
        0u64 & 0x000f_ffff_ffff_ffff == 0,
{
}

/// The powers of two do not decrease with the exponent.
pub proof fn lemma_pow2_increases(e1: nat, e2: nat)
    requires
        e1 <= e2,
    ensures
        pow2(e1) <= pow2(e2),
{
    if e1 < e2 {
        lemma_pow2_strictly_increases(e1, e2);
    }
}

/// The values of the constant words: zero, negative zero, one half and one.
pub proof fn lemma_const_values()
    ensures
        in_unit(0u64) && sign_field(0u64) == 0 && fval(0u64) == 0,
        in_unit(NEG_ZERO_BITS) && fval(NEG_ZERO_BITS) == 0,
        in_unit(ONE_BITS) && sign_field(ONE_BITS) == 0 && fval(ONE_BITS) == pow2(UNIT as nat),
        in_unit(HALF_BITS) && sign_field(HALF_BITS) == 0 && fval(HALF_BITS) == pow2(1073),
        IMPLICIT_ONE == pow2(52),
        SIG_LIMIT == pow2(53),
{
    lemma_word_consts();
    lemma_field_facts(NEG_ZERO_BITS);
    lemma2_to64();
    lemma2_to64_rest();
    lemma_pow2_adds(52, 1022);
    lemma_pow2_adds(52, 1021);
    lemma_pow2_pos(UNIT as nat);
    lemma_pow2_pos(1073);
    assert(exp_field(ONE_BITS) == 1023 && frac_field(ONE_BITS) == 0);
    assert(mag(ONE_BITS) == pow2(52) * pow2(1022));
    assert(exp_field(HALF_BITS) == 1022 && frac_field(HALF_BITS) == 0);
    assert(mag(HALF_BITS) == pow2(52) * pow2(1021));
    lemma_pow2_strictly_increases(1073, UNIT as nat);
}

/// How the magnitude of a word compares with the magnitude of one,
/// according to its exponent and fraction fields.
pub proof fn lemma_mag_bounds(b: u64)
    ensures
        mag(b) >= 0,
        exp_field(b) == 0 ==> mag(b) == frac_field(b),
        exp_field(b) >= 1 ==> mag(b) >= pow2((exp_field(b) + 51) as nat),
        exp_field(b) >= 1 ==> mag(b) < pow2((exp_field(b) + 52) as nat),
        exp_field(b) <= 1022 ==> mag(b) < pow2(UNIT as nat),
        (exp_field(b) == 1023 && frac_field(b) == 0) ==> mag(b) == pow2(UNIT as nat),
        (exp_field(b) == 1023 && frac_field(b) >= 1) ==> mag(b) > pow2(UNIT as nat),
        exp_field(b) >= 1024 ==> mag(b) > pow2(UNIT as nat),
        (exp_field(b) != 0 || frac_field(b) != 0) ==> mag(b) > 0,
{
    lemma_field_facts(b);
    let e = exp_field(b);
    let f = frac_field(b) as int;
    lemma2_to64();
    lemma2_to64_rest();
    lemma_pow2_pos(UNIT as nat);
    if e == 0 {
        lemma_pow2_strictly_increases(52, UNIT as nat);
        assert(f < pow2(52));
    } else {
        let m = mag(b);
        let p = pow2((e - 1) as nat) as int;
        let p52 = pow2(52) as int;
        let p53 = pow2(53) as int;
        lemma_pow2_pos((e - 1) as nat);
        lemma_pow2_adds(52, (e - 1) as nat);
        lemma_pow2_adds(53, (e - 1) as nat);
        assert(f + p52 < p53);
        assert(m >= p52 * p >= 0) by (nonlinear_arith)
            requires
                m == (f + p52) * p,
                f >= 0,
                p52 > 0,
                p > 0,
        ;
        assert(p52 * p == pow2((e + 51) as nat));
        assert(m < p53 * p) by (nonlinear_arith)
            requires
                m == (f + p52) * p,
                f + p52 < p53,
                p > 0,
        ;
        assert(p53 * p == pow2((e + 52) as nat));
        if e <= 1022 {
            if e + 52 < UNIT {
                lemma_pow2_strictly_increases((e + 52) as nat, UNIT as nat);
            }
        }
        if e == 1023 {
            lemma_pow2_adds(52, 1022);
            assert(p52 * pow2(1022) == pow2(UNIT as nat));
            if f >= 1 {
                assert((f + p52) * p > p52 * p) by (nonlinear_arith)
                    requires
                        f >= 1,
                        p > 0,
                        p52 > 0,
                ;
            }
        }
        if e >= 1024 {
            lemma_pow2_strictly_increases(UNIT as nat, (e + 51) as nat);
        }
    }
}

/// The unit-interval test over raw words: a word encodes a value in
/// the closed unit interval exactly when it is negative zero or is at
/// most the word for one (all such words have the sign bit clear, and
/// the nonnegative finite words order as their bit patterns do).
pub proof fn lemma_in_unit_test(b: u64)
    ensures
        in_unit(b) == (b == NEG_ZERO_BITS || b <= ONE_BITS),
{
    lemma_field_facts(b);
    lemma_mag_bounds(b);
    lemma_pow2_pos(UNIT as nat);
    if b == NEG_ZERO_BITS {
        assert(mag(b) == 0);
        assert(in_unit(b));
    } else if b <= ONE_BITS {
        assert(sign_field(b) == 0);
        assert(exp_field(b) <= 1023);
        assert(is_finite(b));
        if exp_field(b) == 1023 {
            assert(frac_field(b) == 0);
            assert(mag(b) == pow2(UNIT as nat));
        }
        assert(in_unit(b));
    } else {
        if sign_field(b) == 0 {
            assert(exp_field(b) >= 1023);
            if is_finite(b) {
                if exp_field(b) == 1023 {
                    assert(frac_field(b) >= 1);
                    assert(mag(b) > pow2(UNIT as nat));
                } else {
                    assert(exp_field(b) >= 1024);
                }
                assert(!in_unit(b));
            }
        } else {
            if is_finite(b) {
                assert(exp_field(b) != 0 || frac_field(b) != 0);
                assert(mag(b) > 0);
                assert(fval(b) < 0);
                assert(!in_unit(b));
            }
        }
    }
}

/// Whether a word encodes a value in the closed unit interval.
/// This is the one validity test all three styles share.
pub fn is_in_unit(b: u64) -> (r: bool)
    ensures
        r == in_unit(b),
{
    proof {
        lemma_in_unit_test(b);
    }
    b == NEG_ZERO_BITS || b <= ONE_BITS
}

/// Among words in the unit interval with a clear sign bit, the encoded
/// value determines the word: the encoding of a value is unique.  (Only
/// the two zeros share a value, and they differ in the sign bit.)
pub proof fn lemma_unit_bits_determined(b1: u64, b2: u64)
    requires
        in_unit(b1),
        in_unit(b2),
        sign_field(b1) == 0,
        sign_field(b2) == 0,
        fval(b1) == fval(b2),
    ensures
        b1 == b2,
{
    lemma_mag_bounds(b1);
    lemma_mag_bounds(b2);
    let e1 = exp_field(b1);
    let e2 = exp_field(b2);
    lemma2_to64();
    lemma2_to64_rest();
    if e1 < e2 {
        lemma_exp_orders_mag(b1, b2);
    } else if e2 < e1 {
        lemma_exp_orders_mag(b2, b1);
    }
    assert(e1 == e2);
    if e1 == 0 {
        assert(frac_field(b1) == frac_field(b2));
    } else {
        let f1 = frac_field(b1) as int;
        let f2 = frac_field(b2) as int;
        let p52 = pow2(52) as int;
        let p = pow2((e1 - 1) as nat) as int;
        lemma_pow2_pos((e1 - 1) as nat);
        assert(f1 == f2) by (nonlinear_arith)
            requires
                (f1 + p52) * p == (f2 + p52) * p,
                p > 0,
        ;
    }
    lemma_fields_determine(b1, b2);
}

/// A word with the smaller exponent field has the strictly smaller
/// magnitude, for finite words.
proof fn lemma_exp_orders_mag(lo: u64, hi: u64)
    requires
        exp_field(lo) < exp_field(hi),
    ensures
        mag(lo) < mag(hi),
{
    lemma_field_facts(lo);
    lemma_field_facts(hi);
    lemma_mag_bounds(lo);
    lemma_mag_bounds(hi);
    let el = exp_field(lo);
    let eh = exp_field(hi);
    lemma2_to64();
    lemma2_to64_rest();
    if el == 0 {
        assert(mag(lo) < pow2(52));
        if eh + 51 > 52 {
            lemma_pow2_strictly_increases(52, (eh + 51) as nat);
        }
        assert(mag(hi) >= pow2((eh + 51) as nat));
    } else {
        assert(mag(lo) < pow2((el + 52) as nat));
        if el + 52 < eh + 51 {
            lemma_pow2_strictly_increases((el + 52) as nat, (eh + 51) as nat);
        }
        assert(mag(hi) >= pow2((eh + 51) as nat));
    }
}

} // verus!
