//! The complement of a probability, computed exactly as double-precision
//! subtraction from one would compute it.
//!
//! In `fval` units (multiples of 2^-1074, see `binary64`), the exact
//! difference of one and a unit-interval value v is `pow2(1074) - v`.  When
//! that difference is at most one half it is representable as it stands:
//! the input then lies in [1/2, 1], where every value is a multiple of the
//! spacing `pow2(1021)`, and so is the difference (Sterbenz).  When the
//! difference lies in (1/2, 1] it falls in the binade whose spacing is
//! `pow2(1021)`, and is rounded to the nearest such multiple, ties to the
//! even multiple.  `comp_scaled` states this; `complement_of_bits` computes
//! it on the words themselves and is proved to match.

use vstd::prelude::*;

verus! {

use crate::binary64::{
    FRAC_MASK,
    IMPLICIT_ONE,
    NEG_ZERO_BITS,
    ONE_BITS,
    SIG_LIMIT,
    UNIT,
    exp_field,
    frac_field,
    fval,
    in_unit,
    lemma_const_values,
    lemma_field_facts,
    lemma_in_unit_test,
    lemma_mag_bounds,
    lemma_pow2_increases,
    lemma_unit_bits_determined,
    mag,
    sign_field,
};
use vstd::arithmetic::power2::{
    pow2,
    lemma_pow2_adds,
    lemma_pow2_pos,
    lemma_pow2_strictly_increases,
    lemma2_to64,
    lemma2_to64_rest,
};
use vstd::arithmetic::div_mod::{
    lemma_fundamental_div_mod,
    lemma_fundamental_div_mod_converse,
    lemma_mod_multiples_basic,
};
use vstd::bits::{lemma_u64_pow2_no_overflow, lemma_u64_shl_is_mul};

/// The multiple of `s` nearest to `x`; a tie goes to the multiple with the
/// even quotient.
pub open spec fn round_half_even(x: int, s: int) -> int
    recommends
        s > 0,
{
    let q = x / s;
    let r = x % s;
    if 2 * r < s {
        s * q
    } else if 2 * r > s {
        s * (q + 1)
    } else if q % 2 == 0 {
        s * q
    } else {
        s * (q + 1)
    }
}

/// What subtracting a unit-interval double from one gives, in `fval`
/// units: the exact difference when it is at most one half (it is then
/// representable, the input being a multiple of `pow2(1021)`), and
/// otherwise the difference rounded to the spacing of the binade of
/// results in (1/2, 1], ties to even.
pub open spec fn comp_scaled(v: int) -> int
    recommends
        0 <= v <= pow2(UNIT as nat),
{
    let x = pow2(UNIT as nat) - v;
    if x <= pow2(1073) {
        x
    } else {
        round_half_even(x, pow2(1021) as int)
    }
}

/// Splitting a word below the significand limit at bit `s`.
proof fn lemma_split_word(x: u64, s: u64)
    by (bit_vector)
    requires
        1 <= s <= 53,
    ensures
        x & (((1u64 << s) - 1) as u64) < (1u64 << s),
        x == (x >> s) * (1u64 << s) + (x & (((1u64 << s) - 1) as u64)),
        x < 0x0020_0000_0000_0000 ==> x >> s < 0x0010_0000_0000_0000,
{
}

/// The fields of a word assembled from an exponent below 1023 and a
/// fraction below the implicit bit.
proof fn lemma_encode(ef: u64, d: u64)
    by (bit_vector)
    requires
        1 <= ef <= 1022,
        d < 0x0010_0000_0000_0000,
    ensures
        ((ef << 52) | d) >> 63 == 0,
        (((ef << 52) | d) >> 52) & 0x7ff == ef,
        ((ef << 52) | d) & 0x000f_ffff_ffff_ffff == d,
{
}

/// Rounding a multiple of the spacing moves nothing.
proof fn lemma_round_multiple(x: int, s: int)
    requires
        s > 0,
        x % s == 0,
    ensures
        round_half_even(x, s) == x,
{
    lemma_fundamental_div_mod(x, s);
}

/// Taking the complement twice gives back the starting value, whenever
/// the first complement is exact — which is the case exactly when the
/// value is a multiple of the result binade's spacing `pow2(1021)`, and
/// so in particular for every probability of at least one half.
pub proof fn lemma_complement_involution(v: int)
    requires
        0 <= v <= pow2(UNIT as nat),
        v % (pow2(1021) as int) == 0,
    ensures
        comp_scaled(comp_scaled(v)) == v,
{
    let ss = pow2(1021) as int;
    let p53 = pow2(53) as int;
    let pu = pow2(UNIT as nat) as int;
    lemma_pow2_pos(1021);
    lemma_pow2_adds(53, 1021);
    let x = pu - v;
    lemma_fundamental_div_mod(v, ss);
    let k = v / ss;
    assert(x == (p53 - k) * ss) by (nonlinear_arith)
        requires
            x == pu - v,
            pu == p53 * ss,
            v == ss * k,
    ;
    lemma_mod_multiples_basic(p53 - k, ss);
    assert(x % ss == 0);
    if x > pow2(1073) {
        lemma_round_multiple(x, ss);
    }
    assert(comp_scaled(v) == x);
    if v > pow2(1073) {
        lemma_round_multiple(v, ss);
    }
    assert(comp_scaled(x) == v);
}

/// Two words that both satisfy the complement contract for the same
/// input are the same word: no two functions meeting the contract can
/// disagree, so the styles all return identical words.
pub proof fn lemma_complement_unique(b: u64, r1: u64, r2: u64)
    requires
        in_unit(r1),
        sign_field(r1) == 0,
        fval(r1) == comp_scaled(fval(b)),
        in_unit(r2),
        sign_field(r2) == 0,
        fval(r2) == comp_scaled(fval(b)),
    ensures
        r1 == r2,
{
    lemma_unit_bits_determined(r1, r2);
}

/// The word-level involution: complementing a word twice gives the word
/// back, whenever its value is a multiple of `pow2(1021)` (for one, every
/// word of value at least one half) and it is not negative zero.
pub proof fn lemma_complement_involution_bits(b: u64, c: u64, d: u64)
    requires
        in_unit(b),
        sign_field(b) == 0,
        fval(b) % (pow2(1021) as int) == 0,
        in_unit(c),
        sign_field(c) == 0,
        fval(c) == comp_scaled(fval(b)),
        in_unit(d),
        sign_field(d) == 0,
        fval(d) == comp_scaled(fval(c)),
    ensures
        d == b,
{
    lemma_pow2_pos(UNIT as nat);
    lemma_complement_involution(fval(b));
    lemma_unit_bits_determined(d, b);
}

/// The converse side of the involution: when the word's value is not a
/// multiple of `pow2(1021)` — possible only below one half — the first
/// complement rounds, and the round trip strictly misses the starting
/// word.  So the hypothesis of `lemma_complement_involution_bits` is
/// exactly the exact-round-trip condition.
pub proof fn lemma_complement_rounds_otherwise(b: u64, c: u64, d: u64)
    requires
        in_unit(b),
        sign_field(b) == 0,
        fval(b) % (pow2(1021) as int) != 0,
        in_unit(c),
        sign_field(c) == 0,
        fval(c) == comp_scaled(fval(b)),
        in_unit(d),
        sign_field(d) == 0,
        fval(d) == comp_scaled(fval(c)),
    ensures
        d != b,
{
    let ss = pow2(1021) as int;
    let p52 = pow2(52) as int;
    let p53 = pow2(53) as int;
    let pu = pow2(UNIT as nat) as int;
    lemma2_to64();
    lemma2_to64_rest();
    lemma_pow2_pos(1021);
    lemma_pow2_pos(1073);
    lemma_pow2_adds(53, 1021);
    lemma_pow2_adds(52, 1021);
    lemma_pow2_adds(1, 52);
    lemma_pow2_adds(1, 1073);
    let v = fval(b);
    lemma_mag_bounds(b);
    lemma_field_facts(b);
    // A value of at least one half is a multiple of the spacing, so the
    // hypothesis puts the value strictly below one half.
    if v >= pow2(1073) {
        let e = exp_field(b);
        let f = frac_field(b) as int;
        if e == 0 {
            lemma_pow2_strictly_increases(52, 1073);
            assert(false);
        }
        if 1 <= e <= 1021 {
            lemma_pow2_increases((e + 52) as nat, 1073);
            assert(false);
        }
        lemma_pow2_adds((e - 1022) as nat, 1021);
        assert(mag(b) == ((f + p52) * pow2((e - 1022) as nat)) * ss) by (nonlinear_arith)
            requires
                mag(b) == (f + p52) * pow2((e - 1) as nat),
                pow2((e - 1) as nat) == pow2((e - 1022) as nat) * pow2(1021),
                ss == pow2(1021),
        ;
        lemma_mod_multiples_basic((f + p52) * pow2((e - 1022) as nat), ss);
        assert(false);
    }
    if v == 0 {
        lemma_mod_multiples_basic(0, ss);
        assert(false);
    }
    assert(1 <= v < pow2(1073));
    let x = pu - v;
    assert(x > pow2(1073));
    // The difference is not a multiple of the spacing either.
    lemma_fundamental_div_mod(v, ss);
    let k = v / ss;
    let rv = v % ss;
    assert(0 < rv < ss);
    assert(x == (p53 - k - 1) * ss + (ss - rv)) by (nonlinear_arith)
        requires
            x == pu - v,
            pu == p53 * ss,
            v == ss * k + rv,
    ;
    lemma_fundamental_div_mod_converse(x, ss, p53 - k - 1, ss - rv);
    assert(x % ss == ss - rv);
    let q = x / ss;
    assert(q == p53 - k - 1);
    assert(k < p52) by (nonlinear_arith)
        requires
            v == ss * k + rv,
            rv >= 0,
            v < p52 * ss,
            ss > 0,
            k == v / ss,
            v >= 0,
    ;
    // The rounded first complement is a multiple of the spacing at least
    // one half, and differs from the exact difference.
    let cval = fval(c);
    assert(cval == round_half_even(x, ss));
    assert(cval == ss * q || cval == ss * (q + 1));
    assert(cval >= ss * p52) by (nonlinear_arith)
        requires
            cval == ss * q || cval == ss * (q + 1),
            q >= p52,
            ss > 0,
    ;
    assert(cval % ss == 0) by {
        if cval == ss * q {
            assert(cval == q * ss) by (nonlinear_arith)
                requires
                    cval == ss * q,
            ;
            lemma_mod_multiples_basic(q, ss);
        } else {
            assert(cval == (q + 1) * ss) by (nonlinear_arith)
                requires
                    cval == ss * (q + 1),
            ;
            lemma_mod_multiples_basic(q + 1, ss);
        }
    }
    assert(cval != x);
    // The second complement is exact, so the round trip lands on the
    // rounded value's complement, not on the starting value.
    assert(ss * p52 == pow2(1073)) by (nonlinear_arith)
        requires
            ss == pow2(1021),
            p52 == pow2(52),
            pow2(1073) == pow2(52) * pow2(1021),
    ;
    assert(pu - cval <= pow2(1073));
    assert(fval(d) == pu - cval);
    assert(fval(b) == pu - x);
    assert(fval(d) != fval(b));
}

/// The complement of a unit-interval word: the word for one minus its
/// value, rounded as double-precision subtraction would round it.
/// The result is again in the unit interval, and never negative zero.
pub fn complement_of_bits(b: u64) -> (r: u64)
    requires
        in_unit(b),
    ensures
        in_unit(r),
        sign_field(r) == 0,
        fval(r) == comp_scaled(fval(b)),
{
    proof {
        lemma_in_unit_test(b);
        lemma_field_facts(b);
        lemma_mag_bounds(b);
        lemma_const_values();
        lemma2_to64();
        lemma2_to64_rest();
        lemma_pow2_pos(1021);
        lemma_pow2_pos(1073);
        lemma_pow2_adds(53, 1021);
        lemma_pow2_adds(52, 1021);
        lemma_pow2_strictly_increases(1073, UNIT as nat);
    }
    let ghost v = fval(b);
    let ghost ss = pow2(1021) as int;
    let ghost p52 = pow2(52) as int;
    let ghost p53 = pow2(53) as int;
    if b == 0u64 || b == NEG_ZERO_BITS {
        proof {
            assert(v == 0);
            let x = pow2(UNIT as nat) - 0;
            lemma_fundamental_div_mod_converse(x, ss, p53, 0);
            assert(round_half_even(x, ss) == ss * p53);
        }
        return ONE_BITS;
    }
    if b == ONE_BITS {
        proof {
            assert(v == pow2(UNIT as nat));
            assert(comp_scaled(v) == 0);
        }
        return 0u64;
    }
    let e: u64 = (b >> 52) & 0x7ff;
    let m: u64 = b & FRAC_MASK;
    proof {
        assert(b < ONE_BITS);
        assert(e <= 1022);
        assert(sign_field(b) == 0);
        assert(e != 0 || m != 0);
    }
    if e == 1022u64 {
        // The input lies in [1/2, 1): the difference is exact; renormalize
        // the significand of (one minus the input).
        let mut n: u64 = IMPLICIT_ONE - m;
        let mut ef: u64 = 1022;
        let ghost x = (p52 - m) * ss;
        proof {
            assert(v == (m + p52) * ss);
            assert(x == pow2(UNIT as nat) - v) by (nonlinear_arith)
                requires
                    x == (p52 - m) * ss,
                    v == (m + p52) * ss,
                    pow2(UNIT as nat) == p53 * ss,
                    p53 == p52 + p52,
            ;
            assert(x <= p52 * ss) by (nonlinear_arith)
                requires
                    x == (p52 - m) * ss,
                    m >= 0,
                    ss > 0,
            ;
            assert(x >= 1 * ss) by (nonlinear_arith)
                requires
                    x == (p52 - m) * ss,
                    m < p52,
                    ss > 0,
            ;
            assert(comp_scaled(v) == x);
            assert(n * pow2((ef - 1) as nat) == x);
        }
        while n < IMPLICIT_ONE
            invariant
                1 <= n < SIG_LIMIT,
                970 <= ef <= 1022,
                n * pow2((ef - 1) as nat) == x,
                x >= pow2(1021),
                IMPLICIT_ONE == pow2(52),
                SIG_LIMIT == pow2(53),
            decreases SIG_LIMIT - n,
        {
            proof {
                lemma2_to64();
                lemma_pow2_pos((ef - 1) as nat);
                if ef == 970 {
                    lemma_pow2_adds(52, 969);
                    assert(n * pow2(969) < pow2(52) * pow2(969)) by (nonlinear_arith)
                        requires
                            n < pow2(52),
                            pow2(969) > 0,
                    ;
                    assert(false);
                }
                lemma_pow2_adds(1, (ef - 2) as nat);
                assert(pow2((ef - 1) as nat) == 2 * pow2((ef - 2) as nat));
                assert((n + n) * pow2((ef - 2) as nat) == n * (2 * pow2((ef - 2) as nat)))
                    by (nonlinear_arith);
            }
            n = n + n;
            ef = ef - 1;
        }
        let d: u64 = n - IMPLICIT_ONE;
        let r: u64 = (ef << 52) | d;
        proof {
            lemma_encode(ef, d);
            assert(exp_field(r) == ef && frac_field(r) == d && sign_field(r) == 0);
            assert(mag(r) == (d + p52) * pow2((ef - 1) as nat));
            assert(fval(r) == x);
            assert(x <= p52 * ss < pow2(UNIT as nat));
        }
        return r;
    }
    // The input lies in (0, 1/2): the difference lies in (1/2, 1] and is
    // rounded to the spacing of that binade.
    let big_m: u64 = if e == 0u64 {
        m
    } else {
        m + IMPLICIT_ONE
    };
    let s: u64 = if e == 0u64 {
        1021
    } else {
        1022 - e
    };
    let ghost t = (1021 - s) as nat;
    proof {
        lemma_pow2_pos(t);
        lemma_pow2_adds(53, t);
        if e == 0 {
            assert(s == 1021 && t == 0);
            assert(mag(b) == m as int);
            assert(big_m == m);
            assert(v == big_m * pow2(t));
        } else {
            assert(t == (e - 1) as nat);
            assert(mag(b) == (m + p52) * pow2((e - 1) as nat));
            assert(big_m == m + p52);
            assert(v == big_m * pow2(t));
        }
        assert(1 <= big_m < p53);
        assert(v < p53 * pow2(t)) by (nonlinear_arith)
            requires
                v == big_m * pow2(t),
                big_m < p53,
                pow2(t) > 0,
        ;
        assert(v >= 1 * pow2(t)) by (nonlinear_arith)
            requires
                v == big_m * pow2(t),
                big_m >= 1,
                pow2(t) > 0,
        ;
        assert(p53 * pow2(t) == pow2((53 + t) as nat));
        lemma_pow2_increases((53 + t) as nat, 1073);
        assert(v < pow2(1073));
        assert(pow2(UNIT as nat) - v > pow2(1073));
    }
    if s >= 54u64 {
        // The input is below the half-spacing of the result binade: the
        // difference rounds up to one.
        proof {
            let x = pow2(UNIT as nat) - v;
            lemma_pow2_increases((53 + t) as nat, 1020);
            assert(v < pow2(1020));
            lemma_pow2_adds(1, 1020);
            lemma_pow2_strictly_increases(1020, 1021);
            assert(x == ss * (p53 - 1) + (ss - v)) by (nonlinear_arith)
                requires
                    x == pow2(UNIT as nat) - v,
                    pow2(UNIT as nat) == p53 * ss,
            ;
            lemma_fundamental_div_mod_converse(x, ss, p53 - 1, ss - v);
            assert(2 * (ss - v) > ss);
            assert(round_half_even(x, ss) == ss * p53);
            assert(comp_scaled(v) == pow2(UNIT as nat));
        }
        return ONE_BITS;
    }
    proof {
        lemma_split_word(big_m, s);
        lemma_u64_pow2_no_overflow(s as nat);
        lemma_u64_shl_is_mul(1u64, s);
        lemma_pow2_pos(s as nat);
        assert((1u64 << s) == pow2(s as nat));
        assert(big_m < SIG_LIMIT);
    }
    let hi: u64 = big_m >> s;
    let rem: u64 = big_m & ((1u64 << s) - 1);
    let qf: u64 = SIG_LIMIT - hi - 1;
    proof {
        assert(hi < p52);
    }
    let ghost ps = pow2(s as nat) as int;
    let ghost x = pow2(UNIT as nat) - v;
    proof {
        lemma_pow2_adds(s as nat, t);
        assert(ps * pow2(t) == ss);
        assert(x == ss * (p53 - hi) - rem * pow2(t)) by (nonlinear_arith)
            requires
                x == pow2(UNIT as nat) - v,
                pow2(UNIT as nat) == p53 * ss,
                v == big_m * pow2(t),
                big_m == hi * ps + rem,
                ps * pow2(t) == ss,
        ;
        assert(rem * pow2(t) < ss) by (nonlinear_arith)
            requires
                rem < ps,
                pow2(t) > 0,
                ps * pow2(t) == ss,
        ;
    }
    let q: u64 = if rem == 0u64 {
        proof {
            assert(x == (p53 - hi) * ss + 0) by (nonlinear_arith)
                requires
                    x == ss * (p53 - hi) - rem * pow2(t),
                    rem == 0,
            ;
            lemma_fundamental_div_mod_converse(x, ss, p53 - hi, 0);
            assert(round_half_even(x, ss) == ss * (p53 - hi));
        }
        SIG_LIMIT - hi
    } else {
        let halfpt: u64 = 1u64 << (s - 1);
        proof {
            lemma_u64_pow2_no_overflow((s - 1) as nat);
            lemma_u64_shl_is_mul(1u64, (s - 1) as u64);
            lemma_pow2_adds(1, (s - 1) as nat);
            assert(2 * (halfpt as int) == ps);
            let rr = ss - rem * pow2(t);
            assert(rem * pow2(t) >= 1 * pow2(t)) by (nonlinear_arith)
                requires
                    rem >= 1,
                    pow2(t) > 0,
            ;
            assert(x == (p53 - hi - 1) * ss + rr) by (nonlinear_arith)
                requires
                    x == ss * (p53 - hi) - rem * pow2(t),
                    rr == ss - rem * pow2(t),
            ;
            lemma_fundamental_div_mod_converse(x, ss, p53 - hi - 1, rr);
            assert((2 * rr < ss) == (ps < 2 * rem) && (2 * rr > ss) == (ps > 2 * rem) && (2 * rr
                == ss) == (ps == 2 * rem)) by (nonlinear_arith)
                requires
                    rr == ss - rem * pow2(t),
                    ps * pow2(t) == ss,
                    pow2(t) > 0,
            ;
        }
        if rem < halfpt {
            proof {
                assert(round_half_even(x, ss) == ss * (p53 - hi));
            }
            SIG_LIMIT - hi
        } else if rem > halfpt {
            proof {
                assert(round_half_even(x, ss) == ss * (p53 - hi - 1));
            }
            qf
        } else if qf % 2u64 == 0u64 {
            proof {
                assert(x / ss == p53 - hi - 1);
                assert(round_half_even(x, ss) == ss * (p53 - hi - 1));
            }
            qf
        } else {
            proof {
                assert(x / ss == p53 - hi - 1);
                assert(round_half_even(x, ss) == ss * (p53 - hi));
            }
            qf + 1
        }
    };
    proof {
        assert(round_half_even(x, ss) == ss * q);
        assert(comp_scaled(v) == ss * q);
        assert(q >= p52);
        assert(q <= p53);
    }
    if q == SIG_LIMIT {
        proof {
            assert(ss * q == pow2(UNIT as nat)) by (nonlinear_arith)
                requires
                    q == p53,
                    pow2(UNIT as nat) == p53 * ss,
            ;
        }
        return ONE_BITS;
    }
    let r: u64 = (1022u64 << 52) | (q - IMPLICIT_ONE);
    proof {
        lemma_encode(1022, (q - IMPLICIT_ONE) as u64);
        assert(exp_field(r) == 1022 && frac_field(r) == q - IMPLICIT_ONE && sign_field(r) == 0);
        assert(mag(r) == (q - p52 + p52) * ss);
        assert(fval(r) == q * ss == ss * q) by (nonlinear_arith)
            requires
                fval(r) == (q - p52 + p52) * ss,
        ;
        assert(ss * q < pow2(UNIT as nat)) by (nonlinear_arith)
            requires
                q < p53,
                ss > 0,
                pow2(UNIT as nat) == p53 * ss,
        ;
    }
    r
}

} // verus!
