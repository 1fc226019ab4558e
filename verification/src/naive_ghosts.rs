//! The validated-value style: a wrapper type whose only public
//! constructor checks the word, so that validity is an invariant of the
//! type and every later operation is total.

use vstd::prelude::*;

verus! {

use crate::binary64::{fval, in_unit, is_in_unit, sign_field};
use crate::complement::{comp_scaled, complement_of_bits};

/// A probability that is valid by construction: the wrapped word always
/// encodes a value in the closed unit interval.
pub struct Probability {
    bits: u64,
}

impl Probability {
    /// The wrapped word.
    pub closed spec fn spec_bits(self) -> u64 {
        self.bits
    }

    #[verifier::type_invariant]
    spec fn wf(self) -> bool {
        in_unit(self.bits)
    }

    /// Wraps a word that encodes a probability; any other word is
    /// rejected with a descriptive error.
    pub fn try_from(bits: u64) -> (r: Result<Probability, &'static str>)
        ensures
            in_unit(bits) ==> (r matches Ok(p) && p.spec_bits() == bits),
            !in_unit(bits) ==> (r matches Err(e) && e@ == "Probability not in [0, 1]"@),
    {
        if is_in_unit(bits) {
            Ok(Probability { bits })
        } else {
            Err("Probability not in [0, 1]")
        }
    }

    /// The wrapped word back: the lossless conversion to the raw value.
    pub fn bits(&self) -> (r: u64)
        ensures
            r == self.spec_bits(),
            in_unit(r),
    {
        proof {
            use_type_invariant(self);
        }
        self.bits
    }

    /// The probability of the opposite outcome: one minus this value,
    /// rounded as double-precision subtraction rounds it.  Returns a
    /// `Probability` again; no failure path exists.
    pub fn complement(&self) -> (r: Probability)
        ensures
            sign_field(r.spec_bits()) == 0,
            fval(r.spec_bits()) == comp_scaled(fval(self.spec_bits())),
    {
        proof {
            use_type_invariant(self);
        }
        Probability { bits: complement_of_bits(self.bits) }
    }
}

} // verus!
