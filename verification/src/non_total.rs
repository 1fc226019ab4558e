//! The precondition style: free functions that demand a word already in
//! the unit interval.  Their preconditions carry what the other styles
//! check at run time; a caller outside verified code must test
//! `is_valid_probability` first and treat a violation as a programming
//! error.

use vstd::prelude::*;

verus! {

use crate::binary64::{fval, in_unit, is_in_unit, sign_field};
use crate::complement::{comp_scaled, complement_of_bits};

/// Whether the word encodes a probability: a finite value between zero
/// and one inclusive, as the ordered comparisons against the endpoints
/// would decide it (so a NaN word is rejected, and both zeros pass).
pub fn is_valid_probability(p: u64) -> (r: bool)
    ensures
        r == in_unit(p),
{
    is_in_unit(p)
}

/// The complement of a valid probability word: the word for one minus the
/// value, rounded as double-precision subtraction rounds it.  Total on
/// its stated domain.
pub fn complement(p: u64) -> (r: u64)
    requires
        in_unit(p),
    ensures
        in_unit(r),
        sign_field(r) == 0,
        fval(r) == comp_scaled(fval(p)),
{
    complement_of_bits(p)
}

} // verus!
