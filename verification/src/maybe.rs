//! The optional style: free functions over raw words that validate their
//! input and return an empty result on anything outside the unit interval.

use vstd::prelude::*;

verus! {

use crate::binary64::{fval, in_unit, is_in_unit, sign_field};
use crate::complement::{comp_scaled, complement_of_bits};

/// Returns the word unchanged when it encodes a probability, and nothing
/// otherwise.
pub fn to_probability(p: u64) -> (r: Option<u64>)
    ensures
        r == if in_unit(p) {
            Some(p)
        } else {
            None::<u64>
        },
{
    if is_in_unit(p) {
        Some(p)
    } else {
        None
    }
}

/// The complement — the word for one minus the value, rounded as
/// double-precision subtraction rounds it — of a word that encodes a
/// probability, and nothing for any other word.
pub fn complement(p: u64) -> (r: Option<u64>)
    ensures
        in_unit(p) ==> (r matches Some(c) && in_unit(c) && sign_field(c) == 0 && fval(c)
            == comp_scaled(fval(p))),
        !in_unit(p) ==> r is None,
{
    let prob = match to_probability(p) {
        Some(q) => q,
        None => {
            return None;
        },
    };
    Some(complement_of_bits(prob))
}

} // verus!
