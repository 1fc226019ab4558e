//! Probabilities as IEEE 754 binary64 words, with three styles of
//! error handling around the same mathematics.
//!
//! A probability is carried as the 64 bits of a double-precision value.
//! `binary64` gives the bit-level model, and `maybe`, `naive_ghosts` and
//! `non_total` offer the optional, validated-type and precondition styles
//! of the same operations.

pub mod binary64;
pub mod complement;
pub mod maybe;
pub mod naive_ghosts;
pub mod non_total;
