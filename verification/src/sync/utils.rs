//! Helpers for the descriptor protocol used by the compare-and-swap
//! primitives.
//!
//! A word in an atomic cell is either an ordinary aligned address or an
//! in-progress operation descriptor; the two are told apart by the lowest
//! bit of the word, which is set exactly on descriptors.

use vstd::prelude::*;

verus! {

/// Whether `word` stands for an operation descriptor rather than an
/// ordinary value: its lowest bit is set.
pub fn is_descriptor(word: usize) -> (r: bool)
    ensures
        r == ((word & 1) == 1),
{
    (word & 1) == 1
}

} // verus!
