//! A conditional compare-and-swap cell.
//!
//! A more specialized form of a double compare-and-swap: the swap is
//! performed only if, in addition to the cell holding the expected word, a
//! separately given condition word evaluates to zero.  The cell holds a
//! plain machine word, which in a pointer-based setting stands for the
//! address kept in an atomic pointer.

use vstd::prelude::*;

verus! {

/// A cell supporting a compare-and-swap that is additionally guarded by a
/// condition word.
pub struct CondAtomicPtr {
    word: usize,
}

impl View for CondAtomicPtr {
    type V = usize;

    /// The word currently held.
    closed spec fn view(&self) -> usize {
        self.word
    }
}

impl CondAtomicPtr {
    /// Create a cell holding `val`.
    pub fn new(val: usize) -> (c: CondAtomicPtr)
        ensures
            c@ == val,
    {
        CondAtomicPtr { word: val }
    }

    /// Swap `current` for `new`, but only if the cell indeed holds
    /// `current` and the condition word `cond` is zero.  Returns the word
    /// the cell held before the call.
    pub fn conditional_compare_and_swap(&mut self, current: usize, new: usize, cond: usize) -> (prev: usize)
        ensures
            prev == old(self)@,
            old(self)@ == current && cond == 0 ==> final(self)@ == new,
            !(old(self)@ == current && cond == 0) ==> final(self)@ == old(self)@,
    {
        let prev = self.word;
        if prev == current && cond == 0 {
            self.word = new;
        }
        prev
    }

    /// Read the word the cell holds.
    pub fn load(&self) -> (r: usize)
        ensures
            r == self@,
    {
        self.word
    }
}

} // verus!
