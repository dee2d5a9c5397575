//! A multi-word compare-and-swap.
//!
//! In the style of the descriptor-based algorithms of Fraser et al.: all
//! words are swapped to their updates exactly when every word holds its
//! expected value, and no word changes otherwise.  The words are plain
//! machine words, which in a pointer-based setting stand for the addresses
//! kept in atomic pointers.

use vstd::prelude::*;

verus! {

/// Failure modes of the multi-word compare-and-swap.
#[derive(Debug, PartialEq, Eq, Structural)]
pub enum MCASError {
    /// The expected and update vectors do not both match the number of
    /// words.
    UnequalLengths,
    /// Some word did not hold its expected value.
    Other,
}

/// A group of words that can be compared and swapped as one unit.
pub struct McasPtrs {
    ptrs: Vec<usize>,
}

impl View for McasPtrs {
    type V = Seq<usize>;

    /// The words currently held, in order.
    closed spec fn view(&self) -> Seq<usize> {
        self.ptrs@
    }
}

impl McasPtrs {
    /// Create a group over the given words.
    pub fn new(words: Vec<usize>) -> (m: McasPtrs)
        ensures
            m@ == words@,
    {
        McasPtrs { ptrs: words }
    }

    /// Read the word at `index`.
    pub fn get(&self, index: usize) -> (r: usize)
        requires
            index < self@.len(),
        ensures
            r == self@[index as int],
    {
        self.ptrs[index]
    }

    /// Atomically replace every word with its update, provided every word
    /// holds its expected value.  Fails with `UnequalLengths` when the three
    /// vectors do not have one length, with `Other` when some word differs
    /// from its expected value; on failure no word changes.
    pub fn compare_and_swap(&mut self, expected: Vec<usize>, update: Vec<usize>) -> (r: Result<
        (),
        MCASError,
    >)
        ensures
            !(expected@.len() == old(self)@.len() && update@.len() == old(self)@.len()) ==> r
                == Err::<(), MCASError>(MCASError::UnequalLengths) && final(self)@ == old(self)@,
            expected@.len() == old(self)@.len() && update@.len() == old(self)@.len() && old(self)@
                == expected@ ==> r == Ok::<(), MCASError>(()) && final(self)@ == update@,
            expected@.len() == old(self)@.len() && update@.len() == old(self)@.len() && old(self)@
                != expected@ ==> r == Err::<(), MCASError>(MCASError::Other) && final(self)@ == old(
                self,
            )@,
    {
        if expected.len() != self.ptrs.len() || update.len() != self.ptrs.len() {
            return Err(MCASError::UnequalLengths);
        }
        let n = self.ptrs.len();
        let mut i: usize = 0;
        while i < n
            invariant
                i <= n,
                self.ptrs@ == old(self)@,
                n == self.ptrs@.len(),
                n == expected@.len(),
                n == update@.len(),
                forall|j: int| 0 <= j < i ==> self.ptrs@[j] == expected@[j],
            decreases n - i,
        {
            if self.ptrs[i] != expected[i] {
                proof {
                    assert(self.ptrs@ != expected@);
                }
                return Err(MCASError::Other);
            }
            i = i + 1;
        }
        proof {
            assert(self.ptrs@ =~= expected@);
        }
        self.ptrs = update;
        Ok(())
    }
}

} // verus!
