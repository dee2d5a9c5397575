//! A lock-based FIFO queue.
//!
//! The alternative backing store to the ring-buffer queue: where that queue
//! trades a fixed capacity for lock freedom, this one is unbounded and, in
//! its threaded form, guards a linked list with a mutex.  It is held here by
//! its abstract contents — a first-in-first-out sequence — under the same
//! push/pop contract as the ring-buffer queue, minus the capacity bound.

use vstd::prelude::*;

verus! {

/// An unbounded FIFO queue: the lock-based alternative backing store to the
/// ring-buffer queue.
pub struct MutexLinkedList<T> {
    items: Vec<T>,
}

impl<T> View for MutexLinkedList<T> {
    type V = Seq<T>;

    /// The queued items, oldest first.
    closed spec fn view(&self) -> Seq<T> {
        self.items@
    }
}

impl<T> MutexLinkedList<T> {
    /// Create an empty queue.
    pub fn new() -> (q: MutexLinkedList<T>)
        ensures
            q@ == Seq::<T>::empty(),
    {
        MutexLinkedList { items: Vec::new() }
    }

    /// Push a value onto the queue.
    pub fn push(&mut self, value: T)
        ensures
            final(self)@ == old(self)@.push(value),
    {
        self.items.push(value);
    }

    /// Pop the oldest value off the queue, or `None` if the queue is empty.
    pub fn pop(&mut self) -> (r: Option<T>)
        ensures
            old(self)@.len() == 0 ==> r is None && final(self)@ == old(self)@,
            old(self)@.len() > 0 ==> r == Some(old(self)@[0]) && final(self)@ == old(
                self,
            )@.drop_first(),
    {
        if self.items.len() == 0 {
            None
        } else {
            let v = self.items.remove(0);
            proof {
                assert(self.items@ =~= old(self)@.drop_first());
            }
            Some(v)
        }
    }
}

} // verus!
