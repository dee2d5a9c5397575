//! The channel state machine ("Canal").
//!
//! A `Canal` wraps one bounded ring-buffer queue together with a tri-state
//! item counter and two reference counts, one for the sending handles
//! ("channels") and one for the receiving handles ("ports").  The counter
//! is non-negative and tracks the pending items while the channel is open,
//! and holds a sentinel far below zero once the channel has disconnected; a
//! fudge band above the sentinel keeps concurrent increments near the
//! sentinel from being misread as live counts.  Dropping the last sender or
//! the last receiver moves the counter to the sentinel, and the last
//! receiver also drains whatever is still buffered, so that no item is
//! stranded in a channel nobody can read.

use crate::mpmc::mpmc_bounded_queue::{is_pow2, LockFreeQueue, MAX_CAPACITY};
use vstd::prelude::*;

verus! {

/// The disconnect sentinel: the counter value marking a channel no sender
/// or no receiver is left on.
const DISCONNECTED: isize = isize::MIN;

/// The width of the band above the sentinel reserved so that racing
/// increments cannot carry a disconnected counter back into live counts.
const FUDGE: isize = 1024;

/// Failure modes for receiving on the port.
#[derive(Debug, PartialEq, Eq, Structural)]
pub enum Failure {
    /// There is nothing to receive.
    Empty,
    /// The port is disconnected.
    Disconnected,
}

/// The shared state of one channel: a bounded queue, the tri-state item
/// counter, the two handle counts, and the drain arbitration counter.
pub struct Canal<T> {
    queue: LockFreeQueue<T>,
    /// How many items are on this channel, or the disconnect sentinel.
    cnt: isize,
    /// The number of sending handles currently using this state.
    channels: isize,
    /// The number of receiving handles currently using this state.
    ports: isize,
    /// How many senders are inside the cooperative drain at once.
    sender_drain: isize,
}

impl<T> View for Canal<T> {
    type V = Seq<T>;

    /// The buffered items, oldest first.
    closed spec fn view(&self) -> Seq<T> {
        self.queue@
    }
}

impl<T> Canal<T> {
    /// The effective capacity of the backing queue.
    pub closed spec fn spec_capacity(&self) -> nat {
        self.queue.spec_capacity()
    }

    /// The tri-state item counter.
    pub closed spec fn count(&self) -> int {
        self.cnt as int
    }

    /// How many sending handles are live.
    pub closed spec fn senders(&self) -> int {
        self.channels as int
    }

    /// How many receiving handles are live.
    pub closed spec fn receivers(&self) -> int {
        self.ports as int
    }

    /// Whether the channel has disconnected: the counter sits on the
    /// sentinel, and no further data will ever arrive.
    pub closed spec fn is_disconnected(&self) -> bool {
        self.cnt == DISCONNECTED
    }

    /// Well-formedness: the queue is well formed, the counter either holds
    /// the sentinel or counts exactly the buffered items, the handle counts
    /// are non-negative, and a channel whose senders or receivers are all
    /// gone has disconnected.
    pub closed spec fn wf(&self) -> bool {
        &&& self.queue.wf()
        &&& (self.cnt == DISCONNECTED || (0 <= self.cnt && self.cnt as int == self.queue@.len()))
        &&& self.channels >= 0
        &&& self.ports >= 0
        &&& self.sender_drain == 0
        &&& (self.channels == 0 ==> self.cnt == DISCONNECTED)
        &&& (self.ports == 0 ==> self.cnt == DISCONNECTED)
    }

    /// Whether a send must fail: there is no receiver left to observe the
    /// value, the channel has disconnected, or the queue is at capacity.
    pub open spec fn rejects_send(&self) -> bool {
        self.receivers() == 0 || self.is_disconnected() || self@.len() == self.spec_capacity()
    }

    /// Create the shared state of a fresh channel, with one sender and one
    /// receiver accounted for.  The capacity is rounded up as the queue
    /// rounds it.
    pub fn new(cap: usize) -> (c: Canal<T>)
        requires
            cap <= MAX_CAPACITY,
        ensures
            c.wf(),
            c@ == Seq::<T>::empty(),
            c.count() == 0,
            c.senders() == 1,
            c.receivers() == 1,
            !c.is_disconnected(),
            c.spec_capacity() >= 2,
            c.spec_capacity() >= cap,
            is_pow2(c.spec_capacity()),
            forall|p: nat| is_pow2(p) && p >= 2 && p >= cap ==> p >= c.spec_capacity(),
    {
        Canal {
            queue: LockFreeQueue::with_capacity(cap),
            cnt: 0,
            channels: 1,
            ports: 1,
            sender_drain: 0,
        }
    }

    /// The effective capacity of the channel's queue.
    pub fn capacity(&self) -> (c: usize)
        requires
            self.wf(),
        ensures
            c as nat == self.spec_capacity(),
    {
        self.queue.capacity()
    }

    /// How many sending handles are live.
    pub fn sender_count(&self) -> (n: isize)
        ensures
            n as int == self.senders(),
    {
        self.channels
    }

    /// How many receiving handles are live.
    pub fn receiver_count(&self) -> (n: isize)
        ensures
            n as int == self.receivers(),
    {
        self.ports
    }

    /// Pop and discard everything pending on `queue`, reporting how many
    /// items were dropped.
    fn drain_queue(queue: &mut LockFreeQueue<T>) -> (n: usize)
        requires
            old(queue).wf(),
        ensures
            final(queue).wf(),
            final(queue).spec_capacity() == old(queue).spec_capacity(),
            final(queue)@.len() == 0,
            n as int == old(queue)@.len(),
    {
        let ghost pre = *old(queue);
        proof {
            queue.lemma_wf_len_bound();
        }
        let mut n: usize = 0;
        loop
            invariant
                queue.wf(),
                queue.spec_capacity() == pre.spec_capacity(),
                pre@.len() <= MAX_CAPACITY,
                n as int == pre@.len() - queue@.len(),
            ensures
                queue.wf(),
                queue.spec_capacity() == pre.spec_capacity(),
                queue@.len() == 0,
                n as int == pre@.len(),
            decreases queue@.len(),
        {
            match queue.pop() {
                Some(_) => {
                    n = n + 1;
                },
                None => {
                    break;
                },
            }
        }
        n
    }

    /// Send a value on the channel.
    ///
    /// Never blocks.  Fails, handing the value back, exactly when no
    /// receiver is left, the channel has disconnected, or the queue is at
    /// capacity; otherwise the value joins the buffered items and the
    /// counter rises by one.
    pub fn send(&mut self, t: T) -> (r: Result<(), T>)
        requires
            old(self).wf(),
        ensures
            final(self).wf(),
            final(self).spec_capacity() == old(self).spec_capacity(),
            final(self).senders() == old(self).senders(),
            final(self).receivers() == old(self).receivers(),
            final(self).is_disconnected() == old(self).is_disconnected(),
            old(self).rejects_send() ==> r == Err::<(), T>(t) && *final(self) == *old(self),
            !old(self).rejects_send() ==> r == Ok::<(), T>(()) && final(self)@ == old(
                self,
            )@.push(t) && final(self).count() == old(self).count() + 1,
    {
        // No receiver could ever observe the value: the definitive "this
        // will never be received".
        if self.ports == 0 {
            return Err(t);
        }
        // A counter inside the fudge band above the sentinel is a
        // disconnected channel, whatever concurrent increments it has
        // absorbed.
        if self.cnt < DISCONNECTED + FUDGE {
            return Err(t);
        }
        proof {
            self.queue.lemma_wf_len_bound();
        }
        match self.queue.push(t) {
            Err(v) => {
                return Err(v);
            },
            Ok(()) => {},
        }
        let n = self.cnt;
        self.cnt = n + 1;
        if n < DISCONNECTED + FUDGE {
            // A receiver disconnected the channel between the preflight
            // check and the increment, so the pushed value may never be
            // read: re-pin the sentinel and arbitrate one cooperative drain
            // among every sender passing through here.  In this sequential
            // model the counter cannot change between the check and the
            // increment, so the arbitration never runs; it is kept because
            // the protocol demands it of every sender.
            self.cnt = DISCONNECTED;
            let prior = self.sender_drain;
            self.sender_drain = prior + 1;
            if prior == 0 {
                loop
                    invariant_except_break
                        1 <= self.sender_drain,
                    invariant
                        self.queue.wf(),
                    ensures
                        self.queue.wf(),
                        self.sender_drain == 0,
                    decreases self.sender_drain,
                {
                    let _dropped = Self::drain_queue(&mut self.queue);
                    let sd = self.sender_drain;
                    self.sender_drain = sd - 1;
                    if sd == 1 {
                        break;
                    }
                }
            }
            proof {
                // Unreachable here: the preflight check saw a live counter.
                assert(false);
            }
        } else {
            assert(n >= 0);
        }
        Ok(())
    }

    /// Take one step of the counter towards empty after a successful pop;
    /// a disconnected counter is pinned back onto the sentinel instead.
    fn decrement(&mut self)
        requires
            old(self).cnt == DISCONNECTED || old(self).cnt >= 1,
        ensures
            final(self).cnt == if old(self).cnt == DISCONNECTED {
                DISCONNECTED
            } else {
                (old(self).cnt - 1) as isize
            },
            final(self).queue == old(self).queue,
            final(self).channels == old(self).channels,
            final(self).ports == old(self).ports,
            final(self).sender_drain == old(self).sender_drain,
    {
        if self.cnt == DISCONNECTED {
            self.cnt = DISCONNECTED;
        } else {
            let n = self.cnt;
            assert(n >= 1);
            self.cnt = n - 1;
        }
    }

    /// Receive without blocking.
    ///
    /// Returns the oldest buffered item if there is one — also on a
    /// disconnected channel, whose residue is handed out in order.  On an
    /// empty channel, reports `Empty` while the channel is live and
    /// `Disconnected` once it is not; both reports leave the channel
    /// unchanged, and `Disconnected` is stable.
    pub fn try_recv(&mut self) -> (r: Result<T, Failure>)
        requires
            old(self).wf(),
        ensures
            final(self).wf(),
            final(self).spec_capacity() == old(self).spec_capacity(),
            final(self).senders() == old(self).senders(),
            final(self).receivers() == old(self).receivers(),
            final(self).is_disconnected() == old(self).is_disconnected(),
            old(self)@.len() > 0 ==> r == Ok::<T, Failure>(old(self)@[0]) && final(self)@ == old(
                self,
            )@.drop_first() && final(self).count() == if old(self).is_disconnected() {
                old(self).count()
            } else {
                old(self).count() - 1
            },
            old(self)@.len() == 0 ==> *final(self) == *old(self) && r == if old(
                self,
            ).is_disconnected() {
                Err::<T, Failure>(Failure::Disconnected)
            } else {
                Err::<T, Failure>(Failure::Empty)
            },
    {
        match self.queue.pop() {
            Some(data) => {
                self.decrement();
                Ok(data)
            },
            None => {
                // The queue looked empty; only the counter can now tell a
                // transient race from a disconnected channel.
                if self.cnt != DISCONNECTED {
                    Err(Failure::Empty)
                } else {
                    // One final attempt, to catch an item pushed just
                    // before the disconnect.
                    match self.queue.pop() {
                        Some(t) => Ok(t),  // No decrement: the counter is pinned.
                        None => Err(Failure::Disconnected),
                    }
                }
            },
        }
    }

    /// Account for a cloned sending handle.
    pub fn clone_chan(&mut self)
        requires
            old(self).wf(),
            old(self).senders() < isize::MAX as int,
        ensures
            final(self).wf(),
            final(self).senders() == old(self).senders() + 1,
            final(self).receivers() == old(self).receivers(),
            final(self).count() == old(self).count(),
            final(self)@ == old(self)@,
            final(self).spec_capacity() == old(self).spec_capacity(),
            final(self).is_disconnected() == old(self).is_disconnected(),
    {
        self.channels = self.channels + 1;
    }

    /// Account for a cloned receiving handle.
    pub fn clone_port(&mut self)
        requires
            old(self).wf(),
            old(self).receivers() < isize::MAX as int,
        ensures
            final(self).wf(),
            final(self).receivers() == old(self).receivers() + 1,
            final(self).senders() == old(self).senders(),
            final(self).count() == old(self).count(),
            final(self)@ == old(self)@,
            final(self).spec_capacity() == old(self).spec_capacity(),
            final(self).is_disconnected() == old(self).is_disconnected(),
    {
        self.ports = self.ports + 1;
    }

    /// Account for a dropped sending handle.  When the last sender goes,
    /// the channel disconnects: no further data will ever arrive, though
    /// the buffered residue stays readable.
    pub fn drop_chan(&mut self)
        requires
            old(self).wf(),
            old(self).senders() >= 1,
        ensures
            final(self).wf(),
            final(self).senders() == old(self).senders() - 1,
            final(self).receivers() == old(self).receivers(),
            final(self)@ == old(self)@,
            final(self).spec_capacity() == old(self).spec_capacity(),
            old(self).senders() > 1 ==> final(self).count() == old(self).count()
                && final(self).is_disconnected() == old(self).is_disconnected(),
            old(self).senders() == 1 ==> final(self).is_disconnected(),
    {
        let n = self.channels;
        self.channels = n - 1;
        if n == 1 {
            let c = self.cnt;
            self.cnt = DISCONNECTED;
            if c != DISCONNECTED {
                assert(c >= 0);
            }
        }
    }

    /// Account for a dropped receiving handle.  When the last receiver
    /// goes, the channel disconnects and the residue is drained, so that no
    /// item is left in a channel nobody can read.
    pub fn drop_port(&mut self)
        requires
            old(self).wf(),
            old(self).receivers() >= 1,
        ensures
            final(self).wf(),
            final(self).receivers() == old(self).receivers() - 1,
            final(self).senders() == old(self).senders(),
            final(self).spec_capacity() == old(self).spec_capacity(),
            old(self).receivers() > 1 ==> final(self)@ == old(self)@ && final(self).count() == old(
                self,
            ).count() && final(self).is_disconnected() == old(self).is_disconnected(),
            old(self).receivers() == 1 ==> final(self).is_disconnected(),
            old(self).receivers() == 1 && !old(self).is_disconnected() ==> final(self)@.len() == 0,
            old(self).receivers() == 1 && old(self).is_disconnected() ==> final(self)@ == old(
                self,
            )@,
    {
        let ghost pre = *old(self);
        let n = self.ports;
        self.ports = n - 1;
        if n == 1 {
            // Move the counter onto the sentinel, but only once every
            // pending item this receiver still owes the counter for has
            // been drained: retry the swap with the tally of steals until
            // it matches.
            let mut steals: isize = 0;
            loop
                invariant_except_break
                    self.cnt == pre.cnt,
                invariant
                    self.queue.wf(),
                    self.queue.spec_capacity() == pre.spec_capacity(),
                    self.channels == pre.channels,
                    self.ports == pre.ports - 1,
                    self.sender_drain == 0,
                    pre.wf(),
                    pre.is_disconnected() ==> self.queue@ == pre.queue@ && steals == 0,
                    !pre.is_disconnected() ==> 0 <= steals == pre.queue@.len() - self.queue@.len(),
                ensures
                    self.queue.wf(),
                    self.queue.spec_capacity() == pre.spec_capacity(),
                    self.channels == pre.channels,
                    self.ports == pre.ports - 1,
                    self.sender_drain == 0,
                    self.cnt == DISCONNECTED,
                    pre.is_disconnected() ==> self.queue@ == pre.queue@,
                    !pre.is_disconnected() ==> self.queue@.len() == 0,
                decreases self.queue@.len(),
            {
                let cnt = self.cnt;
                if cnt == DISCONNECTED {
                    break;
                }
                if cnt == steals {
                    self.cnt = DISCONNECTED;
                    break;
                }
                proof {
                    self.queue.lemma_wf_len_bound();
                }
                let dropped = Self::drain_queue(&mut self.queue);
                proof {
                    assert(dropped as int <= MAX_CAPACITY);
                }
                steals = steals + dropped as isize;
            }
        }
    }
}

impl<T> Canal<T> {
    /// The terminal-state guarantee behind the destruction protocol: a
    /// well-formed channel whose senders or whose receivers are all gone
    /// has disconnected, so tearing the shared state down never meets a
    /// live counter.
    pub proof fn lemma_terminal_state(&self)
        requires
            self.wf(),
            self.senders() == 0 || self.receivers() == 0,
        ensures
            self.is_disconnected(),
    {
    }
}

/// What one non-blocking receive returns on a disconnected channel, at the
/// level of the buffered contents: the oldest residual item while any
/// remain, and the stable `Disconnected` report afterwards.  This is the
/// contents-level restatement of `try_recv`'s contract once
/// `is_disconnected()` holds.
pub open spec fn recv_outcome<T>(items: Seq<T>) -> Result<T, Failure> {
    if items.len() > 0 {
        Ok(items[0])
    } else {
        Err(Failure::Disconnected)
    }
}

/// The buffered contents after one such receive.
pub open spec fn recv_rest<T>(items: Seq<T>) -> Seq<T> {
    if items.len() > 0 {
        items.drop_first()
    } else {
        items
    }
}

/// The buffered contents after `k` such receives.
pub open spec fn recv_rest_n<T>(items: Seq<T>, k: nat) -> Seq<T>
    decreases k,
{
    if k == 0 {
        items
    } else {
        recv_rest_n(recv_rest(items), (k - 1) as nat)
    }
}

/// Once all senders are gone and the channel has disconnected, the residual
/// buffered items are drained in order and the disconnect report is stable:
/// the `k`-th receive returns the `k`-th residual item while any remain,
/// and every receive after that reports `Disconnected` and changes nothing.
pub proof fn lemma_disconnected_drains_in_order<T>(items: Seq<T>, k: nat)
    ensures
        k < items.len() ==> recv_rest_n(items, k) == items.skip(k as int) && recv_outcome(
            recv_rest_n(items, k),
        ) == Ok::<T, Failure>(items[k as int]),
        k >= items.len() ==> recv_rest_n(items, k).len() == 0 && recv_outcome(
            recv_rest_n(items, k),
        ) == Err::<T, Failure>(Failure::Disconnected),
    decreases k,
{
    if k == 0 {
        assert(items.skip(0) =~= items);
    } else {
        lemma_disconnected_drains_in_order::<T>(recv_rest(items), (k - 1) as nat);
        if items.len() > 0 {
            assert(recv_rest(items) =~= items.skip(1));
            if k < items.len() {
                assert(items.skip(1).skip(k - 1) =~= items.skip(k as int));
                assert(items.skip(k as int)[0] == items[k as int]);
            }
        }
    }
}

} // verus!
