//! A bounded ring-buffer queue with per-slot sequence numbers.
//!
//! Each slot carries a sequence number that hands ownership of the slot back
//! and forth between the producing and the consuming side: a slot is writable
//! exactly when its sequence number equals the enqueue cursor, and readable
//! exactly when it equals the dequeue cursor plus one.  After a pop the
//! sequence number is advanced by the capacity, so the slot becomes writable
//! again one full wrap of the ring later.  Cursors and sequence numbers are
//! kept reduced modulo twice the capacity, which is the full period of the
//! handshake; ring indices are the cursor modulo the capacity.

use vstd::arithmetic::div_mod::{
    lemma_add_mod_noop_right, lemma_fundamental_div_mod, lemma_mod_multiples_vanish,
    lemma_small_mod, lemma_sub_mod_noop, lemma_sub_mod_noop_right,
};
use vstd::arithmetic::power2::{
    lemma2_to64, lemma_pow2_adds, lemma_pow2_strictly_increases, pow2,
};
use vstd::prelude::*;

verus! {

broadcast use vstd::arithmetic::div_mod::group_mod_properties;

/// Largest capacity a queue can be asked for.  Cursors and sequence
/// numbers move in a window of twice the capacity, and index arithmetic
/// adds one capacity more; this bound keeps all of it inside `usize` on
/// every machine the library compiles for.
pub const MAX_CAPACITY: usize = 0x4000_0000;

/// Whether `n` is a power of two.
pub open spec fn is_pow2(n: nat) -> bool {
    exists|k: nat| n == pow2(k)
}

/// One ring slot: a sequence number and, in the window between a push and
/// the matching pop, the pushed value.
struct Slot<T> {
    sequence: usize,
    value: Option<T>,
}

/// A bounded queue implemented as a ring buffer of sequenced slots.
///
/// The queue is created with a fixed capacity (rounded up to a power of two,
/// minimum 2).  `push` and `pop` never block: they either succeed or report
/// that the queue is full or empty.
pub struct LockFreeQueue<T> {
    buffer: Vec<Slot<T>>,
    mask: usize,
    enqueue_pos: usize,
    dequeue_pos: usize,
}

impl<T> LockFreeQueue<T> {
    /// The number of slots in the ring.
    pub closed spec fn spec_capacity(&self) -> nat {
        (self.mask + 1) as nat
    }

    /// The period of cursors and sequence numbers: twice the capacity.
    closed spec fn modulus(&self) -> int {
        2 * (self.mask + 1)
    }

    /// How many items are pending: the distance from the dequeue cursor to
    /// the enqueue cursor.
    closed spec fn qlen(&self) -> int {
        (self.enqueue_pos - self.dequeue_pos) % self.modulus()
    }

    /// How far ahead of the dequeue cursor slot `j` stands: slots at
    /// distance below `qlen` hold pending items, the rest are free.
    closed spec fn slot_age(&self, j: int) -> int {
        (j - self.dequeue_pos) % (self.spec_capacity() as int)
    }

    /// Well-formedness: cursors stay inside the period, at most `capacity`
    /// items are pending, and every slot's sequence number and payload agree
    /// with its distance from the dequeue cursor.
    pub closed spec fn wf(&self) -> bool {
        let cap = self.spec_capacity() as int;
        let m = self.modulus();
        &&& 2 <= cap
        &&& cap <= MAX_CAPACITY
        &&& is_pow2(self.spec_capacity())
        &&& self.buffer@.len() == cap
        &&& 0 <= self.enqueue_pos < m
        &&& 0 <= self.dequeue_pos < m
        &&& self.qlen() <= cap
        &&& forall|j: int|
            0 <= j < cap ==> {
                let age = self.slot_age(j);
                let s = #[trigger] self.buffer@[j];
                if age < self.qlen() {
                    s.sequence == (self.dequeue_pos + age + 1) % m && s.value is Some
                } else {
                    s.sequence == (self.dequeue_pos + age) % m && s.value is None
                }
            }
    }
}

impl<T> View for LockFreeQueue<T> {
    type V = Seq<T>;

    /// The pending items, oldest first.
    closed spec fn view(&self) -> Seq<T> {
        Seq::new(
            self.qlen() as nat,
            |i: int|
                self.buffer@[(self.dequeue_pos + i) % (self.spec_capacity() as int)].value.unwrap(),
        )
    }
}

/// Doubling a power of two gives a power of two.
proof fn lemma_pow2_double(n: nat)
    requires
        is_pow2(n),
    ensures
        is_pow2(2 * n),
{
    let k = choose|k: nat| n == pow2(k);
    lemma_pow2_adds(k, 1);
    lemma2_to64();
    assert(2 * n == pow2(k + 1));
}

/// Between one power of two and a larger one there is a factor of at least
/// two.
proof fn lemma_pow2_gap(a: nat, b: nat)
    requires
        is_pow2(a),
        is_pow2(b),
        a < b,
    ensures
        2 * a <= b,
{
    let i = choose|i: nat| a == pow2(i);
    let j = choose|j: nat| b == pow2(j);
    if i >= j {
        if i > j {
            lemma_pow2_strictly_increases(j, i);
        }
        assert(false);
    }
    lemma_pow2_adds(i, 1);
    lemma2_to64();
    assert(pow2(i + 1) == 2 * a);
    if i + 1 < j {
        lemma_pow2_strictly_increases(i + 1, j);
    }
}

/// The largest admissible capacity is itself a power of two.
proof fn lemma_max_capacity_pow2()
    ensures
        is_pow2(MAX_CAPACITY as nat),
{
    lemma2_to64();
    assert(MAX_CAPACITY as nat == pow2(30));
}

/// Reducing modulo twice `cap` and then modulo `cap` is reducing modulo
/// `cap`.
proof fn lemma_mod_mod_half(x: int, cap: int)
    requires
        cap >= 1,
    ensures
        (x % (2 * cap)) % cap == x % cap,
{
    let m = 2 * cap;
    lemma_fundamental_div_mod(x, m);
    lemma_mod_multiples_vanish(2 * (x / m), x % m, cap);
    assert(cap * (2 * (x / (2 * cap))) == (2 * cap) * (x / (2 * cap))) by (nonlinear_arith);
}

/// Two values whose distance is below the modulus and whose residues agree
/// are equal.
proof fn lemma_mod_injective(x: int, y: int, m: int)
    requires
        m >= 1,
        -m < x - y < m,
        x % m == y % m,
    ensures
        x == y,
{
    lemma_sub_mod_noop(x, y, m);
    lemma_small_mod(0nat, m as nat);
    if x >= y {
        lemma_small_mod((x - y) as nat, m as nat);
    } else {
        lemma_sub_mod_noop(y, x, m);
        lemma_small_mod((y - x) as nat, m as nat);
    }
}

/// Distinct ring indices have distinct ages: the age map is injective on
/// one wrap of the ring.
proof fn lemma_age_injective(d: int, j1: int, j2: int, cap: int)
    requires
        cap >= 1,
        0 <= j1 < cap,
        0 <= j2 < cap,
        (j1 - d) % cap == (j2 - d) % cap,
    ensures
        j1 == j2,
{
    lemma_sub_mod_noop(j1 - d, j2 - d, cap);
    lemma_sub_mod_noop(j2 - d, j1 - d, cap);
    lemma_small_mod(0nat, cap as nat);
    if j1 > j2 {
        lemma_small_mod((j1 - j2) as nat, cap as nat);
    }
    if j2 > j1 {
        lemma_small_mod((j2 - j1) as nat, cap as nat);
    }
}

/// The slot at distance `i` ahead of cursor `d` sits at ring index
/// `(d + i) % cap`, and recomputing its distance from the index gives `i`
/// back.
proof fn lemma_age_roundtrip(d: int, i: int, cap: int)
    requires
        cap >= 1,
        0 <= i < cap,
        0 <= d,
    ensures
        ((d + i) % cap - d) % cap == i,
{
    lemma_sub_mod_noop_right((d + i) % cap, d, cap);
    lemma_sub_mod_noop(d + i, d, cap);
    lemma_small_mod(i as nat, cap as nat);
    assert(((d + i) % cap) % cap == (d + i) % cap);
}

impl<T> LockFreeQueue<T> {
    /// The enqueue cursor stands `qlen` positions ahead of the dequeue
    /// cursor.
    proof fn lemma_cursor_identity(&self)
        requires
            self.wf(),
        ensures
            self.enqueue_pos as int == (self.dequeue_pos + self.qlen()) % self.modulus(),
    {
        let d = self.dequeue_pos as int;
        let e = self.enqueue_pos as int;
        let m = self.modulus();
        lemma_add_mod_noop_right(d, e - d, m);
        lemma_small_mod(e as nat, m as nat);
    }

    /// The ring index of a cursor that stands `k` positions ahead of the
    /// dequeue cursor has slot age `k`.
    proof fn lemma_age_of_cursor(&self, k: int)
        requires
            self.wf(),
            0 <= k < self.spec_capacity() as int,
        ensures
            self.slot_age(((self.dequeue_pos + k) % self.modulus()) % (
            self.spec_capacity() as int)) == k,
    {
        let d = self.dequeue_pos as int;
        let cap = self.spec_capacity() as int;
        lemma_mod_mod_half(d + k, cap);
        lemma_age_roundtrip(d, k, cap);
    }
}

impl<T> LockFreeQueue<T> {
    /// Create a queue.  The effective capacity is the requested one rounded
    /// up to the smallest power of two that is at least `max(2, capacity)`;
    /// callers should not rely on getting exactly the capacity they asked
    /// for.
    pub fn with_capacity(capacity: usize) -> (q: LockFreeQueue<T>)
        requires
            capacity <= MAX_CAPACITY,
        ensures
            q.wf(),
            q@ == Seq::<T>::empty(),
            q.spec_capacity() >= 2,
            q.spec_capacity() >= capacity,
            is_pow2(q.spec_capacity()),
            forall|p: nat| is_pow2(p) && p >= 2 && p >= capacity ==> p >= q.spec_capacity(),
    {
        let mut cap: usize = 2;
        proof {
            lemma2_to64();
            assert(2nat == pow2(1));
            lemma_max_capacity_pow2();
        }
        while cap < capacity
            invariant
                2 <= cap,
                cap <= MAX_CAPACITY,
                is_pow2(cap as nat),
                cap == 2 || cap / 2 < capacity,
                capacity <= MAX_CAPACITY,
                is_pow2(MAX_CAPACITY as nat),
            decreases MAX_CAPACITY - cap,
        {
            proof {
                lemma_pow2_double(cap as nat);
                if 2 * cap > MAX_CAPACITY {
                    lemma_pow2_gap(cap as nat, MAX_CAPACITY as nat);
                    assert(false);
                }
            }
            cap = cap * 2;
        }
        proof {
            assert forall|p: nat| is_pow2(p) && p >= 2 && p >= capacity implies p >= cap as nat by {
                if p < cap as nat {
                    lemma_pow2_gap(p, cap as nat);
                    assert(cap as nat >= 2 * p);
                    assert(cap / 2 < capacity);
                }
            }
        }
        let mut buffer: Vec<Slot<T>> = Vec::new();
        let mut i: usize = 0;
        while i < cap
            invariant
                i <= cap,
                buffer@.len() == i,
                forall|j: int|
                    0 <= j < i ==> (#[trigger] buffer@[j]).sequence == j && buffer@[j].value
                        is None,
            decreases cap - i,
        {
            buffer.push(Slot { sequence: i, value: None });
            i = i + 1;
        }
        let q = LockFreeQueue { buffer, mask: cap - 1, enqueue_pos: 0, dequeue_pos: 0 };
        proof {
            let capi = q.spec_capacity() as int;
            let m = q.modulus();
            lemma_small_mod(0nat, m as nat);
            assert(q.qlen() == 0);
            assert forall|j: int| 0 <= j < capi implies {
                let age = q.slot_age(j);
                let s = #[trigger] q.buffer@[j];
                s.sequence == (q.dequeue_pos + age) % m && s.value is None
            } by {
                lemma_small_mod(j as nat, capi as nat);
                assert(q.slot_age(j) == j);
                lemma_small_mod(j as nat, m as nat);
            }
            assert(q@ =~= Seq::<T>::empty());
        }
        q
    }

    /// A well-formed queue never holds more than its capacity, and the
    /// capacity stays within the admissible range.
    pub proof fn lemma_wf_len_bound(&self)
        requires
            self.wf(),
        ensures
            self@.len() <= self.spec_capacity(),
            2 <= self.spec_capacity(),
            self.spec_capacity() <= MAX_CAPACITY,
    {
    }

    /// The effective capacity of the queue: the smallest power of two at
    /// least `max(2, requested)`.
    pub fn capacity(&self) -> (c: usize)
        requires
            self.wf(),
        ensures
            c as nat == self.spec_capacity(),
    {
        self.mask + 1
    }

    /// Push a value onto the queue.
    ///
    /// Fails, handing the value back, exactly when the queue is full; never
    /// blocks.
    pub fn push(&mut self, value: T) -> (r: Result<(), T>)
        requires
            old(self).wf(),
        ensures
            final(self).wf(),
            final(self).spec_capacity() == old(self).spec_capacity(),
            old(self)@.len() < old(self).spec_capacity() ==> r == Ok::<(), T>(()) && final(self)@
                == old(self)@.push(value),
            old(self)@.len() == old(self).spec_capacity() ==> r == Err::<(), T>(value)
                && *final(self) == *old(self),
    {
        let pos = self.enqueue_pos;
        let cap = self.mask + 1;
        let m = 2 * cap;
        let idx = pos % cap;
        proof {
            let d = self.dequeue_pos as int;
            let capi = cap as int;
            let mi = m as int;
            let q = self.qlen();
            self.lemma_cursor_identity();
            if q < capi {
                // The slot under the enqueue cursor is the free slot at age
                // `qlen`.
                self.lemma_age_of_cursor(q);
            } else {
                // Full: the slot under the enqueue cursor is the pending
                // head, whose sequence number trails the cursor by one wrap.
                self.lemma_age_of_cursor(0);
                lemma_mod_mod_half(d + capi, capi);
                lemma_mod_mod_half(d, capi);
                lemma_small_mod(self.dequeue_pos as nat, mi as nat);
                assert((d + capi) % capi == (capi * 1 + d) % capi) by (nonlinear_arith);
                lemma_mod_multiples_vanish(1, d, capi);
                assert(pos as int % capi == d % capi);
                assert(self.slot_age(pos as int % capi) == 0);
            }
        }
        let seq = self.buffer[idx].sequence;
        if seq == pos {
            proof {
                let d = self.dequeue_pos as int;
                let capi = cap as int;
                let mi = m as int;
                let q = self.qlen();
                if q == capi {
                    // A full queue would store `(d + 1) % m` here, which the
                    // cursor `(d + cap) % m` can never equal.
                    assert(seq == (d + 1) % mi);
                    lemma_mod_injective(d + capi, d + 1, mi);
                    assert(false);
                }
            }
            let nseq = (pos + 1) % m;
            self.buffer[idx] = Slot { sequence: nseq, value: Some(value) };
            self.enqueue_pos = nseq;
            proof {
                let pre = *old(self);
                let d = pre.dequeue_pos as int;
                let capi = cap as int;
                let mi = m as int;
                let q = pre.qlen();
                pre.lemma_cursor_identity();
                pre.lemma_age_of_cursor(q);
                assert(pre.slot_age(idx as int) == q);
                // The new cursor stands one position further ahead, so one
                // more item is pending.
                assert(self.qlen() == q + 1) by {
                    lemma_sub_mod_noop_right(pos + 1, d, mi);
                    assert((self.enqueue_pos - d) % mi == (pos + 1 - d) % mi) by {
                        lemma_mod_mod_half(pos + 1 - d, capi);
                        lemma_sub_mod_noop((pos + 1) % mi, d, mi);
                        lemma_sub_mod_noop(pos + 1, d, mi);
                        lemma_small_mod(self.enqueue_pos as nat, mi as nat);
                    }
                    lemma_add_mod_noop_right(1, pos - d, mi);
                    lemma_small_mod((q + 1) as nat, mi as nat);
                }
                // The written slot is now the pending slot at age `qlen`;
                // every other slot keeps both its content and its class.
                assert forall|j: int| 0 <= j < capi implies {
                    let age = self.slot_age(j);
                    let s = #[trigger] self.buffer@[j];
                    if age < self.qlen() {
                        s.sequence == (self.dequeue_pos + age + 1) % mi && s.value is Some
                    } else {
                        s.sequence == (self.dequeue_pos + age) % mi && s.value is None
                    }
                } by {
                    let age = self.slot_age(j);
                    let s0 = pre.buffer@[j];
                    if j == idx as int {
                        lemma_add_mod_noop_right(1, d + q, mi);
                        assert((d + q + 1) % mi == (pos + 1) % mi);
                    } else {
                        assert(self.buffer@[j] == s0);
                        if age == q {
                            lemma_age_injective(d, j, idx as int, capi);
                            assert(false);
                        }
                    }
                }
                assert(self@ =~= pre@.push(value)) by {
                    assert forall|i: int| 0 <= i < q + 1 implies self@[i] == pre@.push(value)[i] by {
                        lemma_mod_mod_half(d + i, capi);
                        if i < q {
                            lemma_age_roundtrip(d, i, capi);
                            lemma_age_roundtrip(d, q, capi);
                            assert((d + i) % capi != idx as int) by {
                                if (d + i) % capi == idx as int {
                                    lemma_age_injective(d, (d + i) % capi, idx as int, capi);
                                }
                            }
                            assert(self.buffer@[(d + i) % capi] == pre.buffer@[(d + i) % capi]);
                        } else {
                            assert((d + q) % capi == idx as int);
                        }
                    }
                }
            }
            Ok(())
        } else {
            proof {
                let q = self.qlen();
                let capi = cap as int;
                if q < capi {
                    // A queue with room stores the cursor itself in the slot
                    // under the cursor, so the handshake cannot have failed.
                    assert(self.slot_age(idx as int) == q);
                    assert(false);
                }
                assert(self@ =~= old(self)@);
            }
            Err(value)
        }
    }

    /// Pop the oldest pending value from the queue.
    ///
    /// Returns `None` exactly when the queue is empty; never blocks.
    pub fn pop(&mut self) -> (r: Option<T>)
        requires
            old(self).wf(),
        ensures
            final(self).wf(),
            final(self).spec_capacity() == old(self).spec_capacity(),
            old(self)@.len() == 0 ==> r is None && *final(self) == *old(self),
            old(self)@.len() > 0 ==> r == Some(old(self)@[0]) && final(self)@ == old(
                self,
            )@.drop_first(),
    {
        let pos = self.dequeue_pos;
        let cap = self.mask + 1;
        let m = 2 * cap;
        let idx = pos % cap;
        proof {
            let mi = m as int;
            self.lemma_age_of_cursor(0);
            lemma_small_mod(pos as nat, mi as nat);
            assert(self.slot_age(idx as int) == 0);
        }
        let seq = self.buffer[idx].sequence;
        let target = (pos + 1) % m;
        if seq == target {
            proof {
                let d = pos as int;
                let mi = m as int;
                if self.qlen() == 0 {
                    // An empty queue stores the cursor itself here, never
                    // the cursor plus one.
                    assert(seq == d % mi);
                    lemma_small_mod(pos as nat, mi as nat);
                    lemma_mod_injective(d + 1, d, mi);
                    assert(false);
                }
            }
            let nseq = (pos + cap) % m;
            let v = self.buffer[idx].value.take();
            self.buffer[idx].sequence = nseq;
            self.dequeue_pos = target;
            proof {
                let pre = *old(self);
                let d = pos as int;
                let e = pre.enqueue_pos as int;
                let capi = cap as int;
                let mi = m as int;
                let q = pre.qlen();
                lemma_small_mod(1nat, mi as nat);
                lemma_small_mod(1nat, capi as nat);
                // One fewer item is pending.
                assert(self.qlen() == q - 1) by {
                    lemma_sub_mod_noop_right(e, d + 1, mi);
                    assert((e - (d + 1) % mi) % mi == (e - (d + 1)) % mi);
                    lemma_sub_mod_noop(e - d, 1, mi);
                    lemma_small_mod((q - 1) as nat, mi as nat);
                }
                // Every surviving slot keeps its class with its age one
                // lower; the popped slot becomes the free slot at the far
                // end of the window.
                assert forall|j: int| 0 <= j < capi implies {
                    let age = self.slot_age(j);
                    let s = #[trigger] self.buffer@[j];
                    if age < self.qlen() {
                        s.sequence == (self.dequeue_pos + age + 1) % mi && s.value is Some
                    } else {
                        s.sequence == (self.dequeue_pos + age) % mi && s.value is None
                    }
                } by {
                    let age0 = pre.slot_age(j);
                    let s0 = pre.buffer@[j];
                    // The new age is the old age shifted down by one,
                    // modulo the capacity.
                    assert(self.slot_age(j) == (age0 - 1) % capi) by {
                        lemma_sub_mod_noop_right(j, self.dequeue_pos as int, capi);
                        lemma_mod_mod_half(d + 1, capi);
                        lemma_sub_mod_noop_right(j, d + 1, capi);
                        lemma_sub_mod_noop(j - d, 1, capi);
                    }
                    if j == idx as int {
                        assert(age0 == 0);
                        assert(self.slot_age(j) == capi - 1) by {
                            vstd::arithmetic::div_mod::lemma_mod_add_multiples_vanish(
                                -1,
                                capi,
                            );
                            lemma_small_mod((capi - 1) as nat, capi as nat);
                        }
                        assert(self.buffer@[j].sequence == (pos + capi) % mi);
                        assert((self.dequeue_pos + capi - 1) % mi == (d + capi) % mi) by {
                            lemma_add_mod_noop_right(capi - 1, d + 1, mi);
                        }
                    } else {
                        assert(self.buffer@[j] == s0);
                        if age0 == 0 {
                            lemma_age_injective(d, j, idx as int, capi);
                            assert(false);
                        }
                        lemma_small_mod((age0 - 1) as nat, capi as nat);
                        assert(self.slot_age(j) == age0 - 1);
                        if age0 < q {
                            assert((self.dequeue_pos + (age0 - 1) + 1) % mi == (d + age0 + 1)
                                % mi) by {
                                lemma_add_mod_noop_right(age0, d + 1, mi);
                            }
                        } else {
                            assert((self.dequeue_pos + (age0 - 1)) % mi == (d + age0) % mi) by {
                                lemma_add_mod_noop_right(age0 - 1, d + 1, mi);
                            }
                        }
                    }
                }
                // The view loses exactly its first element.
                assert(self@ =~= pre@.drop_first()) by {
                    assert forall|i: int| 0 <= i < q - 1 implies self@[i] == pre@.drop_first()[i] by {
                        assert((self.dequeue_pos + i) % capi == (d + (i + 1)) % capi) by {
                            vstd::arithmetic::div_mod::lemma_add_mod_noop((d + 1) % mi, i, capi);
                            lemma_mod_mod_half(d + 1, capi);
                            vstd::arithmetic::div_mod::lemma_add_mod_noop(d + 1, i, capi);
                            lemma_small_mod(i as nat, capi as nat);
                        }
                        lemma_age_roundtrip(d, i + 1, capi);
                        assert((d + (i + 1)) % capi != idx as int) by {
                            if (d + (i + 1)) % capi == idx as int {
                                lemma_age_injective(d, (d + (i + 1)) % capi, idx as int, capi);
                            }
                        }
                        assert(self.buffer@[(d + (i + 1)) % capi] == pre.buffer@[(d + (i + 1))
                            % capi]);
                    }
                }
                assert(v == Some(pre@[0])) by {
                    lemma_small_mod(pos as nat, mi as nat);
                    assert(pre.slot_age(idx as int) == 0);
                    assert(pre@[0] == pre.buffer@[(d + 0) % capi].value.unwrap());
                    assert((d + 0) % capi == idx as int);
                }
            }
            match v {
                Some(x) => Some(x),
                None => vstd::pervasive::unreached(),
            }
        } else {
            proof {
                let d = pos as int;
                let mi = m as int;
                if self.qlen() > 0 {
                    // A non-empty queue stores the cursor plus one in the
                    // slot under the cursor, so the handshake cannot have
                    // failed.
                    assert(self.buffer@[idx as int].sequence == (d + 1) % mi);
                    assert(false);
                }
                assert(self@ =~= old(self)@);
            }
            None
        }
    }
}

/// What one `push` does to the queue's contents: the value is appended
/// exactly when there is room, and nothing changes otherwise.  This is the
/// contents-level restatement of `push`'s contract.
pub open spec fn push_contents<T>(s: Seq<T>, cap: nat, v: T) -> Seq<T> {
    if s.len() < cap {
        s.push(v)
    } else {
        s
    }
}

/// A whole sequence of pushes, oldest first, folded over the contents.
pub open spec fn push_all_contents<T>(s: Seq<T>, cap: nat, items: Seq<T>) -> Seq<T>
    decreases items.len(),
{
    if items.len() == 0 {
        s
    } else {
        push_all_contents(push_contents(s, cap, items[0]), cap, items.drop_first())
    }
}

/// No loss and no duplication: as long as the pending items and the pushes
/// together stay within the capacity, every push succeeds and the queue
/// afterwards holds exactly the old items followed by the pushed ones.
/// Since `pop` hands the contents back in order, one element per call, the
/// successful pops that drain the queue then number exactly the successful
/// pushes, with each pushed value delivered once.
pub proof fn lemma_pushes_within_capacity_keep_everything<T>(s: Seq<T>, cap: nat, items: Seq<T>)
    requires
        s.len() + items.len() <= cap,
    ensures
        push_all_contents(s, cap, items) == s + items,
    decreases items.len(),
{
    if items.len() == 0 {
        assert(s + items =~= s);
    } else {
        assert(push_contents(s, cap, items[0]) == s.push(items[0]));
        lemma_pushes_within_capacity_keep_everything(s.push(items[0]), cap, items.drop_first());
        assert(s.push(items[0]) + items.drop_first() =~= s + items);
    }
}

} // verus!
