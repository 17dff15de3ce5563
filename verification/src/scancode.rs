//! The interrupt bridge: a fixed-capacity queue of raw event bytes moving
//! from interrupt context into task context, paired with wake notification.
//!
//! `push` is meant for the interrupt side: it never blocks and never
//! allocates, and on a full ring it drops the incoming byte (the newest)
//! rather than disturb what is already stored. `pop_event` is the task
//! side: on an empty ring it registers the calling task's wake handle and
//! re-checks the ring once more before reporting `None`, closing the
//! lost-wakeup race where an event arrives between the first empty check
//! and the registration.

use vstd::prelude::*;
use vstd::arithmetic::div_mod::lemma_fundamental_div_mod;

use crate::task::TaskContext;
use crate::task::TaskId;

verus! {

/// A fixed-capacity ring of event bytes plus the registered consumer's
/// wake handle. One producer (interrupt context) and one consumer (task
/// context) may use it; neither path locks or allocates.
pub struct ScancodeQueue {
    pub buf: Vec<u8>,
    pub head: usize,
    pub len: usize,
    pub waker: Option<TaskId>,
}

impl ScancodeQueue {
    /// The ring is consistent: a non-empty backing buffer, the read cursor
    /// inside it, and no more stored bytes than the buffer holds.
    pub open spec fn wf(self) -> bool {
        &&& self.buf@.len() > 0
        &&& (self.head as int) < self.buf@.len()
        &&& (self.len as int) <= self.buf@.len()
    }

    /// How many bytes the ring can hold at once.
    pub open spec fn capacity(self) -> int {
        self.buf@.len() as int
    }

    /// The stored bytes, oldest first.
    pub open spec fn queue(self) -> Seq<u8> {
        Seq::new(self.len as nat, |i: int| self.buf@[(self.head + i) % self.buf@.len() as int])
    }

    /// The registered wake handle, if a consumer is waiting.
    pub open spec fn waker(self) -> Option<TaskId> {
        self.waker
    }

    /// An empty ring of the given capacity with no waiting consumer.
    pub fn new(capacity: usize) -> (q: ScancodeQueue)
        requires
            capacity > 0,
        ensures
            q.wf(),
            q.capacity() == capacity,
            q.queue() =~= Seq::<u8>::empty(),
            q.waker() is None,
    {
        let mut buf: Vec<u8> = Vec::new();
        let mut i: usize = 0;
        while i < capacity
            invariant
                i <= capacity,
                buf@.len() == i,
            decreases capacity - i,
        {
            buf.push(0);
            i = i + 1;
        }
        ScancodeQueue { buf, head: 0, len: 0, waker: None }
    }

    /// Attempts a non-blocking, non-allocating insert; callable from
    /// interrupt context. A full ring drops the incoming byte and reports
    /// `false`, leaving the stored bytes untouched.
    pub fn push(&mut self, byte: u8) -> (pushed: bool)
        requires
            old(self).wf(),
        ensures
            final(self).wf(),
            final(self).capacity() == old(self).capacity(),
            final(self).waker() == old(self).waker(),
            old(self).queue().len() < old(self).capacity() ==> pushed
                && final(self).queue() =~= old(self).queue().push(byte),
            old(self).queue().len() == old(self).capacity() ==> !pushed
                && final(self).queue() =~= old(self).queue(),
    {
        if self.len == self.buf.len() {
            return false;
        }
        let cap = self.buf.len();
        let slot = if self.head < cap - self.len {
            self.head + self.len
        } else {
            // wrapped: head + len - cap, kept in bounds without overflow
            self.head - (cap - self.len)
        };
        proof {
            assert(slot == (self.head + self.len) % (self.buf@.len() as int)) by {
                lemma_fundamental_div_mod(self.head + self.len, self.buf@.len() as int);
                if self.head + self.len < self.buf@.len() {
                    assert((self.head + self.len) % (self.buf@.len() as int)
                        == self.head + self.len) by {
                        lemma_small_mod_auto(self.head + self.len, self.buf@.len() as int);
                    }
                } else {
                    lemma_mod_shift(self.head + self.len, self.buf@.len() as int);
                }
            }
        }
        self.buf[slot] = byte;
        self.len = self.len + 1;
        proof {
            let cap_i = self.buf@.len() as int;
            assert forall|i: int| 0 <= i < old(self).len implies
                final(self).buf@[#[trigger] ((old(self).head + i) % cap_i)]
                    == old(self).buf@[(old(self).head + i) % cap_i] by {
                if (old(self).head + i) % cap_i == (old(self).head + old(self).len) % cap_i {
                    lemma_mod_inj(old(self).head as int, i, old(self).len as int, cap_i);
                }
            }
            assert(final(self).queue() =~= old(self).queue().push(byte));
        }
        true
    }

    /// Non-blocking removal of the oldest byte; callable from task context.
    pub fn pop(&mut self) -> (r: Option<u8>)
        requires
            old(self).wf(),
        ensures
            final(self).wf(),
            final(self).capacity() == old(self).capacity(),
            final(self).waker() == old(self).waker(),
            old(self).queue().len() == 0 ==> r is None
                && final(self).queue() =~= old(self).queue(),
            old(self).queue().len() > 0 ==> r === Some(old(self).queue()[0])
                && final(self).queue() =~= old(self).queue().drop_first(),
    {
        if self.len == 0 {
            return None;
        }
        let byte = self.buf[self.head];
        let cap = self.buf.len();
        self.head = if self.head + 1 == cap { 0 } else { self.head + 1 };
        self.len = self.len - 1;
        proof {
            let cap_i = self.buf@.len() as int;
            assert((old(self).head + 0) % cap_i == old(self).head as int) by {
                lemma_small_mod_auto(old(self).head as int, cap_i);
            }
            assert forall|i: int| 0 <= i < self.len implies
                #[trigger] ((final(self).head + i) % cap_i) == (old(self).head + (i + 1)) % cap_i by {
                if old(self).head + 1 == cap_i {
                    lemma_mod_shift(old(self).head + (i + 1), cap_i);
                    lemma_small_mod_auto(i, cap_i);
                }
            }
            assert(final(self).queue() =~= old(self).queue().drop_first());
        }
        Some(byte)
    }

    /// Registers the given identifier as the consumer to wake on the next
    /// successful push, replacing any earlier registration.
    pub fn register_waker(&mut self, id: TaskId)
        requires
            old(self).wf(),
        ensures
            final(self).wf(),
            final(self).capacity() == old(self).capacity(),
            final(self).queue() == old(self).queue(),
            final(self).waker() === Some(id),
    {
        self.waker = Some(id);
    }

    /// Takes the registered wake handle, if any, leaving none behind; the
    /// producer calls this after a successful push to wake the consumer.
    pub fn take_waker(&mut self) -> (r: Option<TaskId>)
        requires
            old(self).wf(),
        ensures
            final(self).wf(),
            final(self).capacity() == old(self).capacity(),
            final(self).queue() == old(self).queue(),
            r == old(self).waker(),
            final(self).waker() is None,
    {
        let r = self.waker;
        self.waker = None;
        r
    }

    /// The task-side read: a non-blocking removal, and on an empty ring a
    /// registration of the calling task's wake handle followed by one more
    /// check of the ring before deciding to suspend.
    pub fn pop_event(&mut self, cx: TaskContext) -> (r: Option<u8>)
        requires
            old(self).wf(),
        ensures
            final(self).wf(),
            final(self).capacity() == old(self).capacity(),
            old(self).queue().len() > 0 ==> r === Some(old(self).queue()[0])
                && final(self).queue() =~= old(self).queue().drop_first()
                && final(self).waker() == old(self).waker(),
            old(self).queue().len() == 0 ==> r is None
                && final(self).queue() =~= old(self).queue()
                && final(self).waker() === Some(cx.task_id),
    {
        match self.pop() {
            Some(byte) => Some(byte),
            None => {
                self.register_waker(cx.task_id);
                self.pop()
            },
        }
    }
}

/// One push as the ring performs it: the byte is kept only while the ring
/// has room, and a full ring drops it.
pub open spec fn pushed_once(q: Seq<u8>, cap: int, byte: u8) -> Seq<u8> {
    if q.len() < cap {
        q.push(byte)
    } else {
        q
    }
}

/// The ring contents after pushing a whole sequence of bytes in order.
pub open spec fn pushed_all(q: Seq<u8>, cap: int, bytes: Seq<u8>) -> Seq<u8>
    decreases bytes.len(),
{
    if bytes.len() == 0 {
        q
    } else {
        pushed_all(pushed_once(q, cap, bytes[0]), cap, bytes.drop_first())
    }
}

/// Pushing preserves the already-stored bytes and keeps the pushed bytes
/// in order: the ring ends up holding the old contents followed by exactly
/// as many of the new bytes, oldest first, as there was room for. In
/// particular, pushing `N <= capacity` bytes into an empty ring stores all
/// `N` in push order, and pushing beyond capacity drops only the newest
/// bytes; popping then yields them oldest first by `pop`'s contract.
pub proof fn lemma_push_order(q: Seq<u8>, cap: int, bytes: Seq<u8>)
    requires
        q.len() <= cap,
    ensures
        pushed_all(q, cap, bytes) =~= q + bytes.take(min_int(cap - q.len(), bytes.len() as int)),
    decreases bytes.len(),
{
    if bytes.len() == 0 {
        assert(pushed_all(q, cap, bytes) =~= q + bytes.take(0));
    } else {
        let rest = bytes.drop_first();
        if q.len() < cap {
            lemma_push_order(q.push(bytes[0]), cap, rest);
            let k = min_int(cap - q.len(), bytes.len() as int);
            assert(min_int(cap - q.len() - 1, rest.len() as int) == k - 1);
            assert(q.push(bytes[0]) + rest.take(k - 1) =~= q + bytes.take(k));
        } else {
            lemma_push_order(q, cap, rest);
            assert(q + rest.take(0) =~= q + bytes.take(0));
        }
    }
}

/// The smaller of two mathematical integers.
pub open spec fn min_int(a: int, b: int) -> int {
    if a <= b {
        a
    } else {
        b
    }
}

/// A value already below the modulus is its own remainder.
proof fn lemma_small_mod_auto(a: int, m: int)
    requires
        0 <= a < m,
    ensures
        a % m == a,
{
    vstd::arithmetic::div_mod::lemma_small_mod(a as nat, m as nat);
}

/// Taking one full turn around the ring leaves the slot unchanged.
proof fn lemma_mod_shift(a: int, m: int)
    requires
        m > 0,
        m <= a < 2 * m,
    ensures
        a % m == a - m,
{
    lemma_small_mod_auto(a - m, m);
    vstd::arithmetic::div_mod::lemma_mod_add_multiples_vanish(a - m, m);
}

/// Slots computed from distinct in-range offsets never collide.
proof fn lemma_mod_inj(h: int, a: int, b: int, m: int)
    requires
        0 <= h,
        0 <= a < m,
        0 <= b < m,
        (h + a) % m == (h + b) % m,
    ensures
        a == b,
{
    lemma_fundamental_div_mod(h + a, m);
    lemma_fundamental_div_mod(h + b, m);
    let qa = (h + a) / m;
    let qb = (h + b) / m;
    assert(m * qa - m * qb == m * (qa - qb)) by (nonlinear_arith);
    assert(qa == qb) by (nonlinear_arith)
        requires
            m > 0,
            -m < m * (qa - qb) < m,
    {
    }
    assert(m * (qa - qb) == 0) by (nonlinear_arith)
        requires
            qa == qb,
    {
    }
}

} // verus!
