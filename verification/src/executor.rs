//! The cooperative scheduler: a task table, a first-in-first-out ready
//! queue holding each identifier at most once, and the wake path that the
//! interrupt bridge uses to re-enqueue a suspended task.
//!
//! One pass of `run_ready_tasks` polls each ready task once. A task that
//! reports `Ready` is removed from the table and can never be polled again:
//! the table only shrinks, and only table members are ever polled. A task
//! that reports `Pending` is left out of the queue; it re-enters only
//! through `handle_interrupt_byte`, so there is at most one in-flight poll
//! per task and no duplicate polling. When the pass returns the queue is
//! empty and the caller may halt the processor until the next interrupt.
//!
//! A wake handle is the task's identifier itself — invoking the handle is
//! handing the identifier back to the executor — so the cache of reusable
//! handles keyed by identifier is the identity and needs no storage.

use vstd::prelude::*;

use crate::scancode::ScancodeQueue;
use crate::task::PollState;
use crate::task::Task;
use crate::task::TaskFuture;
use crate::task::TaskId;

verus! {

/// True when some identifier in the sequence carries the given raw value.
pub open spec fn ids_have(s: Seq<TaskId>, id: u64) -> bool {
    exists|i: int| 0 <= i < s.len() && s[i].0 == id
}

/// The identifiers a poll log records, in poll order.
pub open spec fn poll_ids(log: Seq<(u64, bool)>) -> Seq<u64> {
    Seq::new(log.len(), |k: int| log[k].0)
}

/// The subsequence of queued identifiers that the table owns, oldest
/// first: exactly the identifiers one scheduling pass polls, in order.
pub open spec fn owned_schedule<T: TaskFuture>(e: Executor<T>, ready: Seq<TaskId>) -> Seq<u64>
    decreases ready.len(),
{
    if ready.len() == 0 {
        Seq::empty()
    } else {
        let rest = owned_schedule(e, ready.drop_last());
        if e.contains_task(ready.last().0) {
            rest.push(ready.last().0)
        } else {
            rest
        }
    }
}

/// The scheduler state: owned tasks and the queue of identifiers awaiting
/// a poll, oldest first.
pub struct Executor<T> {
    pub tasks: Vec<Task<T>>,
    pub ready: Vec<TaskId>,
}

impl<T: TaskFuture> Executor<T> {
    /// Each task identifier owns at most one table slot, and the ready
    /// queue holds an identifier at most once.
    pub open spec fn wf(self) -> bool {
        &&& forall|i: int, j: int|
            0 <= i < j < self.tasks@.len() ==> self.tasks@[i].id.0 != self.tasks@[j].id.0
        &&& forall|i: int, j: int|
            0 <= i < j < self.ready@.len() ==> self.ready@[i].0 != self.ready@[j].0
    }

    /// True when the task table owns a task under this raw identifier.
    pub open spec fn contains_task(self, id: u64) -> bool {
        exists|i: int| 0 <= i < self.tasks@.len() && self.tasks@[i].id.0 == id
    }

    /// True when this raw identifier is waiting in the ready queue.
    pub open spec fn ready_has(self, id: u64) -> bool {
        ids_have(self.ready@, id)
    }

    /// An executor with no tasks and an empty ready queue.
    pub fn new() -> (e: Executor<T>)
        ensures
            e.wf(),
            e.tasks@.len() == 0,
            e.ready@.len() == 0,
    {
        Executor { tasks: Vec::new(), ready: Vec::new() }
    }

    /// How many tasks the table currently owns.
    pub fn task_count(&self) -> (n: usize)
        ensures
            n == self.tasks@.len(),
    {
        self.tasks.len()
    }

    /// How many identifiers are waiting to be polled.
    pub fn ready_count(&self) -> (n: usize)
        ensures
            n == self.ready@.len(),
    {
        self.ready.len()
    }

    /// A view of the task stored under the given identifier, if any.
    pub fn get_task(&self, id: TaskId) -> (r: Option<&Task<T>>)
        ensures
            r is Some <==> self.contains_task(id.0),
            r is Some ==> r.unwrap().id == id && exists|i: int|
                0 <= i < self.tasks@.len() && self.tasks@[i] == *r.unwrap(),
    {
        let mut i: usize = 0;
        while i < self.tasks.len()
            invariant
                i <= self.tasks@.len(),
                forall|m: int| 0 <= m < i ==> self.tasks@[m].id.0 != id.0,
            decreases self.tasks@.len() - i,
        {
            if self.tasks[i].id.0 == id.0 {
                return Some(&self.tasks[i]);
            }
            i = i + 1;
        }
        None
    }

    /// Hands a new task to the executor and marks it ready for its first
    /// poll. The identifier must be fresh: the table never holds two tasks
    /// under one identifier.
    pub fn spawn(&mut self, task: Task<T>)
        requires
            old(self).wf(),
            !old(self).contains_task(task.id.0),
        ensures
            final(self).wf(),
            final(self).tasks@ =~= old(self).tasks@.push(task),
            old(self).ready_has(task.id.0) ==> final(self).ready@ =~= old(self).ready@,
            !old(self).ready_has(task.id.0) ==> final(self).ready@ =~= old(self).ready@.push(
                task.id,
            ),
    {
        let id = task.id;
        self.tasks.push(task);
        self.wake_task(id);
    }

    /// The wake path: marks the task ready, skipping re-insertion when the
    /// queue already holds its identifier, so a handle may be invoked any
    /// number of times before the next poll without duplicate polling.
    pub fn wake_task(&mut self, id: TaskId)
        requires
            old(self).wf(),
        ensures
            final(self).wf(),
            final(self).tasks@ == old(self).tasks@,
            old(self).ready_has(id.0) ==> final(self).ready@ =~= old(self).ready@,
            !old(self).ready_has(id.0) ==> final(self).ready@ =~= old(self).ready@.push(id),
    {
        let mut i: usize = 0;
        while i < self.ready.len()
            invariant
                old(self).wf(),
                *self == *old(self),
                i <= self.ready@.len(),
                forall|m: int| 0 <= m < i ==> self.ready@[m].0 != id.0,
            decreases self.ready@.len() - i,
        {
            if self.ready[i].0 == id.0 {
                return ;
            }
            i = i + 1;
        }
        self.ready.push(id);
    }

    /// The interrupt side: offers the byte to the bridge and, when it was
    /// stored and a consumer had registered its wake handle, marks that
    /// consumer ready. A full ring drops the byte and wakes nobody; the
    /// stored bytes and the registration are left untouched.
    pub fn handle_interrupt_byte(&mut self, events: &mut ScancodeQueue, byte: u8)
        requires
            old(self).wf(),
            old(events).wf(),
        ensures
            final(self).wf(),
            final(events).wf(),
            final(events).capacity() == old(events).capacity(),
            final(self).tasks@ == old(self).tasks@,
            old(events).queue().len() == old(events).capacity() ==> final(events).queue()
                =~= old(events).queue() && final(events).waker() == old(events).waker()
                && final(self).ready@ =~= old(self).ready@,
            old(events).queue().len() < old(events).capacity() ==> final(events).queue()
                =~= old(events).queue().push(byte) && final(events).waker() is None && (match old(events).waker() {
                Some(id) => {
                    &&& old(self).ready_has(id.0) ==> final(self).ready@ =~= old(self).ready@
                    &&& !old(self).ready_has(id.0) ==> final(self).ready@ =~= old(self).ready@.push(id)
                },
                None => final(self).ready@ =~= old(self).ready@,
            }),
    {
        let pushed = events.push(byte);
        if pushed {
            match events.take_waker() {
                Some(id) => self.wake_task(id),
                None => {},
            }
        }
    }

    /// One scheduling pass. Pops identifiers in first-in-first-out order
    /// and polls each owned task once with its own context; a task that
    /// reports done is removed from the table, a pending one stays owned
    /// but is not re-enqueued. Returns a ghost log of the polls made, in
    /// order, each entry carrying the polled identifier and whether it
    /// reported done.
    ///
    /// The contract carries the scheduling laws: the pass ends with an
    /// empty ready queue (the caller may halt idle rather than spin); the
    /// table only shrinks, and a task never made ready is kept untouched;
    /// the polled identifiers are exactly the ready-and-owned ones, in the
    /// queue's first-in-first-out order, each polled exactly once per
    /// pass; a task that reported pending stays owned; and a task that
    /// reported done is out of the table, so no later pass can ever poll
    /// it again.
    pub fn run_ready_tasks(&mut self, events: &mut ScancodeQueue) -> (log: Ghost<
        Seq<(u64, bool)>,
    >)
        requires
            old(self).wf(),
            old(events).wf(),
        ensures
            final(self).wf(),
            final(events).wf(),
            final(events).capacity() == old(events).capacity(),
            final(self).ready@.len() == 0,
            forall|id: u64| #[trigger]
                final(self).contains_task(id) ==> old(self).contains_task(id),
            forall|i: int|
                0 <= i < old(self).tasks@.len() && !old(self).ready_has(
                    old(self).tasks@[i].id.0,
                ) ==> exists|j: int|
                    0 <= j < final(self).tasks@.len() && final(self).tasks@[j] == old(self).tasks@[i],
            forall|k: int|
                0 <= k < log@.len() ==> old(self).ready_has(#[trigger] log@[k].0) && old(self).contains_task(log@[k].0),
            forall|k: int| 0 <= k < log@.len() && (#[trigger] log@[k]).1 ==> !final(self).contains_task(log@[k].0),
            forall|k1: int, k2: int| 0 <= k1 < k2 < log@.len() ==> log@[k1].0 != log@[k2].0,
            forall|id: u64|
                old(self).ready_has(id) && #[trigger] old(self).contains_task(id) ==> exists|k: int|
                    0 <= k < log@.len() && log@[k].0 == id,
            forall|k: int| 0 <= k < log@.len() && !(#[trigger] log@[k]).1 ==> final(self).contains_task(log@[k].0),
            poll_ids(log@) == owned_schedule(*old(self), old(self).ready@),
    {
        let ghost orig = *old(self);
        let ghost mut pos: int = 0;
        let ghost mut log_seq: Seq<(u64, bool)> = Seq::empty();
        while self.ready.len() != 0
            invariant
                orig.wf(),
                self.wf(),
                events.wf(),
                events.capacity() == old(events).capacity(),
                0 <= pos <= orig.ready@.len(),
                self.ready@ =~= orig.ready@.skip(pos),
                forall|id: u64| #[trigger] self.contains_task(id) ==> orig.contains_task(id),
                forall|i: int|
                    0 <= i < orig.tasks@.len() && !orig.ready_has(orig.tasks@[i].id.0) ==> exists|
                        j: int,
                    | 0 <= j < self.tasks@.len() && self.tasks@[j] == orig.tasks@[i],
                forall|k: int|
                    0 <= k < log_seq.len() ==> ids_have(orig.ready@.take(pos), #[trigger]
                    log_seq[k].0) && orig.contains_task(log_seq[k].0),
                forall|k: int| 0 <= k < log_seq.len() && (#[trigger] log_seq[k]).1 ==> !self.contains_task(
                    log_seq[k].0,
                ),
                forall|k1: int, k2: int|
                    0 <= k1 < k2 < log_seq.len() ==> log_seq[k1].0 != log_seq[k2].0,
                forall|id: u64| #[trigger]
                    orig.contains_task(id) && !ids_have(orig.ready@.take(pos), id)
                    ==> self.contains_task(id),
                forall|id: u64|
                    ids_have(orig.ready@.take(pos), id) && #[trigger] orig.contains_task(id)
                    ==> exists|k: int| 0 <= k < log_seq.len() && log_seq[k].0 == id,
                forall|k: int| 0 <= k < log_seq.len() && !(#[trigger] log_seq[k]).1
                    ==> self.contains_task(log_seq[k].0),
                poll_ids(log_seq) == owned_schedule(orig, orig.ready@.take(pos)),
            decreases self.ready@.len(),
        {
            let ghost pre0 = *self;
            let id = self.ready.remove(0);
            proof {
                assert(self.tasks@ == pre0.tasks@);
                assert(id == orig.ready@[pos]) by {
                    assert(pre0.ready@[0] == orig.ready@.skip(pos)[0]);
                }
                assert(self.ready@ =~= orig.ready@.skip(pos + 1)) by {
                    assert forall|w: int| 0 <= w < self.ready@.len() implies self.ready@[w]
                        == orig.ready@.skip(pos + 1)[w] by {
                        assert(self.ready@[w] == pre0.ready@[w + 1]);
                        assert(pre0.ready@[w + 1] == orig.ready@.skip(pos)[w + 1]);
                    }
                }
                assert(!ids_have(orig.ready@.take(pos), id.0)) by {
                    if ids_have(orig.ready@.take(pos), id.0) {
                        let w = choose|w: int|
                            0 <= w < orig.ready@.take(pos).len() && orig.ready@.take(pos)[w].0
                                == id.0;
                        assert(orig.ready@[w].0 == orig.ready@[pos].0);
                    }
                }
                // the table is untouched by the pop, so every fact about it
                // carries over from the top of the iteration
                assert forall|id2: u64| #[trigger]
                    self.contains_task(id2) implies pre0.contains_task(id2) by {
                    let w = choose|w: int|
                        0 <= w < self.tasks@.len() && self.tasks@[w].id.0 == id2;
                    assert(pre0.tasks@[w].id.0 == id2);
                }
                assert forall|id2: u64| #[trigger]
                    pre0.contains_task(id2) implies self.contains_task(id2) by {
                    let w = choose|w: int|
                        0 <= w < pre0.tasks@.len() && pre0.tasks@[w].id.0 == id2;
                    assert(self.tasks@[w].id.0 == id2);
                }
                pos = pos + 1;
                assert forall|k: int| 0 <= k < log_seq.len() implies ids_have(
                    orig.ready@.take(pos),
                    #[trigger] log_seq[k].0,
                ) by {
                    let w = choose|w: int|
                        0 <= w < orig.ready@.take(pos - 1).len() && (#[trigger] orig.ready@.take(
                            pos - 1,
                        )[w]).0 == log_seq[k].0;
                    assert(orig.ready@.take(pos)[w].0 == log_seq[k].0);
                }
                assert forall|a: int, b: int|
                    0 <= a < b < self.ready@.len() implies self.ready@[a].0
                    != self.ready@[b].0 by {
                    assert(self.ready@[a] == orig.ready@[pos + a]);
                    assert(self.ready@[b] == orig.ready@[pos + b]);
                }
            }
            // find the owned task under this identifier; a wake may name a
            // task that has since completed, which is simply skipped
            let mut idx: usize = 0;
            let mut found = false;
            while idx < self.tasks.len() && !found
                invariant
                    idx <= self.tasks@.len(),
                    found ==> idx < self.tasks@.len() && self.tasks@[idx as int].id.0 == id.0,
                    !found ==> forall|m: int| 0 <= m < idx ==> self.tasks@[m].id.0 != id.0,
                decreases self.tasks@.len() - idx + (if found { 0int } else { 1int }),
            {
                if self.tasks[idx].id.0 == id.0 {
                    found = true;
                } else {
                    idx = idx + 1;
                }
            }
            if found {
                let ghost pre = *self;
                let done = match self.tasks[idx].poll(events) {
                    PollState::Ready => true,
                    PollState::Pending => false,
                };
                proof {
                    assert(self.ready@ == pre.ready@);
                    assert(self.tasks@ =~= pre.tasks@.update(idx as int, self.tasks@[idx as int]));
                    assert(self.tasks@[idx as int].id.0 == id.0);
                    // a poll may change a task's state but never its identifier
                    assert forall|id2: u64| #[trigger]
                        self.contains_task(id2) implies pre.contains_task(id2) by {
                        let w = choose|w: int|
                            0 <= w < self.tasks@.len() && self.tasks@[w].id.0 == id2;
                        assert(pre.tasks@[w].id.0 == id2);
                    }
                    assert forall|id2: u64| #[trigger]
                        pre.contains_task(id2) implies self.contains_task(id2) by {
                        let w = choose|w: int|
                            0 <= w < pre.tasks@.len() && pre.tasks@[w].id.0 == id2;
                        assert(self.tasks@[w].id.0 == id2);
                    }
                    assert forall|a: int, b: int|
                        0 <= a < b < self.tasks@.len() implies self.tasks@[a].id.0
                        != self.tasks@[b].id.0 by {
                        assert(pre.tasks@[a].id.0 != pre.tasks@[b].id.0);
                        assert(self.tasks@[a].id == pre.tasks@[a].id);
                        assert(self.tasks@[b].id == pre.tasks@[b].id);
                    }
                }
                let ghost mid = *self;
                if done {
                    self.tasks.remove(idx);
                    proof {
                        assert forall|id2: u64| #[trigger]
                            self.contains_task(id2) implies mid.contains_task(id2) by {
                            let w = choose|w: int|
                                0 <= w < self.tasks@.len() && self.tasks@[w].id.0 == id2;
                            if w < idx {
                                assert(mid.tasks@[w].id.0 == id2);
                            } else {
                                assert(mid.tasks@[w + 1].id.0 == id2);
                            }
                        }
                        // the completed task is gone: no slot can carry its
                        // identifier, the table held it exactly once
                        assert(!self.contains_task(id.0)) by {
                            if self.contains_task(id.0) {
                                let w = choose|w: int|
                                    0 <= w < self.tasks@.len() && self.tasks@[w].id.0 == id.0;
                                assert(mid.tasks@[idx as int].id.0 == id.0);
                                if w < idx {
                                    assert(mid.tasks@[w].id.0 == id.0);
                                } else {
                                    assert(mid.tasks@[w + 1].id.0 == id.0);
                                }
                            }
                        }
                        assert forall|a: int, b: int|
                            0 <= a < b < self.tasks@.len() implies self.tasks@[a].id.0
                            != self.tasks@[b].id.0 by {
                            if b < idx {
                                assert(mid.tasks@[a].id.0 != mid.tasks@[b].id.0);
                            } else if a < idx {
                                assert(mid.tasks@[a].id.0 != mid.tasks@[b + 1].id.0);
                            } else {
                                assert(mid.tasks@[a + 1].id.0 != mid.tasks@[b + 1].id.0);
                            }
                        }
                        // only the completed task left: every other
                        // identifier keeps its slot
                        assert forall|id2: u64|
                            mid.contains_task(id2) && id2 != id.0 implies #[trigger] self.contains_task(
                            id2,
                        ) by {
                            let w = choose|w: int|
                                0 <= w < mid.tasks@.len() && mid.tasks@[w].id.0 == id2;
                            assert(mid.tasks@[idx as int].id.0 == id.0);
                            assert(w != idx);
                            if w < idx {
                                assert(self.tasks@[w].id.0 == id2);
                            } else {
                                assert(self.tasks@[w - 1].id.0 == id2);
                            }
                        }
                    }
                }
                proof {
                    let ghost log0 = log_seq;
                    assert(ids_have(orig.ready@, id.0)) by {
                        assert(orig.ready@[pos - 1].0 == id.0);
                    }
                    assert(pre.contains_task(id.0)) by {
                        assert(pre.tasks@[idx as int].id.0 == id.0);
                    }
                    assert forall|id2: u64| #[trigger]
                        self.contains_task(id2) implies orig.contains_task(id2) by {
                        assert(pre.contains_task(id2));
                        assert(pre0.contains_task(id2));
                    }
                    assert forall|i: int|
                        0 <= i < orig.tasks@.len() && !orig.ready_has(
                            orig.tasks@[i].id.0,
                        ) implies exists|j: int|
                        0 <= j < self.tasks@.len() && self.tasks@[j] == orig.tasks@[i] by {
                        let j0 = choose|j0: int|
                            0 <= j0 < pre.tasks@.len() && pre.tasks@[j0] == orig.tasks@[i];
                        assert(pre.tasks@[j0].id.0 != id.0);
                        assert(j0 != idx);
                        assert(mid.tasks@[j0] == orig.tasks@[i]);
                        if done {
                            if j0 < idx {
                                assert(self.tasks@[j0] == orig.tasks@[i]);
                            } else {
                                assert(self.tasks@[j0 - 1] == orig.tasks@[i]);
                            }
                        } else {
                            assert(self.tasks@[j0] == orig.tasks@[i]);
                        }
                    }
                    assert forall|k: int|
                        0 <= k < log_seq.len() && (#[trigger] log_seq[k]).1 implies !self.contains_task(
                        log_seq[k].0,
                    ) by {
                        if self.contains_task(log_seq[k].0) {
                            assert(mid.contains_task(log_seq[k].0));
                            assert(pre.contains_task(log_seq[k].0));
                            assert(pre0.contains_task(log_seq[k].0));
                        }
                    }
                    log_seq = log_seq.push((id.0, done));
                    assert forall|k: int| 0 <= k < log_seq.len() implies ids_have(
                        orig.ready@.take(pos),
                        #[trigger] log_seq[k].0,
                    ) && orig.contains_task(log_seq[k].0) by {
                        if k < log_seq.len() - 1 {
                            assert(log_seq[k] == log0[k]);
                        } else {
                            assert(log_seq[k].0 == id.0);
                            assert(orig.ready@.take(pos)[pos - 1].0 == id.0);
                            assert(pre0.contains_task(id.0));
                        }
                    }
                    assert forall|k: int|
                        0 <= k < log_seq.len() && (#[trigger] log_seq[k]).1 implies !self.contains_task(
                        log_seq[k].0,
                    ) by {
                        if k < log_seq.len() - 1 {
                            assert(log_seq[k] == log0[k]);
                        }
                    }
                    assert forall|k1: int, k2: int|
                        0 <= k1 < k2 < log_seq.len() implies log_seq[k1].0 != log_seq[k2].0 by {
                        assert(log_seq[k1] == log0[k1]);
                        if k2 == log_seq.len() - 1 {
                            // every earlier entry was popped from the strict
                            // prefix, which never holds the newest identifier
                            assert(ids_have(orig.ready@.take(pos - 1), log0[k1].0));
                            assert(log_seq[k2].0 == id.0);
                        } else {
                            assert(log_seq[k2] == log0[k2]);
                        }
                    }
                    // the not-yet-polled owned tasks keep their slots
                    assert forall|id2: u64| #[trigger]
                        orig.contains_task(id2) && !ids_have(
                            orig.ready@.take(pos),
                            id2,
                        ) implies self.contains_task(id2) by {
                        assert(!ids_have(orig.ready@.take(pos - 1), id2)) by {
                            if ids_have(orig.ready@.take(pos - 1), id2) {
                                let w = choose|w: int|
                                    0 <= w < orig.ready@.take(pos - 1).len() && (
                                    #[trigger] orig.ready@.take(pos - 1)[w]).0 == id2;
                                assert(orig.ready@.take(pos)[w].0 == id2);
                            }
                        }
                        assert(pre0.contains_task(id2));
                        assert(pre.contains_task(id2));
                        assert(mid.contains_task(id2));
                        assert(id2 != id.0) by {
                            assert(orig.ready@.take(pos)[pos - 1].0 == id.0);
                        }
                    }
                    // every ready-and-owned identifier seen so far is logged
                    assert forall|id2: u64|
                        ids_have(orig.ready@.take(pos), id2) && #[trigger] orig.contains_task(
                            id2,
                        ) implies exists|k: int|
                        0 <= k < log_seq.len() && log_seq[k].0 == id2 by {
                        let w = choose|w: int|
                            0 <= w < orig.ready@.take(pos).len() && orig.ready@.take(pos)[w].0
                                == id2;
                        if w < pos - 1 {
                            assert(ids_have(orig.ready@.take(pos - 1), id2)) by {
                                assert(orig.ready@.take(pos - 1)[w].0 == id2);
                            }
                            let k0 = choose|k0: int| 0 <= k0 < log0.len() && log0[k0].0 == id2;
                            assert(log_seq[k0].0 == id2);
                        } else {
                            assert(id2 == id.0);
                            assert(log_seq[log_seq.len() - 1].0 == id2);
                        }
                    }
                    // a pending report leaves the task owned
                    assert forall|k: int|
                        0 <= k < log_seq.len() && !(#[trigger] log_seq[k]).1 implies self.contains_task(
                        log_seq[k].0,
                    ) by {
                        if k == log_seq.len() - 1 {
                            assert(!done);
                            assert(self.tasks@[idx as int].id.0 == id.0);
                        } else {
                            assert(log_seq[k] == log0[k]);
                            assert(pre0.contains_task(log0[k].0));
                            assert(pre.contains_task(log0[k].0));
                            assert(mid.contains_task(log0[k].0));
                            if done {
                                assert(log0[k].0 != id.0) by {
                                    assert(ids_have(orig.ready@.take(pos - 1), log0[k].0));
                                }
                            }
                        }
                    }
                    // the log extends along the queue: the popped identifier
                    // is owned, so the schedule keeps it
                    assert(poll_ids(log_seq) == owned_schedule(orig, orig.ready@.take(pos))) by {
                        assert(orig.ready@.take(pos).drop_last() =~= orig.ready@.take(pos - 1));
                        assert(orig.ready@.take(pos).last() == orig.ready@[pos - 1]);
                        assert(orig.contains_task(id.0)) by {
                            assert(pre0.contains_task(id.0));
                        }
                        assert(owned_schedule(orig, orig.ready@.take(pos)) == owned_schedule(
                            orig,
                            orig.ready@.take(pos - 1),
                        ).push(id.0));
                        assert(poll_ids(log_seq) =~= poll_ids(log0).push(id.0));
                    }
                }
            } else {
                proof {
                    // the whole table was scanned: nothing owns this
                    // identifier now, so nothing owned it at entry either
                    assert(!self.contains_task(id.0)) by {
                        if self.contains_task(id.0) {
                            let w = choose|w: int|
                                0 <= w < self.tasks@.len() && self.tasks@[w].id.0 == id.0;
                        }
                    }
                    assert(!orig.contains_task(id.0)) by {
                        if orig.contains_task(id.0) {
                            assert(pre0.contains_task(id.0));
                            assert(self.contains_task(id.0));
                        }
                    }
                    assert forall|id2: u64|
                        ids_have(orig.ready@.take(pos), id2) && #[trigger] orig.contains_task(
                            id2,
                        ) implies exists|k: int|
                        0 <= k < log_seq.len() && log_seq[k].0 == id2 by {
                        let w = choose|w: int|
                            0 <= w < orig.ready@.take(pos).len() && orig.ready@.take(pos)[w].0
                                == id2;
                        if w < pos - 1 {
                            assert(ids_have(orig.ready@.take(pos - 1), id2)) by {
                                assert(orig.ready@.take(pos - 1)[w].0 == id2);
                            }
                        } else {
                            assert(id2 == id.0);
                        }
                    }
                    // an unowned identifier is skipped by the schedule too
                    assert(poll_ids(log_seq) == owned_schedule(orig, orig.ready@.take(pos))) by {
                        assert(orig.ready@.take(pos).drop_last() =~= orig.ready@.take(pos - 1));
                        assert(orig.ready@.take(pos).last() == orig.ready@[pos - 1]);
                        assert(owned_schedule(orig, orig.ready@.take(pos)) == owned_schedule(
                            orig,
                            orig.ready@.take(pos - 1),
                        ));
                    }
                    // the table did not change, so ownership facts carry over
                    assert forall|id2: u64| #[trigger]
                        orig.contains_task(id2) && !ids_have(
                            orig.ready@.take(pos),
                            id2,
                        ) implies self.contains_task(id2) by {
                        assert(!ids_have(orig.ready@.take(pos - 1), id2)) by {
                            if ids_have(orig.ready@.take(pos - 1), id2) {
                                let w = choose|w: int|
                                    0 <= w < orig.ready@.take(pos - 1).len() && (
                                    #[trigger] orig.ready@.take(pos - 1)[w]).0 == id2;
                                assert(orig.ready@.take(pos)[w].0 == id2);
                            }
                        }
                        assert(pre0.contains_task(id2));
                    }
                    assert forall|k: int|
                        0 <= k < log_seq.len() && !(#[trigger] log_seq[k]).1 implies self.contains_task(
                        log_seq[k].0,
                    ) by {
                        assert(pre0.contains_task(log_seq[k].0));
                    }
                }
            }
        }
        proof {
            assert(self.ready@.len() == 0);
            assert(pos == orig.ready@.len()) by {
                assert(orig.ready@.skip(pos).len() == 0);
            }
            assert(orig.ready@.take(pos) =~= orig.ready@);
            assert(orig.ready@ == old(self).ready@);
            assert forall|id: u64|
                old(self).ready_has(id) && #[trigger] old(self).contains_task(id) implies exists|
                k: int,
            | 0 <= k < log_seq.len() && log_seq[k].0 == id by {
                assert(ids_have(orig.ready@.take(pos), id));
                assert(orig.contains_task(id));
            }
            assert(poll_ids(log_seq) == owned_schedule(*old(self), old(self).ready@)) by {
                assert(orig.ready@.take(pos) == orig.ready@);
                assert(orig == *old(self));
            }
            assert forall|k: int| 0 <= k < log_seq.len() implies orig.ready_has(#[trigger]
            log_seq[k].0) by {
                let w = choose|w: int|
                    0 <= w < orig.ready@.take(pos).len() && orig.ready@.take(pos)[w].0
                        == log_seq[k].0;
                assert(orig.ready@[w].0 == log_seq[k].0);
            }
        }
        Ghost(log_seq)
    }
}

} // verus!
