//! Tasks: an identifier plus an owned, suspendable unit of computation.
//!
//! A task's computation is an explicit resumable state machine: each poll
//! either finishes (`Ready`) or reports that it is waiting on an event
//! (`Pending`) after arranging to be woken through its wake handle. The
//! wake handle is represented by the task's own identifier, registered
//! with the event producer.

use vstd::prelude::*;

use crate::scancode::ScancodeQueue;

verus! {

/// A process-wide task identifier: assigned once at task creation from a
/// monotonically increasing counter, never reused.
#[derive(Debug, Clone, Copy, PartialEq, Eq, Structural)]
pub struct TaskId(pub u64);

impl TaskId {
    /// Draws the next identifier from the given counter and advances it,
    /// so that every identifier is handed out at most once.
    pub fn new(counter: &mut u64) -> (id: TaskId)
        requires
            *old(counter) < u64::MAX,
        ensures
            id.0 == *old(counter),
            *final(counter) == *old(counter) + 1,
    {
        let id = TaskId(*counter);
        *counter = *counter + 1;
        id
    }
}

/// What one poll of a task reports: finished, or waiting on a later wake.
#[derive(Debug, Clone, Copy, PartialEq, Eq, Structural)]
pub enum PollState {
    Ready,
    Pending,
}

/// The context a task is polled with: it carries the task's own identifier,
/// which doubles as its wake handle when registered with an event producer.
#[derive(Debug, Clone, Copy, PartialEq, Eq, Structural)]
pub struct TaskContext {
    pub task_id: TaskId,
}

/// A suspendable unit of computation. Implementations are explicit state
/// machines; a poll that returns `Pending` should first have registered the
/// context's identifier with an event producer, or it will never run again.
pub trait TaskFuture {
    /// Advances the computation once. The event queue is the only shared
    /// state a computation may touch; the contract keeps it well formed and
    /// allows a wake-handle registration only under the polled task's own
    /// identifier.
    fn poll(&mut self, cx: TaskContext, events: &mut ScancodeQueue) -> (r: PollState)
        requires
            old(events).wf(),
        ensures
            final(events).wf(),
            final(events).capacity() == old(events).capacity(),
            final(events).waker() == old(events).waker()
                || final(events).waker() === Some(cx.task_id),
    ;
}

/// An identifier together with the owned computation it names.
pub struct Task<T> {
    pub id: TaskId,
    pub future: T,
}

impl<T: TaskFuture> Task<T> {
    /// Wraps a computation under a fresh identifier drawn by the caller.
    pub fn new(id: TaskId, future: T) -> (t: Task<T>)
        ensures
            t.id == id,
            t.future == future,
    {
        Task { id, future }
    }

    /// One poll of the stored future, in a context carrying this
    /// identifier as the wake handle.
    pub fn poll(&mut self, events: &mut ScancodeQueue) -> (r: PollState)
        requires
            old(events).wf(),
        ensures
            final(events).wf(),
            final(events).capacity() == old(events).capacity(),
            final(events).waker() == old(events).waker()
                || final(events).waker() === Some(old(self).id),
            final(self).id == old(self).id,
    {
        let cx = TaskContext { task_id: self.id };
        self.future.poll(cx, events)
    }
}

/// The event-loop consumer: a task that drains every queued event byte
/// into its own record and then suspends, relying on the producer's wake.
/// It never completes — by design it reports `Pending` forever — and it
/// registers its wake handle before every suspension, so a later push
/// always finds it.
pub struct EventCounter {
    pub seen: Vec<u8>,
}

impl TaskFuture for EventCounter {
    /// Consumes the whole queue in order, appending to the record, and
    /// suspends with its wake handle registered.
    fn poll(&mut self, cx: TaskContext, events: &mut ScancodeQueue) -> (r: PollState)
        ensures
            r is Pending,
            final(self).seen@ == old(self).seen@ + old(events).queue(),
            final(events).queue().len() == 0,
            final(events).waker() === Some(cx.task_id),
    {
        let ghost orig_queue = old(events).queue();
        loop
            invariant
                orig_queue == old(events).queue(),
                events.wf(),
                events.capacity() == old(events).capacity(),
                events.waker() == old(events).waker() || events.waker() === Some(cx.task_id),
                self.seen@.len() >= old(self).seen@.len(),
                self.seen@.len() - old(self).seen@.len() <= orig_queue.len(),
                self.seen@ == old(self).seen@ + orig_queue.take(
                    self.seen@.len() - old(self).seen@.len(),
                ),
                events.queue() == orig_queue.skip(self.seen@.len() - old(self).seen@.len()),
            decreases events.queue().len(),
        {
            let ghost consumed: int = self.seen@.len() - old(self).seen@.len();
            match events.pop_event(cx) {
                Some(byte) => {
                    self.seen.push(byte);
                    proof {
                        assert(byte == orig_queue[consumed as int]);
                        assert(orig_queue.take(consumed as int + 1) =~= orig_queue.take(
                            consumed as int,
                        ).push(byte));
                        assert(orig_queue.skip(consumed as int).drop_first() =~= orig_queue.skip(
                            consumed as int + 1,
                        ));
                    }
                },
                None => {
                    proof {
                        assert(events.queue().len() == 0);
                        assert(orig_queue.skip(consumed).len() == 0);
                        assert(consumed == orig_queue.len());
                        assert(orig_queue.take(consumed) =~= orig_queue);
                        assert(self.seen@ == old(self).seen@ + orig_queue);
                    }
                    return PollState::Pending;
                },
            }
        }
    }
}

} // verus!
