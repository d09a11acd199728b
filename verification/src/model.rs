//! The executor as a mathematical state machine.
//!
//! Every operation of the executor is described here as a function from one
//! abstract state to the next. The executable code in `executor` refines these
//! functions, and the laws in `laws` are proved about them.

use vstd::prelude::*;
use crate::task::{PollOutcome, SpawnError, TaskPtr, TaskState};

verus! {

/// Abstract content of one pool slot.
pub struct TaskView<P> {
    /// Lifecycle state of the slot.
    pub state: TaskState,
    /// Number of wake slots that currently hold a handle to the task.
    pub pins: nat,
    /// Entry point given at spawn time; `None` only while the slot is free.
    pub poll_fn: Option<P>,
}

/// Abstract state of an executor: the pool, the run queue in the order in
/// which tasks will be handed out, and the history of wake requests.
pub struct ExecutorView<P> {
    pub tasks: Seq<TaskView<P>>,
    pub queue: Seq<TaskPtr>,
    pub wakes: Seq<TaskPtr>,
}

/// One request made of an executor.
pub enum Op<P> {
    Spawn(P),
    Wake(TaskPtr),
    PopReady,
    CompletePoll(TaskPtr, PollOutcome),
    Cancel(TaskPtr),
    Pin(TaskPtr),
    Unpin(TaskPtr),
}

impl<P> ExecutorView<P> {
    /// A pool of `capacity` free slots with nothing scheduled.
    pub open spec fn empty(capacity: nat) -> Self {
        ExecutorView {
            tasks: Seq::new(
                capacity,
                |i: int| TaskView { state: TaskState::Free, pins: 0, poll_fn: None },
            ),
            queue: Seq::empty(),
            wakes: Seq::empty(),
        }
    }

    /// `t` names a slot of this pool.
    pub open spec fn holds(self, t: TaskPtr) -> bool {
        (t.index as int) < self.tasks.len()
    }

    /// State of the slot `t` names; a pointer into another pool reads as free.
    pub open spec fn state(self, t: TaskPtr) -> TaskState {
        if self.holds(t) {
            self.tasks[t.index as int].state
        } else {
            TaskState::Free
        }
    }

    /// Number of wake slots holding a handle to `t`.
    pub open spec fn pins(self, t: TaskPtr) -> nat {
        if self.holds(t) {
            self.tasks[t.index as int].pins
        } else {
            0
        }
    }

    /// Entry point of `t`, available exactly while `t` is being polled.
    pub open spec fn poll_fn(self, t: TaskPtr) -> Option<P> {
        if self.state(t).is_polling() {
            self.tasks[t.index as int].poll_fn
        } else {
            None
        }
    }

    /// `t` has an entry in the run queue.
    pub open spec fn is_queued(self, t: TaskPtr) -> bool {
        self.queue.contains(t)
    }

    /// The slot may be handed to `spawn`: it holds no live task and no wake
    /// slot refers to it.
    pub open spec fn reusable(self, t: TaskPtr) -> bool {
        &&& self.holds(t)
        &&& !self.state(t).is_live()
        &&& self.pins(t) == 0
    }

    /// `t` is the reusable slot with the lowest index.
    pub open spec fn is_first_reusable(self, t: TaskPtr) -> bool {
        &&& self.reusable(t)
        &&& forall|u: TaskPtr| u.index < t.index ==> !#[trigger] self.reusable(u)
    }

    /// The slot `spawn` takes, if the pool has one.
    pub open spec fn first_reusable(self) -> Option<TaskPtr> {
        if exists|t: TaskPtr| self.is_first_reusable(t) {
            Some(choose|t: TaskPtr| self.is_first_reusable(t))
        } else {
            None
        }
    }

    /// What every reachable state satisfies: the run queue holds each
    /// scheduled task exactly once and nothing else, and every slot that was
    /// ever spawned into has an entry point.
    pub open spec fn inv(self) -> bool {
        &&& self.tasks.len() <= u16::MAX
        &&& self.queue.no_duplicates()
        &&& forall|t: TaskPtr| #[trigger]
            self.queue.contains(t) <==> self.holds(t) && self.state(t).is_linked()
        &&& forall|i: int|
            0 <= i < self.tasks.len() ==> (#[trigger] self.tasks[i]).pins <= usize::MAX
        &&& forall|i: int|
            0 <= i < self.tasks.len() && (#[trigger] self.tasks[i]).state != TaskState::Free
                ==> self.tasks[i].poll_fn is Some
    }

    /// The state with slot `t` moved to `state`; the queue is left alone.
    pub open spec fn set_state(self, t: TaskPtr, state: TaskState) -> Self {
        ExecutorView {
            tasks: self.tasks.update(
                t.index as int,
                TaskView { state, ..self.tasks[t.index as int] },
            ),
            ..self
        }
    }

    /// The state with `t` appended to the run queue.
    pub open spec fn link(self, t: TaskPtr) -> Self {
        ExecutorView { queue: self.queue.push(t), ..self }
    }

    /// The state with the entry of `t` taken out of the run queue.
    pub open spec fn unlink(self, t: TaskPtr) -> Self {
        ExecutorView { queue: self.queue.remove(self.queue.index_of(t)), ..self }
    }

    /// Schedule `t`: an idle task becomes queued, a task being polled becomes
    /// queued as well; a task that is already queued, finished, or unknown to
    /// this pool is left as it is.
    pub open spec fn enqueue(self, t: TaskPtr) -> Self {
        match self.state(t) {
            TaskState::Idle => self.set_state(t, TaskState::Queued).link(t),
            TaskState::Running => self.set_state(t, TaskState::RunningQueued).link(t),
            _ => self,
        }
    }

    /// One wake request for `t`: it is recorded, and `t` is scheduled.
    pub open spec fn wake(self, t: TaskPtr) -> Self {
        ExecutorView { wakes: self.wakes.push(t), ..self.enqueue(t) }
    }

    /// `n` wake requests for `t` in a row.
    pub open spec fn wake_times(self, t: TaskPtr, n: nat) -> Self
        decreases n,
    {
        if n == 0 {
            self
        } else {
            self.wake(t).wake_times(t, (n - 1) as nat)
        }
    }

    /// Slot `t` initialised for a new task with entry point `poll_fn`.
    pub open spec fn install(self, t: TaskPtr, poll_fn: P) -> Self {
        ExecutorView {
            tasks: self.tasks.update(
                t.index as int,
                TaskView { state: TaskState::Idle, pins: 0, poll_fn: Some(poll_fn) },
            ),
            ..self
        }
    }

    /// What `spawn` returns in this state.
    pub open spec fn spawn_result(self) -> Result<TaskPtr, SpawnError> {
        match self.first_reusable() {
            Some(t) => Ok(t),
            None => Err(SpawnError::PoolExhausted),
        }
    }

    /// The state after `spawn`: the first reusable slot is initialised and
    /// woken once; a pool without a reusable slot is unchanged.
    pub open spec fn spawn(self, poll_fn: P) -> Self {
        match self.first_reusable() {
            Some(t) => self.install(t, poll_fn).wake(t),
            None => self,
        }
    }

    /// What `pop_ready` returns in this state: the head of the run queue.
    pub open spec fn next_ready(self) -> Option<TaskPtr> {
        if self.queue.len() == 0 {
            None
        } else {
            Some(self.queue[0])
        }
    }

    /// The state after `pop_ready`: the head leaves the queue and is running.
    pub open spec fn pop_ready(self) -> Self {
        if self.queue.len() == 0 {
            self
        } else {
            ExecutorView {
                queue: self.queue.drop_first(),
                ..self.set_state(self.queue[0], TaskState::Running)
            }
        }
    }

    /// The state after the poll of `t` was reported back.
    ///
    /// A pending task goes back to idle, unless it was woken during the poll:
    /// then it stays scheduled. A complete task is done, and an entry that a
    /// wake during the poll put into the run queue is withdrawn. A report for a
    /// task that is not being polled changes nothing.
    pub open spec fn complete_poll(self, t: TaskPtr, outcome: PollOutcome) -> Self {
        match self.state(t) {
            TaskState::Running => match outcome {
                PollOutcome::Pending => self.set_state(t, TaskState::Idle),
                PollOutcome::Complete => self.set_state(t, TaskState::Done),
            },
            TaskState::RunningQueued => match outcome {
                PollOutcome::Pending => self.set_state(t, TaskState::Queued),
                PollOutcome::Complete => self.set_state(t, TaskState::Done).unlink(t),
            },
            _ => self,
        }
    }

    /// The state after `t` was cancelled: a suspended or scheduled task is
    /// done and has no queue entry; any other task is left as it is.
    pub open spec fn cancel(self, t: TaskPtr) -> Self {
        match self.state(t) {
            TaskState::Idle => self.set_state(t, TaskState::Done),
            TaskState::Queued => self.set_state(t, TaskState::Done).unlink(t),
            _ => self,
        }
    }

    /// The state with the pin count of slot `t` replaced.
    pub open spec fn set_pins(self, t: TaskPtr, pins: nat) -> Self {
        ExecutorView {
            tasks: self.tasks.update(
                t.index as int,
                TaskView { pins, ..self.tasks[t.index as int] },
            ),
            ..self
        }
    }

    /// A wake slot took a handle to `t`. The count saturates at `usize::MAX`.
    pub open spec fn pin(self, t: TaskPtr) -> Self {
        if self.holds(t) && self.pins(t) < usize::MAX {
            self.set_pins(t, self.pins(t) + 1)
        } else {
            self
        }
    }

    /// A wake slot gave up its handle to `t`. A saturated count stays
    /// saturated, so it never under-counts.
    pub open spec fn unpin(self, t: TaskPtr) -> Self {
        if self.holds(t) && 0 < self.pins(t) < usize::MAX {
            self.set_pins(t, (self.pins(t) - 1) as nat)
        } else {
            self
        }
    }

    /// The state after one request.
    pub open spec fn step(self, op: Op<P>) -> Self {
        match op {
            Op::Spawn(poll_fn) => self.spawn(poll_fn),
            Op::Wake(t) => self.wake(t),
            Op::PopReady => self.pop_ready(),
            Op::CompletePoll(t, outcome) => self.complete_poll(t, outcome),
            Op::Cancel(t) => self.cancel(t),
            Op::Pin(t) => self.pin(t),
            Op::Unpin(t) => self.unpin(t),
        }
    }

    /// The state after a sequence of requests, first to last.
    pub open spec fn run(self, ops: Seq<Op<P>>) -> Self
        decreases ops.len(),
    {
        if ops.len() == 0 {
            self
        } else {
            self.step(ops[0]).run(ops.drop_first())
        }
    }
}

impl<P> ExecutorView<P> {
    /// A fresh pool satisfies the invariant.
    pub proof fn lemma_empty_inv(capacity: nat)
        requires
            capacity <= u16::MAX,
        ensures
            Self::empty(capacity).inv(),
    {
        let s = Self::empty(capacity);
        assert forall|t: TaskPtr| #[trigger]
            s.queue.contains(t) <==> s.holds(t) && s.state(t).is_linked() by {}
    }

    /// Scheduling a task keeps the invariant.
    pub proof fn lemma_enqueue_inv(self, t: TaskPtr)
        requires
            self.inv(),
        ensures
            self.enqueue(t).inv(),
    {
        let next = self.enqueue(t);
        if self.state(t) == TaskState::Idle || self.state(t) == TaskState::Running {
            assert(!self.queue.contains(t));
            assert forall|u: TaskPtr| #[trigger]
                next.queue.contains(u) <==> next.holds(u) && next.state(u).is_linked() by {
                if u == t {
                    assert(next.queue[self.queue.len() as int] == t);
                } else {
                    assert(u.index != t.index);
                    assert(next.state(u) == self.state(u));
                    if self.queue.contains(u) {
                        let k = self.queue.index_of(u);
                        assert(next.queue[k] == u);
                    }
                }
            }
            assert(next.queue.no_duplicates());
        }
    }

    /// A wake request keeps the invariant.
    pub proof fn lemma_wake_inv(self, t: TaskPtr)
        requires
            self.inv(),
        ensures
            self.wake(t).inv(),
    {
        self.lemma_enqueue_inv(t);
        let a = self.enqueue(t);
        let b = self.wake(t);
        assert(a.tasks == b.tasks && a.queue == b.queue);
        assert forall|u: TaskPtr| #[trigger]
            b.queue.contains(u) <==> b.holds(u) && b.state(u).is_linked() by {
            assert(a.queue.contains(u) <==> a.holds(u) && a.state(u).is_linked());
        }
    }

    /// Withdrawing the entry of a queued task leaves every other entry in
    /// place.
    pub proof fn lemma_unlink_queue(self, t: TaskPtr)
        requires
            self.queue.no_duplicates(),
            self.queue.contains(t),
        ensures
            self.unlink(t).queue.no_duplicates(),
            !self.unlink(t).queue.contains(t),
            forall|u: TaskPtr|
                u != t ==> (#[trigger] self.unlink(t).queue.contains(u) <==> self.queue.contains(
                    u,
                )),
            self.unlink(t).queue.len() + 1 == self.queue.len(),
    {
        let at = self.queue.index_of(t);
        let after = self.unlink(t).queue;
        assert(0 <= at < self.queue.len() && self.queue[at] == t);
        assert forall|k: int| 0 <= k < after.len() implies #[trigger] after[k] == self.queue[if k
            < at {
            k
        } else {
            k + 1
        }] by {}
        assert forall|u: TaskPtr| u != t implies (#[trigger] after.contains(u)
            <==> self.queue.contains(u)) by {
            if self.queue.contains(u) {
                let k = self.queue.index_of(u);
                assert(k != at);
                let dst = if k < at {
                    k
                } else {
                    k - 1
                };
                assert(after[dst] == u);
            }
            if after.contains(u) {
                let k = after.index_of(u);
                assert(after[k] == u);
            }
        }
        if after.contains(t) {
            let k = after.index_of(t);
            assert(after[k] == t);
        }
    }

    /// Handing out the head of the run queue keeps the invariant.
    pub proof fn lemma_pop_ready_inv(self)
        requires
            self.inv(),
        ensures
            self.pop_ready().inv(),
            self.queue.len() > 0 ==> self.pop_ready() == self.set_state(
                self.queue[0],
                TaskState::Running,
            ).unlink(self.queue[0]),
    {
        if self.queue.len() > 0 {
            let t = self.queue[0];
            assert(self.queue.contains(t));
            assert(self.queue.index_of(t) == 0);
            assert(self.queue.remove(0) =~= self.queue.drop_first());
            let mid = self.set_state(t, TaskState::Running);
            let next = self.pop_ready();
            assert(next == mid.unlink(t));
            mid.lemma_unlink_queue(t);
            assert forall|u: TaskPtr| #[trigger]
                next.queue.contains(u) <==> next.holds(u) && next.state(u).is_linked() by {
                if u != t {
                    assert(u.index != t.index);
                    assert(next.state(u) == self.state(u));
                }
            }
        }
    }

    /// Reporting a poll back keeps the invariant.
    pub proof fn lemma_complete_poll_inv(self, t: TaskPtr, outcome: PollOutcome)
        requires
            self.inv(),
        ensures
            self.complete_poll(t, outcome).inv(),
    {
        let next = self.complete_poll(t, outcome);
        if self.state(t).is_polling() {
            if self.state(t) == TaskState::RunningQueued && outcome == PollOutcome::Complete {
                assert(self.queue.contains(t));
                self.set_state(t, TaskState::Done).lemma_unlink_queue(t);
            }
            assert forall|u: TaskPtr| #[trigger]
                next.queue.contains(u) <==> next.holds(u) && next.state(u).is_linked() by {
                if u != t {
                    assert(u.index != t.index);
                    assert(next.state(u) == self.state(u));
                }
            }
        }
    }

    /// Cancelling a task keeps the invariant.
    pub proof fn lemma_cancel_inv(self, t: TaskPtr)
        requires
            self.inv(),
        ensures
            self.cancel(t).inv(),
    {
        let next = self.cancel(t);
        if self.state(t) == TaskState::Idle || self.state(t) == TaskState::Queued {
            if self.state(t) == TaskState::Queued {
                assert(self.queue.contains(t));
                self.set_state(t, TaskState::Done).lemma_unlink_queue(t);
            }
            assert forall|u: TaskPtr| #[trigger]
                next.queue.contains(u) <==> next.holds(u) && next.state(u).is_linked() by {
                if u != t {
                    assert(u.index != t.index);
                    assert(next.state(u) == self.state(u));
                }
            }
        }
    }

    /// Counting a wake slot in or out keeps the invariant.
    pub proof fn lemma_pin_inv(self, t: TaskPtr)
        requires
            self.inv(),
        ensures
            self.pin(t).inv(),
            self.unpin(t).inv(),
    {
        let a = self.pin(t);
        assert forall|u: TaskPtr| #[trigger]
            a.queue.contains(u) <==> a.holds(u) && a.state(u).is_linked() by {
            assert(a.state(u) == self.state(u));
            assert(self.queue.contains(u) <==> self.holds(u) && self.state(u).is_linked());
        }
        let b = self.unpin(t);
        assert forall|u: TaskPtr| #[trigger]
            b.queue.contains(u) <==> b.holds(u) && b.state(u).is_linked() by {
            assert(b.state(u) == self.state(u));
            assert(self.queue.contains(u) <==> self.holds(u) && self.state(u).is_linked());
        }
    }

    /// At most one slot is the first reusable one.
    pub proof fn lemma_first_reusable_unique(self, t: TaskPtr)
        requires
            self.is_first_reusable(t),
        ensures
            self.first_reusable() == Some(t),
    {
        let c = choose|c: TaskPtr| self.is_first_reusable(c);
        assert(self.is_first_reusable(c));
        if c.index < t.index {
            assert(!self.reusable(c));
        }
        if t.index < c.index {
            assert(!self.reusable(t));
        }
        assert(c.index == t.index);
    }

    /// Initialising a reusable slot keeps the invariant.
    pub proof fn lemma_install_inv(self, t: TaskPtr, poll_fn: P)
        requires
            self.inv(),
            self.reusable(t),
        ensures
            self.install(t, poll_fn).inv(),
            self.install(t, poll_fn).state(t) == TaskState::Idle,
    {
        let next = self.install(t, poll_fn);
        assert forall|u: TaskPtr| #[trigger]
            next.queue.contains(u) <==> next.holds(u) && next.state(u).is_linked() by {
            assert(self.queue.contains(u) <==> self.holds(u) && self.state(u).is_linked());
            if u != t {
                assert(u.index != t.index);
                assert(next.state(u) == self.state(u));
            }
        }
    }

    /// Spawning keeps the invariant.
    pub proof fn lemma_spawn_inv(self, poll_fn: P)
        requires
            self.inv(),
        ensures
            self.spawn(poll_fn).inv(),
    {
        match self.first_reusable() {
            Some(t) => {
                assert(self.is_first_reusable(t));
                self.lemma_install_inv(t, poll_fn);
                self.install(t, poll_fn).lemma_wake_inv(t);
            },
            None => {},
        }
    }

    /// Every request keeps the invariant.
    pub proof fn lemma_step_inv(self, op: Op<P>)
        requires
            self.inv(),
        ensures
            self.step(op).inv(),
    {
        match op {
            Op::Spawn(poll_fn) => self.lemma_spawn_inv(poll_fn),
            Op::Wake(t) => self.lemma_wake_inv(t),
            Op::PopReady => self.lemma_pop_ready_inv(),
            Op::CompletePoll(t, outcome) => self.lemma_complete_poll_inv(t, outcome),
            Op::Cancel(t) => self.lemma_cancel_inv(t),
            Op::Pin(t) => self.lemma_pin_inv(t),
            Op::Unpin(t) => self.lemma_pin_inv(t),
        }
    }

    /// Every sequence of requests keeps the invariant.
    pub proof fn lemma_run_inv(self, ops: Seq<Op<P>>)
        requires
            self.inv(),
        ensures
            self.run(ops).inv(),
        decreases ops.len(),
    {
        if ops.len() > 0 {
            self.lemma_step_inv(ops[0]);
            self.step(ops[0]).lemma_run_inv(ops.drop_first());
        }
    }
}

} // verus!
