//! Task identity and the states a task control block moves through.

use vstd::prelude::*;

verus! {

/// Stable handle of one task control block: its position in the executor's
/// fixed pool. Two live tasks never share a position, and a block never moves,
/// so the position identifies the task for as long as it lives.
#[derive(Clone, Copy, Debug, PartialEq, Eq, Structural)]
pub struct TaskPtr {
    pub index: u16,
}

/// Where a pool slot stands in its lifecycle.
///
/// `RunningQueued` is the transient state of a task that was woken while its
/// own poll was in progress: it is being polled and already sits in the run
/// queue again.
#[derive(Clone, Copy, Debug, PartialEq, Eq, Structural)]
pub enum TaskState {
    /// The slot never held a task.
    Free,
    /// Spawned, suspended, and not scheduled.
    Idle,
    /// Scheduled: the task has exactly one entry in the run queue.
    Queued,
    /// Handed out by the run queue and being polled.
    Running,
    /// Being polled and scheduled again at the same time.
    RunningQueued,
    /// Finished or cancelled; its entry point is never invoked again.
    Done,
}

/// What a task's entry point reported at the end of one poll.
#[derive(Clone, Copy, Debug, PartialEq, Eq, Structural)]
pub enum PollOutcome {
    /// The task suspended and must be woken to continue.
    Pending,
    /// The task ran to completion.
    Complete,
}

/// Why a task could not be spawned.
#[derive(Clone, Copy, Debug, PartialEq, Eq, Structural)]
pub enum SpawnError {
    /// Every slot of the pool holds a live task or is still referenced by a
    /// wake slot.
    PoolExhausted,
}

impl TaskState {
    /// The task has an entry in the run queue.
    pub open spec fn is_linked(self) -> bool {
        self == TaskState::Queued || self == TaskState::RunningQueued
    }

    /// The task was handed out for a poll that has not been reported back yet.
    pub open spec fn is_polling(self) -> bool {
        self == TaskState::Running || self == TaskState::RunningQueued
    }

    /// The slot holds a task that can still run.
    pub open spec fn is_live(self) -> bool {
        self != TaskState::Free && self != TaskState::Done
    }
}

} // verus!
