//! Wakeup handles and the codec between a handle and the task it stands for.
//!
//! A handle is a plain copy of a task pointer. Copying it allocates nothing
//! and counts nothing, and dropping it releases nothing: the task control
//! block belongs to the executor, never to a handle.

use vstd::prelude::*;
use crate::executor::Executor;
use crate::task::TaskPtr;

verus! {

/// Capability to have one particular task polled again.
///
/// Handles are made by [`handle_from`] only, so every handle that reaches
/// [`task_from`] came out of this codec.
#[derive(Clone, Copy, Debug, PartialEq, Eq, Structural)]
pub struct WakeupHandle {
    task: TaskPtr,
}

impl WakeupHandle {
    /// The task this handle wakes.
    pub closed spec fn task(&self) -> TaskPtr {
        self.task
    }

    /// A handle is nothing more than the task it is bound to.
    pub proof fn lemma_bound_to_one_task(self, other: WakeupHandle)
        ensures
            self.task() == other.task() <==> self == other,
    {
    }

    /// Wake the task and give the handle up.
    pub fn wake<P>(self, exec: &mut Executor<P>)
        requires
            old(exec).wf(),
        ensures
            final(exec).wf(),
            final(exec)@ == old(exec)@.wake(self.task()),
    {
        exec.wake(self.task);
    }

    /// Wake the task and keep the handle.
    pub fn wake_by_ref<P>(&self, exec: &mut Executor<P>)
        requires
            old(exec).wf(),
        ensures
            final(exec).wf(),
            final(exec)@ == old(exec)@.wake(self.task()),
    {
        exec.wake(self.task);
    }
}

/// The handle bound to `t`.
pub fn handle_from(t: TaskPtr) -> (handle: WakeupHandle)
    ensures
        handle.task() == t,
{
    WakeupHandle { task: t }
}

/// The task a handle is bound to.
pub fn task_from(handle: &WakeupHandle) -> (t: TaskPtr)
    ensures
        t == handle.task(),
{
    handle.task
}

/// The word that stands for the content of a wake slot: zero for an empty
/// slot, one more than the pool position for a task.
pub open spec fn slot_word(slot: Option<TaskPtr>) -> usize {
    match slot {
        None => 0,
        Some(t) => (t.index + 1) as usize,
    }
}

/// The slot content a word stands for. A word that no task maps to reads as
/// empty.
pub open spec fn word_slot(word: usize) -> Option<TaskPtr> {
    if 0 < word <= u16::MAX + 1 {
        Some(TaskPtr { index: (word - 1) as u16 })
    } else {
        None
    }
}

/// Every slot content survives the trip through its word.
pub proof fn lemma_word_round_trip(slot: Option<TaskPtr>)
    ensures
        word_slot(slot_word(slot)) == slot,
{
}

/// Encode a task pointer as a non-zero word.
pub fn task_word(t: TaskPtr) -> (word: usize)
    ensures
        word == slot_word(Some(t)),
        word != 0,
{
    t.index as usize + 1
}

/// Decode a word into the slot content it stands for.
pub fn task_of_word(word: usize) -> (slot: Option<TaskPtr>)
    ensures
        slot == word_slot(word),
{
    if 0 < word && word <= 65536 {
        Some(TaskPtr { index: (word - 1) as u16 })
    } else {
        None
    }
}

} // verus!
