//! A wake slot for a single owner.

use vstd::prelude::*;
use crate::executor::Executor;
use crate::model::ExecutorView;
use crate::task::TaskPtr;
use crate::waker::{task_from, WakeupHandle};

verus! {

/// Holds at most one task to wake.
///
/// The slot is meant for one logical owner, such as a future that only its
/// own task polls. It has no synchronisation of its own. Two unrelated tasks
/// that share one slot evict each other on every registration: each eviction
/// wakes the evicted task, so both keep running, at the price of spurious
/// polls.
#[derive(Debug)]
pub struct WakerRegistration {
    waker: Option<TaskPtr>,
}

/// The executor after `t` was registered in a slot that held `held`.
///
/// An empty slot just counts the new handle. A slot that already holds `t`
/// changes nothing. Otherwise the task held before is woken once and its
/// handle is counted out before the new one is counted in.
pub open spec fn registered<P>(
    held: Option<TaskPtr>,
    exec: ExecutorView<P>,
    t: TaskPtr,
) -> ExecutorView<P> {
    match held {
        None => exec.pin(t),
        Some(other) => if other == t {
            exec
        } else {
            exec.wake(other).unpin(other).pin(t)
        },
    }
}

/// The executor after the slot that held `held` woke its task: the handle is
/// counted out and the task is woken once.
pub open spec fn woken<P>(held: Option<TaskPtr>, exec: ExecutorView<P>) -> ExecutorView<P> {
    match held {
        None => exec,
        Some(t) => exec.unpin(t).wake(t),
    }
}

/// The executor after a slot that held `held` was given up: the handle is
/// counted out and nobody is woken.
pub open spec fn released<P>(held: Option<TaskPtr>, exec: ExecutorView<P>) -> ExecutorView<P> {
    match held {
        None => exec,
        Some(t) => exec.unpin(t),
    }
}

impl WakerRegistration {
    /// The task the slot holds, if any.
    pub closed spec fn view(&self) -> Option<TaskPtr> {
        self.waker
    }

    /// An empty slot.
    pub fn new() -> (slot: Self)
        ensures
            slot@ is None,
    {
        Self { waker: None }
    }

    /// Store the task of `w`, to be woken later.
    ///
    /// If the slot holds another task, that task is woken first, so that it
    /// can register again if it is still interested. If the slot already
    /// holds the task of `w`, nothing happens.
    pub fn register<P>(&mut self, exec: &mut Executor<P>, w: &WakeupHandle)
        requires
            old(exec).wf(),
        ensures
            final(exec).wf(),
            final(self)@ == Some(w.task()),
            final(exec)@ == registered(old(self)@, old(exec)@, w.task()),
    {
        let t = task_from(w);
        match self.waker {
            Some(held) => {
                if held.index != t.index {
                    exec.wake(held);
                    exec.unpin(held);
                    self.waker = Some(t);
                    exec.pin(t);
                }
            },
            None => {
                self.waker = Some(t);
                exec.pin(t);
            },
        }
    }

    /// Wake the stored task, if any, and leave the slot empty.
    pub fn wake<P>(&mut self, exec: &mut Executor<P>)
        requires
            old(exec).wf(),
        ensures
            final(exec).wf(),
            final(self)@ is None,
            final(exec)@ == woken(old(self)@, old(exec)@),
    {
        if let Some(t) = self.waker.take() {
            exec.unpin(t);
            exec.wake(t);
        }
    }

    /// Give the slot up without waking anybody, as when the future that owns
    /// it is dropped. The stored handle no longer keeps its task's pool slot
    /// from being used again.
    pub fn release<P>(self, exec: &mut Executor<P>)
        requires
            old(exec).wf(),
        ensures
            final(exec).wf(),
            final(exec)@ == released(self@, old(exec)@),
    {
        if let Some(t) = self.waker {
            exec.unpin(t);
        }
    }

    /// Whether a task is stored.
    pub fn occupied(&self) -> (occupied: bool)
        ensures
            occupied == (self@ is Some),
    {
        self.waker.is_some()
    }
}

} // verus!
