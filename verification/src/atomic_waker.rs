//! A wake slot kept in one atomic word.

use vstd::prelude::*;
use atomic_polyfill::{compiler_fence, AtomicUsize, Ordering};
use crate::executor::Executor;
use crate::model::ExecutorView;
use crate::task::TaskPtr;
use crate::waker::{task_from, task_of_word, task_word, word_slot, WakeupHandle};
use crate::waker_registration::released;

verus! {

/// The word an atomic cell holds.
pub uninterp spec fn stored_word(cell: AtomicUsize) -> usize;

/// Calls `AtomicUsize::new`. Trusted: the new cell holds the word it was
/// made with.
#[verifier::external_body]
fn new_cell(word: usize) -> (cell: AtomicUsize)
    ensures
        stored_word(cell) == word,
{
    AtomicUsize::new(word)
}

/// Calls `AtomicUsize::load` with relaxed ordering. Trusted: the result is
/// the word the cell holds. The cell is never shared while it is written:
/// every store in this module goes through an exclusive borrow.
#[verifier::external_body]
fn load_word(cell: &AtomicUsize) -> (word: usize)
    ensures
        word == stored_word(*cell),
{
    cell.load(Ordering::Relaxed)
}

/// Calls `AtomicUsize::store` with relaxed ordering. Trusted: afterwards the
/// cell holds the word that was stored.
#[verifier::external_body]
fn store_word(cell: &mut AtomicUsize, word: usize)
    ensures
        stored_word(*final(cell)) == word,
{
    cell.store(word, Ordering::Relaxed)
}

/// Calls `compiler_fence` with sequentially consistent ordering, which keeps
/// the compiler from moving memory accesses across this point. Nothing is
/// claimed of it.
#[verifier::external_body]
fn publish_fence() {
    compiler_fence(Ordering::SeqCst)
}

/// Holds at most one task to wake, as a single word that is written and read
/// atomically, so that a waking context never sees a half-written pointer.
///
/// The last registration wins: there is no queue of waiters.
pub struct AtomicWaker {
    waker: AtomicUsize,
}

/// The executor after `t` was registered in an atomic slot that held `held`:
/// the handle held before is counted out, the new one is counted in, and
/// nobody is woken.
pub open spec fn overwritten<P>(
    held: Option<TaskPtr>,
    exec: ExecutorView<P>,
    t: TaskPtr,
) -> ExecutorView<P> {
    match held {
        None => exec.pin(t),
        Some(other) => exec.unpin(other).pin(t),
    }
}

/// The executor after an atomic slot that holds `held` woke its task.
pub open spec fn signalled<P>(held: Option<TaskPtr>, exec: ExecutorView<P>) -> ExecutorView<P> {
    match held {
        None => exec,
        Some(t) => exec.wake(t),
    }
}

impl AtomicWaker {
    /// The task the slot holds, if any.
    pub closed spec fn view(&self) -> Option<TaskPtr> {
        word_slot(stored_word(self.waker))
    }

    /// An empty slot.
    pub fn new() -> (slot: Self)
        ensures
            slot@ is None,
    {
        Self { waker: new_cell(0) }
    }

    /// Store the task of `w`, replacing whatever the slot held. The task held
    /// before is not woken.
    pub fn register<P>(&mut self, exec: &mut Executor<P>, w: &WakeupHandle)
        requires
            old(exec).wf(),
        ensures
            final(exec).wf(),
            final(self)@ == Some(w.task()),
            final(exec)@ == overwritten(old(self)@, old(exec)@, w.task()),
    {
        let t = task_from(w);
        let held = task_of_word(load_word(&self.waker));
        store_word(&mut self.waker, task_word(t));
        publish_fence();
        if let Some(other) = held {
            exec.unpin(other);
        }
        exec.pin(t);
    }

    /// Give the slot up without waking anybody, as when the future that owns
    /// it is dropped. The stored handle no longer keeps its task's pool slot
    /// from being used again.
    pub fn release<P>(self, exec: &mut Executor<P>)
        requires
            old(exec).wf(),
        ensures
            final(exec).wf(),
            final(exec)@ == released(self@, old(exec)@),
    {
        if let Some(t) = task_of_word(load_word(&self.waker)) {
            exec.unpin(t);
        }
    }

    /// Wake the stored task, if any. The slot keeps what it holds, so waking
    /// again is safe: a task that is queued already is not queued twice.
    pub fn wake<P>(&self, exec: &mut Executor<P>)
        requires
            old(exec).wf(),
        ensures
            final(exec).wf(),
            final(exec)@ == signalled(self@, old(exec)@),
    {
        if let Some(t) = task_of_word(load_word(&self.waker)) {
            exec.wake(t);
        }
    }
}

} // verus!
