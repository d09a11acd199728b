//! The task pool and its intrusive run queue.
//!
//! Task control blocks live in a pool whose size is fixed when the executor is
//! made. The run queue is threaded through the blocks themselves: each block
//! carries the links to its neighbours, and the executor keeps the two ends.
//! Scheduling, handing out and withdrawing a task each touch a constant number
//! of blocks.

use vstd::prelude::*;
use crate::model::{ExecutorView, TaskView};
use crate::task::{PollOutcome, SpawnError, TaskPtr, TaskState};

verus! {

/// Task control block: the per-task record the executor works on.
pub struct TaskHeader<P> {
    state: TaskState,
    /// Run-queue link towards the head. Purely structural.
    prev: Option<TaskPtr>,
    /// Run-queue link towards the tail. Purely structural.
    next: Option<TaskPtr>,
    /// Entry point that resumes the task; set at spawn and kept until the
    /// slot is spawned into again.
    poll_fn: Option<P>,
    /// Wake slots that hold a handle to the task.
    pins: usize,
}

/// A fixed pool of tasks together with the queue of those that are ready.
pub struct Executor<P> {
    tasks: Vec<TaskHeader<P>>,
    head: Option<TaskPtr>,
    tail: Option<TaskPtr>,
    order: Ghost<Seq<TaskPtr>>,
    wakes: Ghost<Seq<TaskPtr>>,
}

impl<P> Executor<P> {
    /// The abstract state this executor stands for.
    pub closed spec fn view(&self) -> ExecutorView<P> {
        ExecutorView {
            tasks: Seq::new(
                self.tasks@.len(),
                |i: int|
                    TaskView {
                        state: self.tasks@[i].state,
                        pins: self.tasks@[i].pins as nat,
                        poll_fn: self.tasks@[i].poll_fn,
                    },
            ),
            queue: self.order@,
            wakes: self.wakes@,
        }
    }

    /// The links threaded through the pool spell out the run queue.
    pub closed spec fn links_wf(&self) -> bool {
        linked(self.tasks@, self.head, self.tail, self.order@)
    }

    /// Well-formedness: the links are sound and the abstract state satisfies
    /// the executor invariant.
    pub open spec fn wf(&self) -> bool {
        &&& self.links_wf()
        &&& self@.inv()
    }

    /// An executor with `capacity` free slots and an empty run queue.
    pub fn new(capacity: u16) -> (exec: Self)
        ensures
            exec.wf(),
            exec@ == ExecutorView::<P>::empty(capacity as nat),
    {
        let mut tasks: Vec<TaskHeader<P>> = Vec::new();
        let mut i: u16 = 0;
        while i < capacity
            invariant
                i <= capacity,
                tasks@.len() == i,
                forall|j: int|
                    0 <= j < i ==> {
                        &&& (#[trigger] tasks@[j]).state == TaskState::Free
                        &&& tasks@[j].pins == 0
                        &&& tasks@[j].poll_fn is None
                    },
            decreases capacity - i,
        {
            tasks.push(
                TaskHeader {
                    state: TaskState::Free,
                    prev: None,
                    next: None,
                    poll_fn: None,
                    pins: 0,
                },
            );
            i = i + 1;
        }
        let exec = Executor {
            tasks,
            head: None,
            tail: None,
            order: Ghost(Seq::empty()),
            wakes: Ghost(Seq::empty()),
        };
        proof {
            assert(exec@.tasks =~= ExecutorView::<P>::empty(capacity as nat).tasks);
            ExecutorView::<P>::lemma_empty_inv(capacity as nat);
        }
        exec
    }

    /// Number of slots in the pool.
    pub fn capacity(&self) -> (n: usize)
        ensures
            n == self@.tasks.len(),
    {
        self.tasks.len()
    }

    /// Lifecycle state of `t`.
    pub fn state(&self, t: TaskPtr) -> (state: TaskState)
        ensures
            state == self@.state(t),
    {
        let i: usize = t.index as usize;
        if i < self.tasks.len() {
            self.tasks[i].state
        } else {
            TaskState::Free
        }
    }

    /// Number of wake slots that hold a handle to `t`.
    pub fn pins(&self, t: TaskPtr) -> (pins: usize)
        ensures
            pins == self@.pins(t),
    {
        let i: usize = t.index as usize;
        if i < self.tasks.len() {
            self.tasks[i].pins
        } else {
            0
        }
    }

    /// Entry point of `t`, handed out only while `t` is being polled: a task
    /// that is suspended, finished or cancelled cannot be resumed through it.
    pub fn poll_fn(&self, t: TaskPtr) -> (entry: Option<&P>)
        ensures
            match entry {
                Some(p) => self@.poll_fn(t) == Some(*p),
                None => self@.poll_fn(t) is None,
            },
    {
        let i: usize = t.index as usize;
        if i < self.tasks.len() {
            match self.tasks[i].state {
                TaskState::Running | TaskState::RunningQueued => self.tasks[i].poll_fn.as_ref(),
                _ => None,
            }
        } else {
            None
        }
    }

    /// Create a task with entry point `poll_fn` in the first reusable slot
    /// and schedule it, so that it is polled at least once.
    ///
    /// A slot is reusable when it holds no live task and no wake slot refers
    /// to it. Without such a slot the pool is exhausted and nothing changes.
    pub fn spawn(&mut self, poll_fn: P) -> (spawned: Result<TaskPtr, SpawnError>)
        requires
            old(self).wf(),
        ensures
            final(self).wf(),
            spawned == old(self)@.spawn_result(),
            final(self)@ == old(self)@.spawn(poll_fn),
            spawned matches Ok(t) ==> old(self)@.is_first_reusable(t),
            spawned matches Err(e) ==> e == SpawnError::PoolExhausted && forall|u: TaskPtr|
                !#[trigger] old(self)@.reusable(u),
    {
        let n: usize = self.tasks.len();
        let mut i: usize = 0;
        while i < n
            invariant
                i <= n,
                n == self.tasks@.len(),
                n <= u16::MAX,
                self == old(self),
                self.wf(),
                forall|u: TaskPtr| u.index < i ==> !#[trigger] self@.reusable(u),
            decreases n - i,
        {
            let free = match self.tasks[i].state {
                TaskState::Free | TaskState::Done => self.tasks[i].pins == 0,
                _ => false,
            };
            if free {
                let t = TaskPtr { index: i as u16 };
                let ghost before = self.tasks@;
                proof {
                    assert(self@.is_first_reusable(t));
                    self@.lemma_first_reusable_unique(t);
                    self@.lemma_install_inv(t, poll_fn);
                }
                self.tasks[i].state = TaskState::Idle;
                self.tasks[i].poll_fn = Some(poll_fn);
                proof {
                    lemma_links_frame(before, self.tasks@, self.head, self.tail, self.order@);
                    assert(self@.tasks =~= old(self)@.install(t, poll_fn).tasks);
                }
                self.wake(t);
                return Ok(t);
            }
            i = i + 1;
        }
        proof {
            assert forall|u: TaskPtr| !#[trigger] self@.reusable(u) by {}
            assert(self@.first_reusable() is None);
        }
        Err(SpawnError::PoolExhausted)
    }

    /// Ask for `t` to be polled again. This is the one way the run queue
    /// grows.
    ///
    /// A suspended task is queued; a task that is being polled is queued as
    /// well, so that a wake that arrives during its own poll is not lost. A
    /// task that is queued already keeps its single entry, and a task that is
    /// finished, cancelled or unknown to this pool is not touched.
    pub fn wake(&mut self, t: TaskPtr)
        requires
            old(self).wf(),
        ensures
            final(self).wf(),
            final(self)@ == old(self)@.wake(t),
    {
        proof {
            self@.lemma_wake_inv(t);
        }
        self.enqueue(t);
        self.wakes = Ghost(self.wakes@.push(t));
    }

    /// Take the next ready task out of the run queue and mark it running.
    /// `None` means that nothing is ready and the caller may idle.
    pub fn pop_ready(&mut self) -> (ready: Option<TaskPtr>)
        requires
            old(self).wf(),
        ensures
            final(self).wf(),
            ready == old(self)@.next_ready(),
            final(self)@ == old(self)@.pop_ready(),
    {
        proof {
            lemma_ends_in_pool(self.tasks@, self.head, self.tail, self.order@);
            self@.lemma_pop_ready_inv();
        }
        match self.head {
            None => None,
            Some(t) => {
                self.set_state(t, TaskState::Running);
                self.unlink(t);
                Some(t)
            },
        }
    }

    /// Report what the poll of `t` returned.
    ///
    /// After `Pending` the task is idle, or queued if it was woken during the
    /// poll. After `Complete` the task is done and has no queue entry. A
    /// report for a task that is not being polled is ignored.
    pub fn complete_poll(&mut self, t: TaskPtr, outcome: PollOutcome)
        requires
            old(self).wf(),
        ensures
            final(self).wf(),
            final(self)@ == old(self)@.complete_poll(t, outcome),
    {
        proof {
            self@.lemma_complete_poll_inv(t, outcome);
        }
        match self.state(t) {
            TaskState::Running => match outcome {
                PollOutcome::Pending => self.set_state(t, TaskState::Idle),
                PollOutcome::Complete => self.set_state(t, TaskState::Done),
            },
            TaskState::RunningQueued => match outcome {
                PollOutcome::Pending => self.set_state(t, TaskState::Queued),
                PollOutcome::Complete => {
                    self.set_state(t, TaskState::Done);
                    self.unlink(t);
                },
            },
            _ => {},
        }
    }

    /// Cancel `t`: a suspended or queued task is done from now on and leaves
    /// the run queue, so that a later wake finds nothing to schedule. A task
    /// that is being polled, finished or unknown to this pool is not touched.
    pub fn cancel(&mut self, t: TaskPtr)
        requires
            old(self).wf(),
        ensures
            final(self).wf(),
            final(self)@ == old(self)@.cancel(t),
    {
        proof {
            self@.lemma_cancel_inv(t);
        }
        match self.state(t) {
            TaskState::Idle => self.set_state(t, TaskState::Done),
            TaskState::Queued => {
                self.set_state(t, TaskState::Done);
                self.unlink(t);
            },
            _ => {},
        }
    }

    /// Record that a wake slot took a handle to `t`. While the count is above
    /// zero the slot of `t` is not handed to `spawn`.
    pub fn pin(&mut self, t: TaskPtr)
        requires
            old(self).wf(),
        ensures
            final(self).wf(),
            final(self)@ == old(self)@.pin(t),
    {
        proof {
            self@.lemma_pin_inv(t);
        }
        let i: usize = t.index as usize;
        if i < self.tasks.len() {
            let pins: usize = self.tasks[i].pins;
            if pins < usize::MAX {
                self.set_pins(t, pins + 1);
            }
        }
    }

    /// Record that a wake slot gave up its handle to `t`.
    pub fn unpin(&mut self, t: TaskPtr)
        requires
            old(self).wf(),
        ensures
            final(self).wf(),
            final(self)@ == old(self)@.unpin(t),
    {
        proof {
            self@.lemma_pin_inv(t);
        }
        let i: usize = t.index as usize;
        if i < self.tasks.len() {
            let pins: usize = self.tasks[i].pins;
            if 0 < pins && pins < usize::MAX {
                self.set_pins(t, pins - 1);
            }
        }
    }
}

impl<P> Executor<P> {
    /// Thread `t` into the run queue at the tail.
    fn link_back(&mut self, t: TaskPtr)
        requires
            old(self).links_wf(),
            old(self)@.holds(t),
            !old(self)@.is_queued(t),
        ensures
            final(self).links_wf(),
            final(self)@ == old(self)@.link(t),
    {
        let ghost before = self.tasks@;
        let i: usize = t.index as usize;
        match self.tail {
            Some(last) => {
                proof {
                    lemma_ends_in_pool(before, self.head, self.tail, self.order@);
                }
                let j: usize = last.index as usize;
                self.tasks[j].next = Some(t);
            },
            None => {
                self.head = Some(t);
            },
        }
        self.tasks[i].prev = self.tail;
        self.tasks[i].next = None;
        proof {
            lemma_link_back(
                before,
                old(self).head,
                old(self).tail,
                self.order@,
                self.tasks@,
                self.head,
                t,
            );
            assert(self@.tasks =~= old(self)@.tasks);
        }
        self.tail = Some(t);
        self.order = Ghost(self.order@.push(t));
    }

    /// Take `t` out of the run queue, wherever it stands.
    fn unlink(&mut self, t: TaskPtr)
        requires
            old(self).links_wf(),
            old(self)@.is_queued(t),
        ensures
            final(self).links_wf(),
            final(self)@ == old(self)@.unlink(t),
    {
        let ghost before = self.tasks@;
        proof {
            lemma_neighbours_in_pool(before, self.head, self.tail, self.order@, t);
        }
        let i: usize = t.index as usize;
        let prev = self.tasks[i].prev;
        let next = self.tasks[i].next;
        match prev {
            Some(p) => {
                let j: usize = p.index as usize;
                self.tasks[j].next = next;
            },
            None => {
                self.head = next;
            },
        }
        match next {
            Some(n) => {
                let j: usize = n.index as usize;
                self.tasks[j].prev = prev;
            },
            None => {
                self.tail = prev;
            },
        }
        self.tasks[i].prev = None;
        self.tasks[i].next = None;
        proof {
            lemma_unlink(
                before,
                old(self).head,
                old(self).tail,
                self.order@,
                self.tasks@,
                self.head,
                self.tail,
                t,
            );
            assert(self@.tasks =~= old(self)@.tasks);
        }
        self.order = Ghost(self.order@.remove(self.order@.index_of(t)));
    }

    /// Move slot `t` to `state` without touching the run queue.
    fn set_state(&mut self, t: TaskPtr, state: TaskState)
        requires
            old(self).links_wf(),
            old(self)@.holds(t),
        ensures
            final(self).links_wf(),
            final(self)@ == old(self)@.set_state(t, state),
    {
        let ghost before = self.tasks@;
        let i: usize = t.index as usize;
        self.tasks[i].state = state;
        proof {
            lemma_links_frame(before, self.tasks@, self.head, self.tail, self.order@);
            assert(self@.tasks =~= old(self)@.set_state(t, state).tasks);
        }
    }

    /// Replace the pin count of slot `t`.
    fn set_pins(&mut self, t: TaskPtr, pins: usize)
        requires
            old(self).links_wf(),
            old(self)@.holds(t),
        ensures
            final(self).links_wf(),
            final(self)@ == old(self)@.set_pins(t, pins as nat),
    {
        let ghost before = self.tasks@;
        let i: usize = t.index as usize;
        self.tasks[i].pins = pins;
        proof {
            lemma_links_frame(before, self.tasks@, self.head, self.tail, self.order@);
            assert(self@.tasks =~= old(self)@.set_pins(t, pins as nat).tasks);
        }
    }

    /// Schedule `t` unless it is scheduled already or can no longer run.
    fn enqueue(&mut self, t: TaskPtr)
        requires
            old(self).wf(),
        ensures
            final(self).wf(),
            final(self)@ == old(self)@.enqueue(t),
    {
        proof {
            self@.lemma_enqueue_inv(t);
        }
        match self.state(t) {
            TaskState::Idle => {
                self.set_state(t, TaskState::Queued);
                self.link_back(t);
            },
            TaskState::Running => {
                self.set_state(t, TaskState::RunningQueued);
                self.link_back(t);
            },
            _ => {},
        }
    }
}

/// The entry that follows position `k` of `order`.
spec fn entry_after(order: Seq<TaskPtr>, k: int) -> Option<TaskPtr> {
    if k + 1 < order.len() {
        Some(order[k + 1])
    } else {
        None
    }
}

/// The entry that precedes position `k` of `order`.
spec fn entry_before(order: Seq<TaskPtr>, k: int) -> Option<TaskPtr> {
    if 0 < k {
        Some(order[k - 1])
    } else {
        None
    }
}

/// The block at position `k` of `order` links forward to the entry behind it.
spec fn next_ok<P>(tasks: Seq<TaskHeader<P>>, order: Seq<TaskPtr>, k: int) -> bool {
    tasks[order[k].index as int].next == entry_after(order, k)
}

/// The block at position `k` of `order` links back to the entry before it.
spec fn prev_ok<P>(tasks: Seq<TaskHeader<P>>, order: Seq<TaskPtr>, k: int) -> bool {
    tasks[order[k].index as int].prev == entry_before(order, k)
}

/// Every entry of `order` is a distinct slot of the pool.
spec fn distinct_slots<P>(tasks: Seq<TaskHeader<P>>, order: Seq<TaskPtr>) -> bool {
    &&& tasks.len() <= u16::MAX
    &&& order.no_duplicates()
    &&& forall|k: int| 0 <= k < order.len() ==> (#[trigger] order[k]).index < tasks.len()
}

/// The links in `tasks` spell out `order`: `head` and `tail` are its first and
/// last entry, and each entry's links name its neighbours.
spec fn linked<P>(
    tasks: Seq<TaskHeader<P>>,
    head: Option<TaskPtr>,
    tail: Option<TaskPtr>,
    order: Seq<TaskPtr>,
) -> bool {
    &&& distinct_slots(tasks, order)
    &&& head == (if order.len() == 0 {
        None
    } else {
        Some(order[0])
    })
    &&& tail == (if order.len() == 0 {
        None
    } else {
        Some(order.last())
    })
    &&& forall|k: int| 0 <= k < order.len() ==> #[trigger] next_ok(tasks, order, k)
    &&& forall|k: int| 0 <= k < order.len() ==> #[trigger] prev_ok(tasks, order, k)
}

/// The two ends of a linked queue name slots of the pool.
proof fn lemma_ends_in_pool<P>(
    tasks: Seq<TaskHeader<P>>,
    head: Option<TaskPtr>,
    tail: Option<TaskPtr>,
    order: Seq<TaskPtr>,
)
    requires
        linked(tasks, head, tail, order),
    ensures
        head matches Some(h) ==> h.index < tasks.len() && order.contains(h) && order[0] == h,
        tail matches Some(l) ==> l.index < tasks.len() && order.contains(l),
        head is None <==> order.len() == 0,
        tail is None <==> order.len() == 0,
{
    if order.len() > 0 {
        assert(order[0].index < tasks.len());
        assert(order[order.len() - 1].index < tasks.len());
    }
}

/// The links of a queued task name slots of the pool.
proof fn lemma_neighbours_in_pool<P>(
    tasks: Seq<TaskHeader<P>>,
    head: Option<TaskPtr>,
    tail: Option<TaskPtr>,
    order: Seq<TaskPtr>,
    t: TaskPtr,
)
    requires
        linked(tasks, head, tail, order),
        order.contains(t),
    ensures
        t.index < tasks.len(),
        tasks[t.index as int].prev matches Some(p) ==> p.index < tasks.len() && p != t,
        tasks[t.index as int].next matches Some(n) ==> n.index < tasks.len() && n != t,
{
    let at = order.index_of(t);
    assert(order[at] == t);
    assert(next_ok(tasks, order, at));
    assert(prev_ok(tasks, order, at));
    if at > 0 {
        assert(order[at - 1].index < tasks.len());
    }
    if at + 1 < order.len() {
        assert(order[at + 1].index < tasks.len());
    }
}

/// Links depend on nothing but the link fields of the blocks.
proof fn lemma_links_frame<P>(
    tasks: Seq<TaskHeader<P>>,
    tasks2: Seq<TaskHeader<P>>,
    head: Option<TaskPtr>,
    tail: Option<TaskPtr>,
    order: Seq<TaskPtr>,
)
    requires
        linked(tasks, head, tail, order),
        tasks2.len() == tasks.len(),
        forall|x: int|
            0 <= x < tasks.len() ==> (#[trigger] tasks2[x]).next == tasks[x].next && tasks2[x].prev
                == tasks[x].prev,
    ensures
        linked(tasks2, head, tail, order),
{
    assert forall|k: int| 0 <= k < order.len() implies #[trigger] next_ok(tasks2, order, k) by {
        assert(next_ok(tasks, order, k));
        assert(order[k].index < tasks.len());
    }
    assert forall|k: int| 0 <= k < order.len() implies #[trigger] prev_ok(tasks2, order, k) by {
        assert(prev_ok(tasks, order, k));
        assert(order[k].index < tasks.len());
    }
}

/// Appending `t` behind the old tail keeps the links sound.
proof fn lemma_link_back<P>(
    tasks: Seq<TaskHeader<P>>,
    head: Option<TaskPtr>,
    tail: Option<TaskPtr>,
    order: Seq<TaskPtr>,
    tasks2: Seq<TaskHeader<P>>,
    head2: Option<TaskPtr>,
    t: TaskPtr,
)
    requires
        linked(tasks, head, tail, order),
        t.index < tasks.len(),
        !order.contains(t),
        tasks2.len() == tasks.len(),
        head2 == (if tail is None {
            Some(t)
        } else {
            head
        }),
        forall|x: int|
            0 <= x < tasks.len() ==> (#[trigger] tasks2[x]).next == (if x == t.index {
                None
            } else if tail == Some(TaskPtr { index: x as u16 }) {
                Some(t)
            } else {
                tasks[x].next
            }),
        forall|x: int|
            0 <= x < tasks.len() ==> (#[trigger] tasks2[x]).prev == (if x == t.index {
                tail
            } else {
                tasks[x].prev
            }),
    ensures
        linked(tasks2, head2, Some(t), order.push(t)),
{
    let after = order.push(t);
    let n = order.len() as int;
    assert forall|k: int| 0 <= k < after.len() implies (#[trigger] after[k]).index
        < tasks2.len() by {
        if k < n {
            assert(order[k].index < tasks.len());
        }
    }
    assert(after.no_duplicates()) by {
        assert forall|a: int, b: int|
            0 <= a < after.len() && 0 <= b < after.len() && a != b implies after[a]
            != after[b] by {
            if a < n {
                assert(order.contains(order[a]));
            }
            if b < n {
                assert(order.contains(order[b]));
            }
        }
    }
    assert forall|k: int| 0 <= k < after.len() implies #[trigger] next_ok(tasks2, after, k) by {
        if k < n {
            assert(next_ok(tasks, order, k));
            assert(order.contains(order[k]));
            assert(order[k].index < tasks.len());
            let x = order[k].index as int;
            assert(TaskPtr { index: x as u16 } == order[k]);
            if k + 1 < n {
                assert(order[k] != order[n - 1]);
            }
        }
    }
    assert forall|k: int| 0 <= k < after.len() implies #[trigger] prev_ok(tasks2, after, k) by {
        if k < n {
            assert(prev_ok(tasks, order, k));
            assert(order.contains(order[k]));
            assert(order[k].index < tasks.len());
        }
    }
}

/// After the neighbours of `t` were joined to each other, every remaining
/// entry links forward to the entry behind it.
proof fn lemma_unlink_next<P>(
    tasks: Seq<TaskHeader<P>>,
    order: Seq<TaskPtr>,
    tasks2: Seq<TaskHeader<P>>,
    at: int,
)
    requires
        distinct_slots(tasks, order),
        0 <= at < order.len(),
        forall|k: int| 0 <= k < order.len() ==> #[trigger] next_ok(tasks, order, k),
        tasks2.len() == tasks.len(),
        forall|x: int|
            0 <= x < tasks.len() && x != order[at].index ==> (#[trigger] tasks2[x]).next == (
            if entry_before(order, at) == Some(TaskPtr { index: x as u16 }) {
                entry_after(order, at)
            } else {
                tasks[x].next
            }),
    ensures
        forall|k: int|
            0 <= k < order.len() - 1 ==> #[trigger] next_ok(tasks2, order.remove(at), k),
{
    let after = order.remove(at);
    assert forall|k: int| 0 <= k < order.len() - 1 implies #[trigger] next_ok(
        tasks2,
        after,
        k,
    ) by {
        let src = if k < at {
            k
        } else {
            k + 1
        };
        assert(after[k] == order[src]);
        assert(order[src].index < tasks.len());
        assert(order[src] != order[at]);
        assert(next_ok(tasks, order, src));
        let x = order[src].index as int;
        assert(TaskPtr { index: x as u16 } == order[src]);
        if k + 1 < after.len() {
            assert(after[k + 1] == order[if k + 1 < at {
                k + 1
            } else {
                k + 2
            }]);
        }
        if at > 0 && src != at - 1 {
            assert(order[src] != order[at - 1]);
        }
    }
}

/// After the neighbours of `t` were joined to each other, every remaining
/// entry links back to the entry before it.
proof fn lemma_unlink_prev<P>(
    tasks: Seq<TaskHeader<P>>,
    order: Seq<TaskPtr>,
    tasks2: Seq<TaskHeader<P>>,
    at: int,
)
    requires
        distinct_slots(tasks, order),
        0 <= at < order.len(),
        forall|k: int| 0 <= k < order.len() ==> #[trigger] prev_ok(tasks, order, k),
        tasks2.len() == tasks.len(),
        forall|x: int|
            0 <= x < tasks.len() && x != order[at].index ==> (#[trigger] tasks2[x]).prev == (
            if entry_after(order, at) == Some(TaskPtr { index: x as u16 }) {
                entry_before(order, at)
            } else {
                tasks[x].prev
            }),
    ensures
        forall|k: int|
            0 <= k < order.len() - 1 ==> #[trigger] prev_ok(tasks2, order.remove(at), k),
{
    let after = order.remove(at);
    assert forall|k: int| 0 <= k < order.len() - 1 implies #[trigger] prev_ok(
        tasks2,
        after,
        k,
    ) by {
        let src = if k < at {
            k
        } else {
            k + 1
        };
        assert(after[k] == order[src]);
        assert(order[src].index < tasks.len());
        assert(order[src] != order[at]);
        assert(prev_ok(tasks, order, src));
        let x = order[src].index as int;
        assert(TaskPtr { index: x as u16 } == order[src]);
        if k > 0 {
            assert(after[k - 1] == order[if k - 1 < at {
                k - 1
            } else {
                k
            }]);
        }
        if at + 1 < order.len() && src != at + 1 {
            assert(order[src] != order[at + 1]);
        }
    }
}

/// Taking one entry out of a sequence of distinct slots leaves distinct
/// slots.
proof fn lemma_remove_distinct<P>(tasks: Seq<TaskHeader<P>>, order: Seq<TaskPtr>, at: int)
    requires
        distinct_slots(tasks, order),
        0 <= at < order.len(),
    ensures
        distinct_slots(tasks, order.remove(at)),
{
    let after = order.remove(at);
    assert forall|k: int| 0 <= k < after.len() implies (#[trigger] after[k]).index
        < tasks.len() by {
        let src = if k < at {
            k
        } else {
            k + 1
        };
        assert(after[k] == order[src]);
    }
    assert forall|a: int, b: int|
        0 <= a < after.len() && 0 <= b < after.len() && a != b implies after[a] != after[b] by {
        let sa = if a < at {
            a
        } else {
            a + 1
        };
        let sb = if b < at {
            b
        } else {
            b + 1
        };
        assert(after[a] == order[sa]);
        assert(after[b] == order[sb]);
    }
}

/// Joining the neighbours of `t` to each other keeps the links sound.
proof fn lemma_unlink<P>(
    tasks: Seq<TaskHeader<P>>,
    head: Option<TaskPtr>,
    tail: Option<TaskPtr>,
    order: Seq<TaskPtr>,
    tasks2: Seq<TaskHeader<P>>,
    head2: Option<TaskPtr>,
    tail2: Option<TaskPtr>,
    t: TaskPtr,
)
    requires
        linked(tasks, head, tail, order),
        order.contains(t),
        tasks2.len() == tasks.len(),
        head2 == (if tasks[t.index as int].prev is None {
            tasks[t.index as int].next
        } else {
            head
        }),
        tail2 == (if tasks[t.index as int].next is None {
            tasks[t.index as int].prev
        } else {
            tail
        }),
        forall|x: int|
            0 <= x < tasks.len() && x != t.index ==> (#[trigger] tasks2[x]).next == (
            if tasks[t.index as int].prev == Some(TaskPtr { index: x as u16 }) {
                tasks[t.index as int].next
            } else {
                tasks[x].next
            }),
        forall|x: int|
            0 <= x < tasks.len() && x != t.index ==> (#[trigger] tasks2[x]).prev == (
            if tasks[t.index as int].next == Some(TaskPtr { index: x as u16 }) {
                tasks[t.index as int].prev
            } else {
                tasks[x].prev
            }),
    ensures
        linked(tasks2, head2, tail2, order.remove(order.index_of(t))),
{
    let at = order.index_of(t);
    assert(0 <= at < order.len() && order[at] == t);
    assert(next_ok(tasks, order, at));
    assert(prev_ok(tasks, order, at));
    assert(tasks[t.index as int].prev == entry_before(order, at));
    assert(tasks[t.index as int].next == entry_after(order, at));
    let after = order.remove(at);
    lemma_remove_distinct(tasks, order, at);
    lemma_unlink_next(tasks, order, tasks2, at);
    lemma_unlink_prev(tasks, order, tasks2, at);
    if after.len() > 0 {
        if at == 0 {
            assert(after[0] == order[1]);
        } else {
            assert(after[0] == order[0]);
        }
        if at == order.len() - 1 {
            assert(after.last() == order[order.len() - 2]);
        } else {
            assert(after.last() == order[order.len() - 1]);
        }
    }
}


} // verus!
