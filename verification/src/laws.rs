//! Laws of the executor, proved about its abstract state machine.
//!
//! The executable operations are specified as exactly the functions of
//! `model` that these laws speak of, so each law holds of the running code.

use vstd::prelude::*;
use crate::atomic_waker::{overwritten, signalled};
use crate::model::{ExecutorView, Op};
use crate::task::{TaskPtr, TaskState};
use crate::waker_registration::{registered, released, woken};

verus! {

/// Number of entries that `t` has in `queue`.
pub open spec fn entries(queue: Seq<TaskPtr>, t: TaskPtr) -> nat
    decreases queue.len(),
{
    if queue.len() == 0 {
        0
    } else if queue.last() == t {
        entries(queue.drop_last(), t) + 1
    } else {
        entries(queue.drop_last(), t)
    }
}

/// In a queue without repetition a task has one entry if it occurs and none
/// if it does not.
pub proof fn lemma_entries_of_distinct(queue: Seq<TaskPtr>, t: TaskPtr)
    requires
        queue.no_duplicates(),
    ensures
        entries(queue, t) == (if queue.contains(t) {
            1nat
        } else {
            0nat
        }),
    decreases queue.len(),
{
    if queue.len() > 0 {
        let front = queue.drop_last();
        lemma_entries_of_distinct(front, t);
        if queue.last() == t {
            assert(queue[queue.len() - 1] == t);
            if front.contains(t) {
                let k = front.index_of(t);
                assert(queue[k] == t);
            }
        } else if queue.contains(t) {
            let k = queue.index_of(t);
            assert(front[k] == t);
        } else if front.contains(t) {
            let k = front.index_of(t);
            assert(queue[k] == t);
        }
    }
}

/// Idempotent wake: however often a queued task is woken, the run queue and
/// the pool stay as they are, and the task has exactly one entry.
pub proof fn lemma_wake_idempotent<P>(s: ExecutorView<P>, t: TaskPtr, n: nat)
    requires
        s.inv(),
        s.is_queued(t),
    ensures
        s.wake_times(t, n).queue == s.queue,
        s.wake_times(t, n).tasks == s.tasks,
        entries(s.wake_times(t, n).queue, t) == 1,
    decreases n,
{
    lemma_entries_of_distinct(s.queue, t);
    if n > 0 {
        s.lemma_wake_inv(t);
        assert(s.state(t).is_linked());
        assert(s.wake(t).queue == s.queue);
        lemma_wake_idempotent(s.wake(t), t, (n - 1) as nat);
    }
}

/// The executor after an atomic slot that holds `held` woke its task `n`
/// times in a row.
pub open spec fn signalled_times<P>(
    held: Option<TaskPtr>,
    exec: ExecutorView<P>,
    n: nat,
) -> ExecutorView<P>
    decreases n,
{
    if n == 0 {
        exec
    } else {
        signalled_times(held, signalled(held, exec), (n - 1) as nat)
    }
}

/// Idempotent wake through a slot: however often the atomic slot of a queued
/// task is woken, the run queue stays as it is and the task has exactly one
/// entry.
pub proof fn lemma_slot_wake_idempotent<P>(exec: ExecutorView<P>, t: TaskPtr, n: nat)
    requires
        exec.inv(),
        exec.is_queued(t),
    ensures
        signalled_times(Some(t), exec, n) == exec.wake_times(t, n),
        signalled_times(Some(t), exec, n).queue == exec.queue,
        entries(signalled_times(Some(t), exec, n).queue, t) == 1,
    decreases n,
{
    lemma_wake_idempotent(exec, t, n);
    if n > 0 {
        exec.lemma_wake_inv(t);
        assert(exec.state(t).is_linked());
        assert(exec.wake(t).queue == exec.queue);
        lemma_slot_wake_idempotent(exec.wake(t), t, (n - 1) as nat);
    }
}

/// A wake never adds a second entry: whatever state the task is in, it has at
/// most one entry afterwards.
pub proof fn lemma_wake_single_entry<P>(s: ExecutorView<P>, t: TaskPtr, u: TaskPtr)
    requires
        s.inv(),
    ensures
        entries(s.wake(t).queue, u) <= 1,
{
    s.lemma_wake_inv(t);
    lemma_entries_of_distinct(s.wake(t).queue, u);
}

/// A wake of a task that can still run leaves it in the run queue.
pub proof fn lemma_wake_schedules<P>(s: ExecutorView<P>, t: TaskPtr)
    requires
        s.inv(),
        s.state(t).is_live(),
    ensures
        s.wake(t).is_queued(t),
{
    if s.state(t) == TaskState::Idle || s.state(t) == TaskState::Running {
        assert(s.wake(t).queue[s.queue.len() as int] == t);
    } else {
        assert(s.state(t).is_linked());
    }
}

/// A wake of a task that is finished, cancelled or unknown to the pool leaves
/// the pool and the run queue as they are.
pub proof fn lemma_wake_of_dead_task<P>(s: ExecutorView<P>, t: TaskPtr)
    requires
        !s.state(t).is_live(),
    ensures
        s.wake(t).queue == s.queue,
        s.wake(t).tasks == s.tasks,
{
}

/// The run queue grows through wake requests only: a task that enters the
/// queue in one step is the task that the step recorded a wake for.
pub proof fn lemma_queue_grows_by_wake_only<P>(s: ExecutorView<P>, op: Op<P>, t: TaskPtr)
    requires
        s.inv(),
        !s.is_queued(t),
        s.step(op).is_queued(t),
    ensures
        s.step(op).wakes == s.wakes.push(t),
{
    match op {
        Op::Spawn(poll_fn) => {
            match s.first_reusable() {
                Some(r) => {
                    assert(s.is_first_reusable(r));
                    s.lemma_install_inv(r, poll_fn);
                    let mid = s.install(r, poll_fn);
                    assert(mid.queue == s.queue);
                    lemma_enters_by_enqueue(mid, r, t);
                },
                None => {},
            }
        },
        Op::Wake(u) => {
            lemma_enters_by_enqueue(s, u, t);
        },
        Op::PopReady => {
            if s.queue.len() > 0 {
                let k = s.pop_ready().queue.index_of(t);
                assert(s.queue[k + 1] == t);
            }
        },
        Op::CompletePoll(u, outcome) => {
            if s.complete_poll(u, outcome).queue != s.queue {
                assert(s.queue.contains(u));
                s.set_state(u, TaskState::Done).lemma_unlink_queue(u);
            }
        },
        Op::Cancel(u) => {
            if s.cancel(u).queue != s.queue {
                assert(s.queue.contains(u));
                s.set_state(u, TaskState::Done).lemma_unlink_queue(u);
            }
        },
        Op::Pin(u) => {},
        Op::Unpin(u) => {},
    }
}

/// The only task that `enqueue` can add to the queue is the one it is asked
/// to schedule.
proof fn lemma_enters_by_enqueue<P>(s: ExecutorView<P>, u: TaskPtr, t: TaskPtr)
    requires
        !s.is_queued(t),
        s.enqueue(u).is_queued(t),
    ensures
        u == t,
{
    if s.enqueue(u).queue != s.queue {
        let k = s.enqueue(u).queue.index_of(t);
        if k < s.queue.len() {
            assert(s.queue[k] == t);
        }
    }
}

/// What became of a queued task along a sequence of requests.
pub enum Fate {
    /// `pop_ready` handed the task out.
    HandedOut,
    /// The task was completed or cancelled before it was handed out.
    Retired,
    /// The task is still waiting in the run queue.
    Waiting,
}

/// The request hands `t` out: it is a `pop_ready` that returns `t`.
pub open spec fn hands_out<P>(s: ExecutorView<P>, op: Op<P>, t: TaskPtr) -> bool {
    op is PopReady && s.next_ready() == Some(t)
}

/// The request ends `t`: the task could still run before it and is done
/// after it.
pub open spec fn retires<P>(s: ExecutorView<P>, op: Op<P>, t: TaskPtr) -> bool {
    s.state(t).is_live() && s.step(op).state(t) == TaskState::Done
}

/// The first thing that happens to `t` along `ops`, starting in `s`.
pub open spec fn fate<P>(s: ExecutorView<P>, ops: Seq<Op<P>>, t: TaskPtr) -> Fate
    decreases ops.len(),
{
    if ops.len() == 0 {
        Fate::Waiting
    } else if hands_out(s, ops[0], t) {
        Fate::HandedOut
    } else if retires(s, ops[0], t) {
        Fate::Retired
    } else {
        fate(s.step(ops[0]), ops.drop_first(), t)
    }
}

/// A queued task stays queued through any request that neither hands it out
/// nor ends it.
pub proof fn lemma_stays_queued<P>(s: ExecutorView<P>, op: Op<P>, t: TaskPtr)
    requires
        s.inv(),
        s.is_queued(t),
        !hands_out(s, op, t),
        !retires(s, op, t),
    ensures
        s.step(op).is_queued(t),
{
    let k = s.queue.index_of(t);
    assert(s.queue[k] == t);
    assert(s.holds(t) && s.state(t).is_linked());
    match op {
        Op::Spawn(poll_fn) => {
            match s.first_reusable() {
                Some(r) => {
                    assert(s.is_first_reusable(r));
                    let mid = s.install(r, poll_fn);
                    assert(mid.queue == s.queue);
                    lemma_enqueue_keeps(mid, r, t);
                },
                None => {},
            }
        },
        Op::Wake(u) => {
            lemma_enqueue_keeps(s, u, t);
        },
        Op::PopReady => {
            assert(k > 0);
            assert(s.pop_ready().queue[k - 1] == t);
        },
        Op::CompletePoll(u, outcome) => {
            if s.complete_poll(u, outcome).queue != s.queue {
                assert(s.queue.contains(u));
                s.set_state(u, TaskState::Done).lemma_unlink_queue(u);
                assert(u != t);
            }
        },
        Op::Cancel(u) => {
            if s.cancel(u).queue != s.queue {
                assert(s.queue.contains(u));
                s.set_state(u, TaskState::Done).lemma_unlink_queue(u);
                assert(u != t);
            }
        },
        Op::Pin(u) => {},
        Op::Unpin(u) => {},
    }
}

/// `enqueue` removes nothing from the queue.
proof fn lemma_enqueue_keeps<P>(s: ExecutorView<P>, u: TaskPtr, t: TaskPtr)
    requires
        s.is_queued(t),
    ensures
        s.enqueue(u).is_queued(t),
{
    let k = s.queue.index_of(t);
    assert(s.queue[k] == t);
    assert(s.enqueue(u).queue[k] == t);
}

/// A task that waits in the run queue is handed out or retired before the
/// queue runs empty.
pub proof fn lemma_queued_task_is_served<P>(s: ExecutorView<P>, ops: Seq<Op<P>>, t: TaskPtr)
    requires
        s.inv(),
        s.is_queued(t),
        s.run(ops).next_ready() is None,
    ensures
        fate(s, ops, t) != Fate::Waiting,
    decreases ops.len(),
{
    if ops.len() == 0 {
        let k = s.queue.index_of(t);
        assert(s.queue[k] == t);
    } else if !hands_out(s, ops[0], t) && !retires(s, ops[0], t) {
        s.lemma_step_inv(ops[0]);
        lemma_stays_queued(s, ops[0], t);
        lemma_queued_task_is_served(s.step(ops[0]), ops.drop_first(), t);
    }
}

/// No lost wakeup: once a task that can still run was woken, no sequence of
/// requests brings `pop_ready` to report an empty queue without having handed
/// the task out first. The one exception is a task that ends in between, by
/// completing the poll it was woken in or by being cancelled.
pub proof fn lemma_no_lost_wakeup<P>(s: ExecutorView<P>, t: TaskPtr, ops: Seq<Op<P>>)
    requires
        s.inv(),
        s.state(t).is_live(),
        s.wake(t).run(ops).next_ready() is None,
        fate(s.wake(t), ops, t) != Fate::Retired,
    ensures
        fate(s.wake(t), ops, t) == Fate::HandedOut,
{
    s.lemma_wake_inv(t);
    lemma_wake_schedules(s, t);
    lemma_queued_task_is_served(s.wake(t), ops, t);
}

/// Single-owner eviction: registering `b` in a slot that holds another task
/// `a` records exactly one wake, of `a`, and the slot then holds `b`;
/// registering `a` in a slot that holds `a` leaves the executor untouched.
pub proof fn lemma_single_owner_eviction<P>(exec: ExecutorView<P>, a: TaskPtr, b: TaskPtr)
    ensures
        a != b ==> registered(Some(a), exec, b).wakes == exec.wakes.push(a),
        a != b ==> registered(Some(a), exec, b).queue == exec.wake(a).queue,
        registered(Some(a), exec, a) == exec,
        registered(None, exec, b).wakes == exec.wakes,
{
}

/// Atomic slot overwrite: registering `b` in an atomic slot that holds `a`
/// wakes nobody and moves no task, and a wake of the slot afterwards records
/// one wake, of `b`.
pub proof fn lemma_atomic_overwrite<P>(exec: ExecutorView<P>, a: TaskPtr, b: TaskPtr)
    ensures
        overwritten(Some(a), exec, b).wakes == exec.wakes,
        overwritten(Some(a), exec, b).queue == exec.queue,
        forall|u: TaskPtr| overwritten(Some(a), exec, b).state(u) == exec.state(u),
        signalled(Some(b), overwritten(Some(a), exec, b)).wakes == exec.wakes.push(b),
        signalled(Some(b), overwritten(Some(a), exec, b)) == overwritten(Some(a), exec, b).wake(b),
{
}

/// Waking through a single-owner slot empties it and wakes its task once;
/// an empty slot wakes nobody.
pub proof fn lemma_slot_wake<P>(exec: ExecutorView<P>, a: TaskPtr)
    ensures
        woken(Some(a), exec).wakes == exec.wakes.push(a),
        woken(None, exec) == exec,
{
}

/// Pool safety: while a wake slot is counted for `t`, `spawn` does not hand
/// out the slot of `t` and leaves its content alone.
pub proof fn lemma_pool_safety<P>(s: ExecutorView<P>, t: TaskPtr, poll_fn: P)
    requires
        s.pins(t) > 0,
    ensures
        s.spawn_result() != Ok::<TaskPtr, crate::task::SpawnError>(t),
        s.spawn(poll_fn).tasks[t.index as int] == s.tasks[t.index as int],
        s.spawn(poll_fn).pins(t) == s.pins(t),
{
    match s.first_reusable() {
        Some(r) => {
            assert(s.is_first_reusable(r));
            assert(r.index != t.index);
        },
        None => {},
    }
}

/// Number of wake slots among `slots` that hold `t`.
pub open spec fn holders(slots: Seq<Option<TaskPtr>>, t: TaskPtr) -> nat
    decreases slots.len(),
{
    if slots.len() == 0 {
        0
    } else if slots.last() == Some(t) {
        holders(slots.drop_last(), t) + 1
    } else {
        holders(slots.drop_last(), t)
    }
}

/// The executor counts every handle that the wake slots hold: the pin count
/// of a task is at least the number of slots holding it, or it is saturated.
pub open spec fn counted<P>(exec: ExecutorView<P>, slots: Seq<Option<TaskPtr>>) -> bool {
    forall|t: TaskPtr|
        exec.holds(t) ==> exec.pins(t) >= usize::MAX || #[trigger] exec.pins(t) >= holders(
            slots,
            t,
        )
}

/// Replacing the content of one slot moves one holder from the old content
/// to the new.
pub proof fn lemma_holders_update(
    slots: Seq<Option<TaskPtr>>,
    i: int,
    content: Option<TaskPtr>,
    t: TaskPtr,
)
    requires
        0 <= i < slots.len(),
    ensures
        holders(slots.update(i, content), t) + (if slots[i] == Some(t) {
            1nat
        } else {
            0nat
        }) == holders(slots, t) + (if content == Some(t) {
            1nat
        } else {
            0nat
        }),
    decreases slots.len(),
{
    let after = slots.update(i, content);
    if i == slots.len() - 1 {
        assert(after.drop_last() =~= slots.drop_last());
    } else {
        assert(after.drop_last() =~= slots.drop_last().update(i, content));
        lemma_holders_update(slots.drop_last(), i, content, t);
    }
}

/// A task that some slot holds has at least one holder.
pub proof fn lemma_holder_counts(slots: Seq<Option<TaskPtr>>, i: int, t: TaskPtr)
    requires
        0 <= i < slots.len(),
        slots[i] == Some(t),
    ensures
        holders(slots, t) >= 1,
    decreases slots.len(),
{
    if i < slots.len() - 1 {
        lemma_holder_counts(slots.drop_last(), i, t);
    }
}

/// Registering in a single-owner slot keeps the count of held handles.
pub proof fn lemma_register_keeps_count<P>(
    exec: ExecutorView<P>,
    slots: Seq<Option<TaskPtr>>,
    i: int,
    t: TaskPtr,
)
    requires
        counted(exec, slots),
        0 <= i < slots.len(),
    ensures
        counted(registered(slots[i], exec, t), slots.update(i, Some(t))),
{
    let after = registered(slots[i], exec, t);
    let slots2 = slots.update(i, Some(t));
    assert forall|u: TaskPtr| after.holds(u) implies after.pins(u) >= usize::MAX
        || #[trigger] after.pins(u) >= holders(slots2, u) by {
        lemma_holders_update(slots, i, Some(t), u);
        assert(exec.holds(u));
        assert(exec.pins(u) >= usize::MAX || exec.pins(u) >= holders(slots, u));
        match slots[i] {
            None => {
                lemma_pins_after(exec, t, u);
            },
            Some(a) => {
                if a != t {
                    lemma_holder_counts(slots, i, a);
                    lemma_wake_keeps_pins(exec, a, u);
                    lemma_pins_after(exec.wake(a), a, u);
                    lemma_pins_after(exec.wake(a).unpin(a), t, u);
                }
            },
        }
    }
}

/// Registering in an atomic slot keeps the count of held handles.
pub proof fn lemma_overwrite_keeps_count<P>(
    exec: ExecutorView<P>,
    slots: Seq<Option<TaskPtr>>,
    i: int,
    t: TaskPtr,
)
    requires
        counted(exec, slots),
        0 <= i < slots.len(),
    ensures
        counted(overwritten(slots[i], exec, t), slots.update(i, Some(t))),
{
    let after = overwritten(slots[i], exec, t);
    let slots2 = slots.update(i, Some(t));
    assert forall|u: TaskPtr| after.holds(u) implies after.pins(u) >= usize::MAX
        || #[trigger] after.pins(u) >= holders(slots2, u) by {
        lemma_holders_update(slots, i, Some(t), u);
        assert(exec.holds(u));
        assert(exec.pins(u) >= usize::MAX || exec.pins(u) >= holders(slots, u));
        match slots[i] {
            None => {
                lemma_pins_after(exec, t, u);
            },
            Some(a) => {
                lemma_holder_counts(slots, i, a);
                lemma_pins_after(exec, a, u);
                lemma_pins_after(exec.unpin(a), t, u);
            },
        }
    }
}

/// Waking through a single-owner slot, which empties it, keeps the count of
/// held handles; waking through an atomic slot, which keeps its content,
/// does so too.
pub proof fn lemma_slot_wake_keeps_count<P>(
    exec: ExecutorView<P>,
    slots: Seq<Option<TaskPtr>>,
    i: int,
)
    requires
        counted(exec, slots),
        0 <= i < slots.len(),
    ensures
        counted(woken(slots[i], exec), slots.update(i, None)),
        counted(signalled(slots[i], exec), slots),
{
    let after = woken(slots[i], exec);
    let slots2 = slots.update(i, None);
    assert forall|u: TaskPtr| after.holds(u) implies after.pins(u) >= usize::MAX
        || #[trigger] after.pins(u) >= holders(slots2, u) by {
        lemma_holders_update(slots, i, None, u);
        assert(exec.holds(u));
        assert(exec.pins(u) >= usize::MAX || exec.pins(u) >= holders(slots, u));
        match slots[i] {
            None => {},
            Some(a) => {
                lemma_holder_counts(slots, i, a);
                lemma_pins_after(exec, a, u);
                lemma_wake_keeps_pins(exec.unpin(a), a, u);
            },
        }
    }
    let rung = signalled(slots[i], exec);
    assert forall|u: TaskPtr| rung.holds(u) implies rung.pins(u) >= usize::MAX
        || #[trigger] rung.pins(u) >= holders(slots, u) by {
        assert(exec.holds(u));
        assert(exec.pins(u) >= usize::MAX || exec.pins(u) >= holders(slots, u));
        match slots[i] {
            None => {},
            Some(a) => {
                lemma_wake_keeps_pins(exec, a, u);
            },
        }
    }
}

/// Giving a slot up keeps the count of held handles.
pub proof fn lemma_release_keeps_count<P>(
    exec: ExecutorView<P>,
    slots: Seq<Option<TaskPtr>>,
    i: int,
)
    requires
        counted(exec, slots),
        0 <= i < slots.len(),
    ensures
        counted(released(slots[i], exec), slots.update(i, None)),
{
    let after = released(slots[i], exec);
    let slots2 = slots.update(i, None);
    assert forall|u: TaskPtr| after.holds(u) implies after.pins(u) >= usize::MAX
        || #[trigger] after.pins(u) >= holders(slots2, u) by {
        lemma_holders_update(slots, i, None, u);
        assert(exec.holds(u));
        assert(exec.pins(u) >= usize::MAX || exec.pins(u) >= holders(slots, u));
        match slots[i] {
            None => {},
            Some(a) => {
                lemma_holder_counts(slots, i, a);
                lemma_pins_after(exec, a, u);
            },
        }
    }
}

/// No request but `unpin` lowers a pin count, so every other request keeps
/// the count of held handles.
pub proof fn lemma_step_keeps_count<P>(
    exec: ExecutorView<P>,
    slots: Seq<Option<TaskPtr>>,
    op: Op<P>,
)
    requires
        exec.inv(),
        counted(exec, slots),
        !(op is Unpin),
    ensures
        counted(exec.step(op), slots),
{
    let after = exec.step(op);
    assert forall|u: TaskPtr| after.holds(u) implies after.pins(u) >= usize::MAX
        || #[trigger] after.pins(u) >= holders(slots, u) by {
        lemma_step_keeps_pins(exec, op, u);
        assert(exec.pins(u) >= usize::MAX || exec.pins(u) >= holders(slots, u));
    }
}

/// No request but `unpin` lowers the pin count of any task, and no request
/// changes the size of the pool.
pub proof fn lemma_step_keeps_pins<P>(exec: ExecutorView<P>, op: Op<P>, u: TaskPtr)
    requires
        exec.inv(),
        !(op is Unpin),
    ensures
        exec.step(op).holds(u) == exec.holds(u),
        exec.step(op).pins(u) >= exec.pins(u),
{
    match op {
        Op::Spawn(poll_fn) => {
            match exec.first_reusable() {
                Some(r) => {
                    assert(exec.is_first_reusable(r));
                    let mid = exec.install(r, poll_fn);
                    assert(exec.reusable(r));
                    assert(mid.tasks.len() == exec.tasks.len());
                    if u != r {
                        assert(u.index != r.index);
                    }
                    assert(mid.holds(u) == exec.holds(u));
                    assert(mid.pins(u) == exec.pins(u));
                    lemma_wake_keeps_pins(mid, r, u);
                },
                None => {},
            }
        },
        Op::Wake(t) => {
            lemma_wake_keeps_pins(exec, t, u);
        },
        Op::PopReady => {
            if exec.queue.len() > 0 {
                assert(exec.queue.contains(exec.queue[0]));
                lemma_set_state_keeps_pins(exec, exec.queue[0], TaskState::Running, u);
            }
        },
        Op::CompletePoll(t, outcome) => {
            if exec.holds(t) {
                lemma_set_state_keeps_pins(exec, t, TaskState::Idle, u);
                lemma_set_state_keeps_pins(exec, t, TaskState::Queued, u);
                lemma_set_state_keeps_pins(exec, t, TaskState::Done, u);
            }
        },
        Op::Cancel(t) => {
            if exec.holds(t) {
                lemma_set_state_keeps_pins(exec, t, TaskState::Done, u);
            }
        },
        Op::Pin(t) => {
            lemma_pins_after(exec, t, u);
        },
        Op::Unpin(t) => {},
    }
}

/// A change of state moves no pin count.
proof fn lemma_set_state_keeps_pins<P>(
    exec: ExecutorView<P>,
    t: TaskPtr,
    state: TaskState,
    u: TaskPtr,
)
    requires
        exec.holds(t),
    ensures
        exec.set_state(t, state).holds(u) == exec.holds(u),
        exec.set_state(t, state).pins(u) == exec.pins(u),
        exec.set_state(t, state).unlink(t).holds(u) == exec.holds(u),
        exec.set_state(t, state).unlink(t).pins(u) == exec.pins(u),
{
}

/// Pool safety for wake slots: as long as the executor counts the handles
/// that the slots hold, `spawn` never hands out the slot of a task that some
/// wake slot still holds, and it leaves that slot as it is.
pub proof fn lemma_held_task_is_not_reused<P>(
    exec: ExecutorView<P>,
    slots: Seq<Option<TaskPtr>>,
    i: int,
    t: TaskPtr,
    poll_fn: P,
)
    requires
        counted(exec, slots),
        0 <= i < slots.len(),
        slots[i] == Some(t),
        exec.holds(t),
    ensures
        exec.pins(t) > 0,
        !exec.reusable(t),
        exec.spawn_result() != Ok::<TaskPtr, crate::task::SpawnError>(t),
        exec.spawn(poll_fn).tasks[t.index as int] == exec.tasks[t.index as int],
{
    lemma_holder_counts(slots, i, t);
    assert(exec.pins(t) >= usize::MAX || exec.pins(t) >= holders(slots, t));
    lemma_pool_safety(exec, t, poll_fn);
}

/// How `pin` and `unpin` of `t` move the pin count of `u`.
proof fn lemma_pins_after<P>(exec: ExecutorView<P>, t: TaskPtr, u: TaskPtr)
    ensures
        exec.pin(t).holds(u) == exec.holds(u),
        exec.unpin(t).holds(u) == exec.holds(u),
        u != t ==> exec.pin(t).pins(u) == exec.pins(u) && exec.unpin(t).pins(u) == exec.pins(u),
        exec.holds(t) && exec.pins(t) < usize::MAX ==> exec.pin(t).pins(t) == exec.pins(t) + 1,
        exec.pins(t) >= usize::MAX ==> exec.pin(t).pins(t) == exec.pins(t) && exec.unpin(t).pins(
            t,
        ) == exec.pins(t),
        0 < exec.pins(t) < usize::MAX ==> exec.unpin(t).pins(t) == exec.pins(t) - 1,
        exec.pins(t) == 0 ==> exec.unpin(t).pins(t) == 0,
{
    if u != t {
        assert(u.index != t.index);
    }
}

/// A wake moves no pin count.
proof fn lemma_wake_keeps_pins<P>(exec: ExecutorView<P>, t: TaskPtr, u: TaskPtr)
    ensures
        exec.wake(t).holds(u) == exec.holds(u),
        exec.wake(t).pins(u) == exec.pins(u),
{
}

} // verus!
