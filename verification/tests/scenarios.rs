use coop_executor::atomic_waker::AtomicWaker;
use coop_executor::executor::Executor;
use coop_executor::task::{PollOutcome, TaskPtr, TaskState};
use coop_executor::waker::handle_from;
use coop_executor::waker_registration::WakerRegistration;

struct World {
    exec: Executor<PollFn>,
    signal: AtomicWaker,
    shared: WakerRegistration,
    polls: Vec<TaskPtr>,
    finish: bool,
}

#[derive(Clone, Copy)]
struct PollFn(fn(&mut World, TaskPtr) -> PollOutcome);

fn world(capacity: u16) -> World {
    World {
        exec: Executor::new(capacity),
        signal: AtomicWaker::new(),
        shared: WakerRegistration::new(),
        polls: Vec::new(),
        finish: false,
    }
}

fn poll_next(world: &mut World) -> Option<TaskPtr> {
    let t = world.exec.pop_ready()?;
    let entry = *world.exec.poll_fn(t).unwrap();
    let outcome = (entry.0)(world, t);
    world.exec.complete_poll(t, outcome);
    Some(t)
}

fn wait_on_signal(world: &mut World, me: TaskPtr) -> PollOutcome {
    world.polls.push(me);
    world.signal.register(&mut world.exec, &handle_from(me));
    PollOutcome::Pending
}

fn wait_on_shared(world: &mut World, me: TaskPtr) -> PollOutcome {
    world.polls.push(me);
    world.shared.register(&mut world.exec, &handle_from(me));
    PollOutcome::Pending
}

fn run_once(world: &mut World, me: TaskPtr) -> PollOutcome {
    world.polls.push(me);
    if world.finish {
        PollOutcome::Complete
    } else {
        PollOutcome::Pending
    }
}

#[test]
fn interrupt_wake_through_atomic_slot() {
    let mut w = world(2);
    let a = w.exec.spawn(PollFn(wait_on_signal)).unwrap();
    assert_eq!(poll_next(&mut w), Some(a));
    assert_eq!(w.exec.state(a), TaskState::Idle);
    assert_eq!(w.exec.pop_ready(), None);
    w.signal.wake(&mut w.exec);
    assert_eq!(w.exec.pop_ready(), Some(a));
}

#[test]
fn shared_single_owner_slot_evicts_first_task() {
    let mut w = world(2);
    let a = w.exec.spawn(PollFn(wait_on_shared)).unwrap();
    let b = w.exec.spawn(PollFn(wait_on_shared)).unwrap();
    assert_eq!(poll_next(&mut w), Some(a));
    assert_eq!(w.exec.state(a), TaskState::Idle);
    assert_eq!(poll_next(&mut w), Some(b));
    assert_eq!(w.exec.state(a), TaskState::Queued);
    assert_eq!(w.exec.state(b), TaskState::Idle);
    assert_eq!(w.polls, vec![a, b]);
    assert_eq!(poll_next(&mut w), Some(a));
    assert_eq!(w.polls, vec![a, b, a]);
    assert_eq!(w.exec.state(b), TaskState::Queued);
}

#[test]
fn stale_handle_after_completion_wakes_nothing() {
    let mut w = world(1);
    let a = w.exec.spawn(PollFn(run_once)).unwrap();
    let stale = handle_from(a);
    w.finish = true;
    assert_eq!(poll_next(&mut w), Some(a));
    assert_eq!(w.exec.state(a), TaskState::Done);
    stale.wake_by_ref(&mut w.exec);
    stale.wake(&mut w.exec);
    assert_eq!(w.exec.state(a), TaskState::Done);
    assert_eq!(w.exec.pop_ready(), None);
    assert_eq!(w.polls, vec![a]);
}

#[test]
fn woken_task_is_polled_before_the_queue_runs_empty() {
    let mut w = world(3);
    let a = w.exec.spawn(PollFn(run_once)).unwrap();
    let b = w.exec.spawn(PollFn(run_once)).unwrap();
    while poll_next(&mut w).is_some() {}
    assert_eq!(w.polls, vec![a, b]);
    w.exec.wake(b);
    w.exec.wake(b);
    let c = w.exec.spawn(PollFn(run_once)).unwrap();
    w.exec.wake(a);
    w.polls.clear();
    while poll_next(&mut w).is_some() {}
    assert_eq!(w.polls, vec![b, c, a]);
}
