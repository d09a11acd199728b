use coop_executor::executor::Executor;
use coop_executor::task::{PollOutcome, SpawnError, TaskPtr, TaskState};

#[test]
fn new_pool_is_free_and_idle() {
    let mut exec: Executor<u32> = Executor::new(3);
    assert_eq!(exec.capacity(), 3);
    for index in 0..3u16 {
        let t = TaskPtr { index };
        assert_eq!(exec.state(t), TaskState::Free);
        assert_eq!(exec.pins(t), 0);
        assert!(exec.poll_fn(t).is_none());
    }
    assert_eq!(exec.pop_ready(), None);
}

#[test]
fn spawn_queues_the_task_in_the_lowest_slot() {
    let mut exec: Executor<u32> = Executor::new(2);
    let a = exec.spawn(10).unwrap();
    assert_eq!(a, TaskPtr { index: 0 });
    assert_eq!(exec.state(a), TaskState::Queued);
    let b = exec.spawn(20).unwrap();
    assert_eq!(b, TaskPtr { index: 1 });
    assert_eq!(exec.state(b), TaskState::Queued);
}

#[test]
fn spawn_on_full_pool_is_exhausted() {
    let mut exec: Executor<u32> = Executor::new(1);
    let a = exec.spawn(1).unwrap();
    assert_eq!(exec.spawn(2), Err(SpawnError::PoolExhausted));
    assert_eq!(exec.state(a), TaskState::Queued);
    assert_eq!(exec.pop_ready(), Some(a));
    assert_eq!(exec.pop_ready(), None);
}

#[test]
fn spawn_on_empty_pool_is_exhausted() {
    let mut exec: Executor<u32> = Executor::new(0);
    assert_eq!(exec.capacity(), 0);
    assert_eq!(exec.spawn(1), Err(SpawnError::PoolExhausted));
    assert_eq!(exec.pop_ready(), None);
}

#[test]
fn pop_ready_hands_out_in_arrival_order() {
    let mut exec: Executor<u32> = Executor::new(3);
    let a = exec.spawn(1).unwrap();
    let b = exec.spawn(2).unwrap();
    let c = exec.spawn(3).unwrap();
    assert_eq!(exec.pop_ready(), Some(a));
    assert_eq!(exec.state(a), TaskState::Running);
    assert_eq!(exec.pop_ready(), Some(b));
    assert_eq!(exec.pop_ready(), Some(c));
    assert_eq!(exec.pop_ready(), None);
}

#[test]
fn poll_fn_is_handed_out_only_while_polling() {
    let mut exec: Executor<u32> = Executor::new(1);
    let a = exec.spawn(77).unwrap();
    assert!(exec.poll_fn(a).is_none());
    assert_eq!(exec.pop_ready(), Some(a));
    assert_eq!(exec.poll_fn(a), Some(&77));
    exec.wake(a);
    assert_eq!(exec.state(a), TaskState::RunningQueued);
    assert_eq!(exec.poll_fn(a), Some(&77));
    exec.complete_poll(a, PollOutcome::Pending);
    assert!(exec.poll_fn(a).is_none());
    assert_eq!(exec.pop_ready(), Some(a));
    exec.complete_poll(a, PollOutcome::Complete);
    assert!(exec.poll_fn(a).is_none());
}

#[test]
fn pending_poll_returns_task_to_idle() {
    let mut exec: Executor<u32> = Executor::new(1);
    let a = exec.spawn(1).unwrap();
    assert_eq!(exec.pop_ready(), Some(a));
    exec.complete_poll(a, PollOutcome::Pending);
    assert_eq!(exec.state(a), TaskState::Idle);
    assert_eq!(exec.pop_ready(), None);
}

#[test]
fn complete_poll_finishes_task() {
    let mut exec: Executor<u32> = Executor::new(1);
    let a = exec.spawn(1).unwrap();
    assert_eq!(exec.pop_ready(), Some(a));
    exec.complete_poll(a, PollOutcome::Complete);
    assert_eq!(exec.state(a), TaskState::Done);
    assert_eq!(exec.pop_ready(), None);
}

#[test]
fn wake_during_own_poll_is_not_lost() {
    let mut exec: Executor<u32> = Executor::new(2);
    let a = exec.spawn(1).unwrap();
    assert_eq!(exec.pop_ready(), Some(a));
    exec.wake(a);
    assert_eq!(exec.state(a), TaskState::RunningQueued);
    exec.complete_poll(a, PollOutcome::Pending);
    assert_eq!(exec.state(a), TaskState::Queued);
    assert_eq!(exec.pop_ready(), Some(a));
    assert_eq!(exec.pop_ready(), None);
}

#[test]
fn wake_during_final_poll_leaves_no_entry() {
    let mut exec: Executor<u32> = Executor::new(2);
    let a = exec.spawn(1).unwrap();
    let b = exec.spawn(2).unwrap();
    assert_eq!(exec.pop_ready(), Some(a));
    exec.wake(a);
    exec.complete_poll(a, PollOutcome::Complete);
    assert_eq!(exec.state(a), TaskState::Done);
    assert_eq!(exec.pop_ready(), Some(b));
    assert_eq!(exec.pop_ready(), None);
}

#[test]
fn wake_is_idempotent_while_queued() {
    let mut exec: Executor<u32> = Executor::new(2);
    let a = exec.spawn(1).unwrap();
    let b = exec.spawn(2).unwrap();
    for _ in 0..5 {
        exec.wake(a);
    }
    assert_eq!(exec.state(a), TaskState::Queued);
    assert_eq!(exec.pop_ready(), Some(a));
    assert_eq!(exec.pop_ready(), Some(b));
    assert_eq!(exec.pop_ready(), None);
}

#[test]
fn wake_of_idle_task_queues_it_once() {
    let mut exec: Executor<u32> = Executor::new(1);
    let a = exec.spawn(1).unwrap();
    assert_eq!(exec.pop_ready(), Some(a));
    exec.complete_poll(a, PollOutcome::Pending);
    exec.wake(a);
    exec.wake(a);
    assert_eq!(exec.state(a), TaskState::Queued);
    assert_eq!(exec.pop_ready(), Some(a));
    assert_eq!(exec.pop_ready(), None);
}

#[test]
fn wake_of_unknown_task_changes_nothing() {
    let mut exec: Executor<u32> = Executor::new(2);
    exec.wake(TaskPtr { index: 1 });
    exec.wake(TaskPtr { index: 9 });
    exec.wake(TaskPtr { index: u16::MAX });
    assert_eq!(exec.state(TaskPtr { index: 1 }), TaskState::Free);
    assert_eq!(exec.state(TaskPtr { index: 9 }), TaskState::Free);
    assert_eq!(exec.pop_ready(), None);
}

#[test]
fn report_for_task_not_polling_is_ignored() {
    let mut exec: Executor<u32> = Executor::new(2);
    let a = exec.spawn(1).unwrap();
    exec.complete_poll(a, PollOutcome::Complete);
    assert_eq!(exec.state(a), TaskState::Queued);
    exec.complete_poll(TaskPtr { index: 1 }, PollOutcome::Pending);
    assert_eq!(exec.state(TaskPtr { index: 1 }), TaskState::Free);
    exec.complete_poll(TaskPtr { index: 40 }, PollOutcome::Complete);
    assert_eq!(exec.pop_ready(), Some(a));
}

#[test]
fn cancel_withdraws_a_queued_task() {
    let mut exec: Executor<u32> = Executor::new(3);
    let a = exec.spawn(1).unwrap();
    let b = exec.spawn(2).unwrap();
    let c = exec.spawn(3).unwrap();
    exec.cancel(b);
    assert_eq!(exec.state(b), TaskState::Done);
    assert_eq!(exec.pop_ready(), Some(a));
    assert_eq!(exec.pop_ready(), Some(c));
    assert_eq!(exec.pop_ready(), None);
}

#[test]
fn cancel_of_queue_ends_keeps_the_rest_linked() {
    let mut exec: Executor<u32> = Executor::new(4);
    let a = exec.spawn(1).unwrap();
    let b = exec.spawn(2).unwrap();
    let c = exec.spawn(3).unwrap();
    exec.cancel(a);
    exec.cancel(c);
    let d = exec.spawn(4).unwrap();
    assert_eq!(d, a);
    assert_eq!(exec.pop_ready(), Some(b));
    assert_eq!(exec.pop_ready(), Some(d));
    assert_eq!(exec.pop_ready(), None);
}

#[test]
fn waking_a_cancelled_task_is_a_no_op() {
    let mut exec: Executor<u32> = Executor::new(1);
    let a = exec.spawn(1).unwrap();
    assert_eq!(exec.pop_ready(), Some(a));
    exec.complete_poll(a, PollOutcome::Pending);
    exec.cancel(a);
    assert_eq!(exec.state(a), TaskState::Done);
    exec.wake(a);
    assert_eq!(exec.state(a), TaskState::Done);
    assert_eq!(exec.pop_ready(), None);
}

#[test]
fn cancel_leaves_a_running_task_alone() {
    let mut exec: Executor<u32> = Executor::new(1);
    let a = exec.spawn(1).unwrap();
    assert_eq!(exec.pop_ready(), Some(a));
    exec.cancel(a);
    assert_eq!(exec.state(a), TaskState::Running);
    exec.cancel(TaskPtr { index: 5 });
    assert_eq!(exec.state(TaskPtr { index: 5 }), TaskState::Free);
}

#[test]
fn finished_slot_is_reused_by_spawn() {
    let mut exec: Executor<u32> = Executor::new(2);
    let a = exec.spawn(1).unwrap();
    let b = exec.spawn(2).unwrap();
    assert_eq!(exec.pop_ready(), Some(a));
    exec.complete_poll(a, PollOutcome::Complete);
    let c = exec.spawn(3).unwrap();
    assert_eq!(c, a);
    assert_eq!(exec.state(c), TaskState::Queued);
    assert_eq!(exec.pop_ready(), Some(b));
    assert_eq!(exec.pop_ready(), Some(c));
    assert_eq!(exec.poll_fn(c), Some(&3));
}

#[test]
fn pins_count_up_and_down() {
    let mut exec: Executor<u32> = Executor::new(1);
    let a = exec.spawn(1).unwrap();
    exec.pin(a);
    exec.pin(a);
    assert_eq!(exec.pins(a), 2);
    exec.unpin(a);
    assert_eq!(exec.pins(a), 1);
    exec.unpin(a);
    exec.unpin(a);
    assert_eq!(exec.pins(a), 0);
    exec.pin(TaskPtr { index: 3 });
    assert_eq!(exec.pins(TaskPtr { index: 3 }), 0);
}

#[test]
fn pinned_free_slot_is_skipped_by_spawn() {
    let mut exec: Executor<u32> = Executor::new(2);
    exec.pin(TaskPtr { index: 0 });
    let a = exec.spawn(1).unwrap();
    assert_eq!(a, TaskPtr { index: 1 });
    assert_eq!(exec.spawn(2), Err(SpawnError::PoolExhausted));
    exec.unpin(TaskPtr { index: 0 });
    assert_eq!(exec.spawn(2), Ok(TaskPtr { index: 0 }));
}
