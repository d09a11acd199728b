use coop_executor::atomic_waker::AtomicWaker;
use coop_executor::executor::Executor;
use coop_executor::task::{PollOutcome, SpawnError, TaskPtr, TaskState};
use coop_executor::waker::{handle_from, task_from, task_of_word, task_word, WakeupHandle};
use coop_executor::waker_registration::WakerRegistration;

fn idle_task(exec: &mut Executor<u32>, entry: u32) -> TaskPtr {
    let t = exec.spawn(entry).unwrap();
    assert_eq!(exec.pop_ready(), Some(t));
    exec.complete_poll(t, PollOutcome::Pending);
    assert_eq!(exec.state(t), TaskState::Idle);
    t
}

#[test]
fn handle_round_trip() {
    let t = TaskPtr { index: 4 };
    let h = handle_from(t);
    assert_eq!(task_from(&h), t);
    assert_eq!(handle_from(task_from(&h)), h);
    let copy: WakeupHandle = h.clone();
    assert_eq!(task_from(&copy), t);
}

#[test]
fn word_codec_values() {
    assert_eq!(task_word(TaskPtr { index: 0 }), 1);
    assert_eq!(task_word(TaskPtr { index: 41 }), 42);
    assert_eq!(task_word(TaskPtr { index: u16::MAX }), 65536);
    assert_eq!(task_of_word(0), None);
    assert_eq!(task_of_word(1), Some(TaskPtr { index: 0 }));
    assert_eq!(task_of_word(42), Some(TaskPtr { index: 41 }));
    assert_eq!(task_of_word(65536), Some(TaskPtr { index: u16::MAX }));
    assert_eq!(task_of_word(65537), None);
    assert_eq!(task_of_word(usize::MAX), None);
}

#[test]
fn handle_wake_and_wake_by_ref_schedule_the_task() {
    let mut exec: Executor<u32> = Executor::new(2);
    let a = idle_task(&mut exec, 1);
    let b = idle_task(&mut exec, 2);
    let ha = handle_from(a);
    let hb = handle_from(b);
    hb.wake_by_ref(&mut exec);
    hb.wake_by_ref(&mut exec);
    ha.wake(&mut exec);
    assert_eq!(exec.pop_ready(), Some(b));
    assert_eq!(exec.pop_ready(), Some(a));
    assert_eq!(exec.pop_ready(), None);
}

#[test]
fn registration_starts_empty() {
    let mut exec: Executor<u32> = Executor::new(1);
    let mut slot = WakerRegistration::new();
    assert!(!slot.occupied());
    slot.wake(&mut exec);
    assert!(!slot.occupied());
    assert_eq!(exec.pop_ready(), None);
}

#[test]
fn registration_wake_takes_the_task() {
    let mut exec: Executor<u32> = Executor::new(1);
    let a = idle_task(&mut exec, 1);
    let mut slot = WakerRegistration::new();
    slot.register(&mut exec, &handle_from(a));
    assert!(slot.occupied());
    assert_eq!(exec.pins(a), 1);
    assert_eq!(exec.state(a), TaskState::Idle);
    slot.wake(&mut exec);
    assert!(!slot.occupied());
    assert_eq!(exec.pins(a), 0);
    assert_eq!(exec.state(a), TaskState::Queued);
    assert_eq!(exec.pop_ready(), Some(a));
    exec.complete_poll(a, PollOutcome::Pending);
    slot.wake(&mut exec);
    assert_eq!(exec.state(a), TaskState::Idle);
    assert_eq!(exec.pop_ready(), None);
}

#[test]
fn registration_evicts_and_wakes_the_other_task() {
    let mut exec: Executor<u32> = Executor::new(2);
    let a = idle_task(&mut exec, 1);
    let b = idle_task(&mut exec, 2);
    let mut slot = WakerRegistration::new();
    slot.register(&mut exec, &handle_from(a));
    slot.register(&mut exec, &handle_from(b));
    assert!(slot.occupied());
    assert_eq!(exec.state(a), TaskState::Queued);
    assert_eq!(exec.state(b), TaskState::Idle);
    assert_eq!(exec.pins(a), 0);
    assert_eq!(exec.pins(b), 1);
    assert_eq!(exec.pop_ready(), Some(a));
    assert_eq!(exec.pop_ready(), None);
    slot.wake(&mut exec);
    assert_eq!(exec.pop_ready(), Some(b));
}

#[test]
fn registration_of_same_task_wakes_nobody() {
    let mut exec: Executor<u32> = Executor::new(1);
    let a = idle_task(&mut exec, 1);
    let mut slot = WakerRegistration::new();
    slot.register(&mut exec, &handle_from(a));
    slot.register(&mut exec, &handle_from(a));
    slot.register(&mut exec, &handle_from(a));
    assert_eq!(exec.state(a), TaskState::Idle);
    assert_eq!(exec.pins(a), 1);
    assert_eq!(exec.pop_ready(), None);
}

#[test]
fn atomic_slot_starts_empty() {
    let mut exec: Executor<u32> = Executor::new(1);
    let a = idle_task(&mut exec, 1);
    let slot = AtomicWaker::new();
    slot.wake(&mut exec);
    assert_eq!(exec.state(a), TaskState::Idle);
    assert_eq!(exec.pop_ready(), None);
}

#[test]
fn atomic_slot_overwrite_wakes_only_the_last() {
    let mut exec: Executor<u32> = Executor::new(2);
    let a = idle_task(&mut exec, 1);
    let b = idle_task(&mut exec, 2);
    let mut slot = AtomicWaker::new();
    slot.register(&mut exec, &handle_from(a));
    assert_eq!(exec.pins(a), 1);
    slot.register(&mut exec, &handle_from(b));
    assert_eq!(exec.state(a), TaskState::Idle);
    assert_eq!(exec.state(b), TaskState::Idle);
    assert_eq!(exec.pins(a), 0);
    assert_eq!(exec.pins(b), 1);
    assert_eq!(exec.pop_ready(), None);
    slot.wake(&mut exec);
    assert_eq!(exec.state(a), TaskState::Idle);
    assert_eq!(exec.state(b), TaskState::Queued);
    assert_eq!(exec.pop_ready(), Some(b));
    assert_eq!(exec.pop_ready(), None);
}

#[test]
fn atomic_slot_keeps_its_task_after_wake() {
    let mut exec: Executor<u32> = Executor::new(2);
    let a = idle_task(&mut exec, 1);
    let b = idle_task(&mut exec, 2);
    let mut slot = AtomicWaker::new();
    slot.register(&mut exec, &handle_from(b));
    slot.wake(&mut exec);
    slot.wake(&mut exec);
    slot.wake(&mut exec);
    assert_eq!(exec.pins(b), 1);
    assert_eq!(exec.pop_ready(), Some(b));
    assert_eq!(exec.pop_ready(), None);
    exec.complete_poll(b, PollOutcome::Pending);
    slot.wake(&mut exec);
    assert_eq!(exec.pop_ready(), Some(b));
    assert_eq!(exec.state(a), TaskState::Idle);
}

#[test]
fn atomic_slot_holds_the_highest_pointer() {
    let mut exec: Executor<u32> = Executor::new(1);
    let mut slot = AtomicWaker::new();
    slot.register(&mut exec, &handle_from(TaskPtr { index: u16::MAX }));
    slot.wake(&mut exec);
    assert_eq!(exec.pop_ready(), None);
    let a = idle_task(&mut exec, 1);
    slot.register(&mut exec, &handle_from(a));
    slot.wake(&mut exec);
    assert_eq!(exec.pop_ready(), Some(a));
}

#[test]
fn pool_safety_with_single_owner_slot() {
    let mut exec: Executor<u32> = Executor::new(1);
    let t = exec.spawn(1).unwrap();
    let mut slot = WakerRegistration::new();
    assert_eq!(exec.pop_ready(), Some(t));
    slot.register(&mut exec, &handle_from(t));
    exec.complete_poll(t, PollOutcome::Complete);
    assert_eq!(exec.state(t), TaskState::Done);
    assert_eq!(exec.spawn(2), Err(SpawnError::PoolExhausted));
    assert_eq!(exec.state(t), TaskState::Done);
    slot.wake(&mut exec);
    assert_eq!(exec.pop_ready(), None);
    assert_eq!(exec.spawn(2), Ok(t));
    assert_eq!(exec.state(t), TaskState::Queued);
}

#[test]
fn pool_safety_with_atomic_slot() {
    let mut exec: Executor<u32> = Executor::new(2);
    let t = exec.spawn(1).unwrap();
    let mut slot = AtomicWaker::new();
    assert_eq!(exec.pop_ready(), Some(t));
    slot.register(&mut exec, &handle_from(t));
    exec.complete_poll(t, PollOutcome::Complete);
    let other = exec.spawn(2).unwrap();
    assert_eq!(other, TaskPtr { index: 1 });
    assert_eq!(exec.spawn(3), Err(SpawnError::PoolExhausted));
    slot.register(&mut exec, &handle_from(other));
    assert_eq!(exec.spawn(3), Ok(t));
}

#[test]
fn released_single_owner_slot_frees_the_pool_slot() {
    let mut exec: Executor<u32> = Executor::new(1);
    let t = exec.spawn(1).unwrap();
    let mut slot = WakerRegistration::new();
    assert_eq!(exec.pop_ready(), Some(t));
    slot.register(&mut exec, &handle_from(t));
    exec.complete_poll(t, PollOutcome::Complete);
    assert_eq!(exec.spawn(2), Err(SpawnError::PoolExhausted));
    slot.release(&mut exec);
    assert_eq!(exec.pins(t), 0);
    assert_eq!(exec.state(t), TaskState::Done);
    assert_eq!(exec.pop_ready(), None);
    assert_eq!(exec.spawn(2), Ok(t));
}

#[test]
fn released_atomic_slot_frees_the_pool_slot() {
    let mut exec: Executor<u32> = Executor::new(1);
    let t = exec.spawn(1).unwrap();
    let mut slot = AtomicWaker::new();
    assert_eq!(exec.pop_ready(), Some(t));
    slot.register(&mut exec, &handle_from(t));
    exec.complete_poll(t, PollOutcome::Pending);
    exec.cancel(t);
    assert_eq!(exec.spawn(2), Err(SpawnError::PoolExhausted));
    slot.wake(&mut exec);
    assert_eq!(exec.pop_ready(), None);
    slot.release(&mut exec);
    assert_eq!(exec.pins(t), 0);
    assert_eq!(exec.spawn(2), Ok(t));
}

#[test]
fn released_empty_slots_change_nothing() {
    let mut exec: Executor<u32> = Executor::new(1);
    let t = idle_task(&mut exec, 1);
    exec.pin(t);
    WakerRegistration::new().release(&mut exec);
    AtomicWaker::new().release(&mut exec);
    assert_eq!(exec.pins(t), 1);
    assert_eq!(exec.state(t), TaskState::Idle);
}
