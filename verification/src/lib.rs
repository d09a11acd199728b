//! A cooperative task executor core for small targets: a fixed pool of task
//! control blocks, an intrusive run queue, wakeup handles, and the two wake
//! slots through which timers, interrupt handlers and other tasks ask for a
//! task to be polled again.

pub mod atomic_waker;
pub mod executor;
pub mod laws;
pub mod model;
pub mod shared_bus;
pub mod task;
pub mod waker;
pub mod waker_registration;
