//! A small asynchronous runtime: executors that poll tasks, handles through which tasks
//! hand out their results, and timers that wake tasks at a deadline.
//!
//! The library decides; the caller acts. Polling a future, blocking, giving the processor
//! away and reading the clock are the caller's, who reports back what came of it.

pub mod busy;
pub mod busy_laws;
pub mod count;
pub mod joining;
pub mod joining_laws;
pub mod poll;
pub mod schedule;
pub mod slot;
pub mod timer;
pub mod timer_laws;
pub mod turn;
pub mod waking;
pub mod waking_laws;

pub use count::{count, CountFuture};
pub use poll::{Context, Poll};
pub use slot::JoinHandle;
pub use turn::{Next, Polled, Step};
