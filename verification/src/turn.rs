use vstd::prelude::*;

verus! {

/// What the poll of a task came to, for an executor that has to put a task back itself.
#[derive(Debug, PartialEq, Eq)]
pub enum Polled<F> {
    /// The task is done.
    Ready,
    /// The task is not done, and here it is again.
    Pending(F),
}

/// What a running executor does next.
#[derive(Debug, PartialEq, Eq)]
pub enum Next<F> {
    /// Poll the task.
    Poll(F),
    /// No task is in the queue: wait until one is.
    Wait,
    /// Nothing is left to run.
    Finish,
}

/// One turn of an executor that may have to let other threads run before it goes on.
#[derive(Debug, PartialEq, Eq)]
pub struct Step<F> {
    /// Whether to give the processor away first.
    pub yields: bool,
    pub next: Next<F>,
}

} // verus!
