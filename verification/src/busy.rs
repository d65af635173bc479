//! An executor that polls whatever is in its queue, again and again, until all is done.

use crate::turn::{Next, Polled, Step};
use std::collections::VecDeque;
use vstd::prelude::*;

verus! {

/// Polls tasks in turn: what is not done goes to the end of the queue.
#[verifier::reject_recursive_types(F)]
pub struct SimpleExecutor<F> {
    queue: VecDeque<F>,
}

impl<F> View for SimpleExecutor<F> {
    type V = Seq<F>;

    closed spec fn view(&self) -> Seq<F> {
        self.queue@
    }
}

/// The queue once the outcome of a poll is known: a task that is not done is back in it.
pub open spec fn returned<F>(queue: Seq<F>, polled: Option<Polled<F>>) -> Seq<F> {
    match polled {
        Some(Polled::Pending(task)) => queue.push(task),
        _ => queue,
    }
}

/// The queue after a turn.
pub open spec fn queue_after<F>(queue: Seq<F>, polled: Option<Polled<F>>) -> Seq<F> {
    let all = returned(queue, polled);
    if all.len() == 0 {
        all
    } else {
        all.drop_first()
    }
}

/// What a turn decides.
pub open spec fn step<F>(queue: Seq<F>, polled: Option<Polled<F>>) -> Step<F> {
    let all = returned(queue, polled);
    if all.len() == 0 {
        Step { yields: false, next: Next::Finish }
    } else {
        Step { yields: polled is Some, next: Next::Poll(all[0]) }
    }
}

impl<F> SimpleExecutor<F> {
    /// An executor without tasks.
    pub fn new() -> (ex: Self)
        ensures
            ex@ == Seq::<F>::empty(),
    {
        SimpleExecutor { queue: VecDeque::new() }
    }

    /// Puts a task at the end of the queue.
    pub fn spawn(&mut self, fut: F)
        ensures
            final(self)@ == old(self)@.push(fut),
    {
        self.queue.push_back(fut);
    }

    /// One turn of the loop that runs until the queue is empty. The first turn is taken
    /// with `None`; each later one with what the poll of the task that the turn before gave
    /// out came to.
    pub fn run(&mut self, polled: Option<Polled<F>>) -> (r: Step<F>)
        ensures
            r == step(old(self)@, polled),
            final(self)@ == queue_after(old(self)@, polled),
    {
        let mut yields: bool = false;
        if let Some(outcome) = polled {
            match outcome {
                Polled::Ready => {},
                Polled::Pending(task) => {
                    self.queue.push_back(task);
                },
            }
            yields = true;
        }
        match self.queue.pop_front() {
            Some(task) => Step { yields, next: Next::Poll(task) },
            None => Step { yields: false, next: Next::Finish },
        }
    }
}

} // verus!
