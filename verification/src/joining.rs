//! An executor whose tasks hand their results out through a [`JoinHandle`]. It knows how
//! many tasks are unfinished, and puts a task that is not done back itself.

use crate::slot::{JoinHandle, Shared};
use crate::turn::{Next, Polled, Step};
use std::collections::VecDeque;
use vstd::prelude::*;

verus! {

/// The content of an executor.
#[verifier::ext_equal]
pub ghost struct Tasks<F> {
    /// The tasks to be polled, the next one first.
    pub queue: Seq<F>,
    /// How many tasks are not done.
    pub remaining: nat,
    /// How many tasks have been given out to be polled and not been reported on.
    pub out: nat,
}

impl<F> Tasks<F> {
    /// Every task that is not done is in the queue or has been given out.
    pub open spec fn wf(self) -> bool {
        self.remaining == self.queue.len() + self.out
    }

    /// After a task has been spawned.
    pub open spec fn spawned(self, task: F) -> Self {
        Tasks { queue: self.queue.push(task), remaining: self.remaining + 1, out: self.out }
    }

    /// Once the outcome of a poll is known: a task that is done is no longer counted, one
    /// that is not is back in the queue.
    pub open spec fn reported(self, polled: Option<Polled<F>>) -> Self {
        match polled {
            None => self,
            Some(Polled::Ready) => Tasks {
                queue: self.queue,
                remaining: (self.remaining - 1) as nat,
                out: (self.out - 1) as nat,
            },
            Some(Polled::Pending(task)) => Tasks {
                queue: self.queue.push(task),
                remaining: self.remaining,
                out: (self.out - 1) as nat,
            },
        }
    }

    /// What comes next: the end when no task is left, else the first task of the queue.
    pub open spec fn next(self) -> Next<F> {
        if self.remaining == 0 {
            Next::Finish
        } else if self.queue.len() == 0 {
            Next::Wait
        } else {
            Next::Poll(self.queue[0])
        }
    }

    /// After what comes next has been given out.
    pub open spec fn advanced(self) -> Self {
        if self.next() is Poll {
            Tasks {
                queue: self.queue.drop_first(),
                remaining: self.remaining,
                out: self.out + 1,
            }
        } else {
            self
        }
    }
}

/// Runs tasks in turn until none is left.
#[verifier::reject_recursive_types(F)]
pub struct SimpleExecutor<F> {
    queue: VecDeque<F>,
    remaining: usize,
    out: Ghost<nat>,
}

impl<F> View for SimpleExecutor<F> {
    type V = Tasks<F>;

    closed spec fn view(&self) -> Tasks<F> {
        Tasks { queue: self.queue@, remaining: self.remaining as nat, out: self.out@ }
    }
}

impl<F> SimpleExecutor<F> {
    /// An executor without tasks.
    pub fn new() -> (ex: Self)
        ensures
            ex@ == (Tasks::<F> { queue: Seq::empty(), remaining: 0, out: 0 }),
            ex@.wf(),
    {
        SimpleExecutor { queue: VecDeque::new(), remaining: 0, out: Ghost(0) }
    }

    /// Puts a task at the end of the queue and returns the handle through which the
    /// result of its work is fetched.
    pub fn spawn<T, W>(&mut self, task: F) -> (handle: JoinHandle<T, W>)
        requires
            old(self)@.wf(),
            old(self)@.remaining < usize::MAX,
        ensures
            final(self)@ == old(self)@.spawned(task),
            final(self)@.wf(),
            handle@ == Shared::<T, W>::empty(),
    {
        self.queue.push_back(task);
        self.remaining = self.remaining + 1;
        JoinHandle::new()
    }

    /// How many tasks are not done.
    pub fn remaining(&self) -> (n: usize)
        ensures
            n == self@.remaining,
    {
        self.remaining
    }

    /// One turn of the loop that runs until no task is left. The first turn, and one after
    /// a wait, is taken with `None`; each other with what the poll of a task that has been
    /// given out came to.
    pub fn run(&mut self, polled: Option<Polled<F>>) -> (r: Step<F>)
        requires
            old(self)@.wf(),
            polled is Some ==> old(self)@.out > 0,
        ensures
            r.yields == (polled is Some),
            r.next == old(self)@.reported(polled).next(),
            final(self)@ == old(self)@.reported(polled).advanced(),
            final(self)@.wf(),
    {
        let mut yields: bool = false;
        if let Some(outcome) = polled {
            match outcome {
                Polled::Ready => {
                    self.remaining = self.remaining - 1;
                },
                Polled::Pending(task) => {
                    self.queue.push_back(task);
                },
            }
            self.out = Ghost((self.out@ - 1) as nat);
            yields = true;
        }
        if self.remaining == 0 {
            return Step { yields, next: Next::Finish };
        }
        match self.queue.pop_front() {
            Some(task) => {
                self.out = Ghost(self.out@ + 1);
                Step { yields, next: Next::Poll(task) }
            },
            None => Step { yields, next: Next::Wait },
        }
    }
}

} // verus!
