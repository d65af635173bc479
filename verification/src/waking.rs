//! An executor that polls a task only when it has been woken: whoever holds the waker of a
//! task decides when the task goes back into the queue. A task that is done is not polled
//! again, however late it is woken.

use crate::poll::Poll;
use crate::slot::{JoinHandle, Shared};
use crate::turn::Next;
use std::collections::VecDeque;
use vstd::prelude::*;

verus! {

/// How many of the tasks are not done.
pub open spec fn unfinished(done: Seq<bool>) -> nat
    decreases done.len(),
{
    if done.len() == 0 {
        0
    } else {
        unfinished(done.drop_last()) + (if done.last() { 0nat } else { 1nat })
    }
}

/// The content of an executor. A task is known by a number, counted from zero in the order
/// of spawning.
#[verifier::ext_equal]
pub ghost struct Tasks {
    /// The tasks that have been woken, the next one to be polled first. A task that has
    /// been woken twice stands here twice.
    pub queue: Seq<usize>,
    /// For each task that was ever spawned, whether it is done.
    pub done: Seq<bool>,
}

impl Tasks {
    /// No task was ever spawned.
    pub open spec fn empty() -> Self {
        Tasks { queue: Seq::empty(), done: Seq::empty() }
    }

    /// Only tasks that have been spawned are in the queue.
    pub open spec fn wf(self) -> bool {
        forall|i: int| 0 <= i < self.queue.len() ==> #[trigger] self.queue[i] < self.done.len()
    }

    /// Whether a task has been spawned and is not done.
    pub open spec fn live(self, id: usize) -> bool {
        id < self.done.len() && !self.done[id as int]
    }

    /// How many tasks are not done.
    pub open spec fn remaining(self) -> nat {
        unfinished(self.done)
    }

    /// After a task has been spawned: it is polled without having been woken.
    pub open spec fn spawned(self) -> Self {
        Tasks { queue: self.queue.push(self.done.len() as usize), done: self.done.push(false) }
    }

    /// After a task has been woken.
    pub open spec fn woken(self, id: usize) -> Self {
        Tasks { queue: self.queue.push(id), done: self.done }
    }

    /// Whether an outcome can be reported: a task completes only if it is not done.
    pub open spec fn admits(self, polled: Option<(usize, Poll<()>)>) -> bool {
        polled matches Some((id, Poll::Ready(_))) ==> self.live(id)
    }

    /// Once the outcome of a poll is known: one that completes a task is remembered, and a
    /// task that is not done stays out of the queue until it is woken.
    pub open spec fn reported(self, polled: Option<(usize, Poll<()>)>) -> Self {
        match polled {
            Some((id, Poll::Ready(_))) => Tasks {
                queue: self.queue,
                done: self.done.update(id as int, true),
            },
            _ => self,
        }
    }

    /// The queue from its first task that is not done on.
    pub open spec fn waiting(self) -> Seq<usize>
        decreases self.queue.len(),
    {
        if self.queue.len() == 0 || self.live(self.queue[0]) {
            self.queue
        } else {
            Tasks { queue: self.queue.drop_first(), done: self.done }.waiting()
        }
    }

    /// What comes next: the end when every task is done, else the first task of the queue
    /// that is not, for which the executor waits if need be.
    pub open spec fn next(self) -> Next<usize> {
        if self.remaining() == 0 {
            Next::Finish
        } else if self.waiting().len() == 0 {
            Next::Wait
        } else {
            Next::Poll(self.waiting()[0])
        }
    }

    /// After what comes next has been given out. What was passed over is gone.
    pub open spec fn advanced(self) -> Self {
        match self.next() {
            Next::Finish => self,
            Next::Wait => Tasks { queue: self.waiting(), done: self.done },
            Next::Poll(_) => Tasks { queue: self.waiting().drop_first(), done: self.done },
        }
    }
}

/// Runs tasks as they are woken until none is left.
pub struct SimpleExecutor {
    queue: VecDeque<usize>,
    done: Vec<bool>,
    remaining: usize,
}

impl View for SimpleExecutor {
    type V = Tasks;

    closed spec fn view(&self) -> Tasks {
        Tasks { queue: self.queue@, done: self.done@ }
    }
}

impl SimpleExecutor {
    /// Only spawned tasks are queued, and those that are not done have been counted.
    pub closed spec fn wf(&self) -> bool {
        self@.wf() && self.remaining == self@.remaining()
    }

    /// An executor without tasks.
    pub fn new() -> (ex: Self)
        ensures
            ex@ == Tasks::empty(),
            ex.wf(),
    {
        SimpleExecutor { queue: VecDeque::new(), done: Vec::new(), remaining: 0 }
    }

    /// Whether there is a number left for one more task.
    pub fn has_free_id(&self) -> (r: bool)
        ensures
            r == (self@.done.len() < usize::MAX),
    {
        self.done.len() < usize::MAX
    }

    /// Whether a task has been spawned and is not done.
    pub fn is_live(&self, id: usize) -> (r: bool)
        ensures
            r == self@.live(id),
    {
        id < self.done.len() && !self.done[id]
    }

    /// Puts a new task at the end of the queue. Returns the number by which it is known and
    /// the handle through which the result of its work is fetched.
    pub fn spawn<T, W>(&mut self) -> (r: (usize, JoinHandle<T, W>))
        requires
            old(self).wf(),
            old(self)@.done.len() < usize::MAX,
        ensures
            r.0 == old(self)@.done.len(),
            r.1@ == Shared::<T, W>::empty(),
            final(self)@ == old(self)@.spawned(),
            final(self)@.live(r.0),
            final(self)@.remaining() == old(self)@.remaining() + 1,
            final(self).wf(),
    {
        let id: usize = self.done.len();
        proof {
            lemma_unfinished_bound(self.done@);
            assert(self.done@.push(false).drop_last() =~= self.done@);
        }
        self.done.push(false);
        self.queue.push_back(id);
        self.remaining = self.remaining + 1;
        (id, JoinHandle::new())
    }

    /// Wakes a task: it goes to the end of the queue.
    pub fn wake(&mut self, id: usize)
        requires
            old(self).wf(),
            id < old(self)@.done.len(),
        ensures
            final(self)@ == old(self)@.woken(id),
            final(self).wf(),
    {
        self.queue.push_back(id);
        assert forall|i: int| 0 <= i < self@.queue.len() implies #[trigger] self@.queue[i]
            < self@.done.len() by {
            if i < old(self)@.queue.len() {
                assert(self@.queue[i] == old(self)@.queue[i]);
            }
        }
    }

    /// How many tasks are not done.
    pub fn remaining(&self) -> (n: usize)
        requires
            self.wf(),
        ensures
            n == self@.remaining(),
    {
        self.remaining
    }

    /// One turn of the loop that runs until every task is done. The first turn, and one
    /// after a wait, is taken with `None`; each other with the task that the turn before
    /// gave out and what its poll came to. Tasks that are done are passed over.
    pub fn run(&mut self, polled: Option<(usize, Poll<()>)>) -> (r: Next<usize>)
        requires
            old(self).wf(),
            old(self)@.admits(polled),
        ensures
            r == old(self)@.reported(polled).next(),
            final(self)@ == old(self)@.reported(polled).advanced(),
            final(self)@.done.len() == old(self)@.done.len(),
            forall|id: int|
                0 <= id < old(self)@.done.len() ==> (#[trigger] final(self)@.done[id] <==> old(
                    self,
                )@.done[id] || (polled matches Some((task, Poll::Ready(_))) && task == id)),
            r matches Next::Poll(id) ==> final(self)@.live(id),
            final(self).wf(),
    {
        let ghost before = self@.reported(polled);
        if let Some((id, Poll::Ready(_))) = polled {
            proof {
                lemma_unfinished_update(self.done@, id as int);
            }
            self.done.set(id, true);
            self.remaining = self.remaining - 1;
        }
        assert(self@ == before);
        if self.remaining == 0 {
            return Next::Finish;
        }
        loop
            invariant
                old(self)@.admits(polled),
                before == old(self)@.reported(polled),
                self@.done == before.done,
                self@.waiting() == before.waiting(),
                self@.wf(),
                self.remaining == before.remaining(),
                self.remaining > 0,
            decreases self@.queue.len(),
        {
            let ghost queue = self@.queue;
            match self.queue.pop_front() {
                Some(id) => {
                    assert(id == queue[0] && self@.queue =~= queue.drop_first());
                    if !self.done[id] {
                        return Next::Poll(id);
                    }
                },
                None => {
                    assert(self@.queue =~= before.waiting());
                    return Next::Wait;
                },
            }
        }
    }
}

proof fn lemma_unfinished_bound(done: Seq<bool>)
    ensures
        unfinished(done) <= done.len(),
    decreases done.len(),
{
    if done.len() > 0 {
        lemma_unfinished_bound(done.drop_last());
    }
}

pub(crate) proof fn lemma_unfinished_update(done: Seq<bool>, id: int)
    requires
        0 <= id < done.len(),
        !done[id],
    ensures
        unfinished(done) > 0,
        unfinished(done.update(id, true)) == unfinished(done) - 1,
    decreases done.len(),
{
    if id == done.len() - 1 {
        assert(done.update(id, true).drop_last() =~= done.drop_last());
    } else {
        lemma_unfinished_update(done.drop_last(), id);
        assert(done.update(id, true).drop_last() =~= done.drop_last().update(id, true));
    }
}

} // verus!
