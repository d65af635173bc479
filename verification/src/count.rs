use crate::poll::{Context, Poll};
use vstd::prelude::*;

verus! {

/// A task that counts up to `init`, one step each time it is polled.
#[derive(Debug, PartialEq, Eq)]
pub struct CountFuture {
    pub init: u64,
    pub count: u64,
}

/// A count from zero to `init`.
pub fn count(init: u64) -> (future: CountFuture)
    ensures
        future == (CountFuture { init, count: 0 }),
{
    CountFuture { init, count: 0 }
}

impl CountFuture {
    /// What a poll finds: the count, once it has got to `init`.
    pub open spec fn found(self) -> Poll<u64> {
        if self.count >= self.init {
            Poll::Ready(self.count)
        } else {
            Poll::Pending
        }
    }

    /// The future after it has been polled.
    pub open spec fn stepped(self) -> CountFuture {
        if self.count >= self.init {
            self
        } else {
            CountFuture { init: self.init, count: (self.count + 1) as u64 }
        }
    }

    /// Looks whether the count is over. Nothing is advanced and nobody is woken, so a
    /// count that is only looked at stays where it is.
    pub fn peek(&self) -> (r: Poll<u64>)
        ensures
            r == self.found(),
    {
        if self.count >= self.init {
            return Poll::Ready(self.count);
        }
        Poll::Pending
    }

    /// Completes with the count once it has got to `init`. Before, it takes one step and
    /// asks, once, to be scheduled again.
    pub fn poll(&mut self, cx: &mut Context) -> (r: Poll<u64>)
        requires
            old(self).found() is Pending ==> old(cx).wakes() < u64::MAX,
        ensures
            r == old(self).found(),
            *final(self) == old(self).stepped(),
            final(cx).wakes() == old(cx).wakes() + (if r is Pending {
                1int
            } else {
                0int
            }),
    {
        match self.peek() {
            Poll::Ready(count) => Poll::Ready(count),
            Poll::Pending => {
                cx.wake_by_ref();
                self.count = self.count + 1;
                Poll::Pending
            },
        }
    }
}

/// The future after it has been polled so many times.
pub open spec fn after_polls(future: CountFuture, polls: nat) -> CountFuture
    decreases polls,
{
    if polls == 0 {
        future
    } else {
        after_polls(future, (polls - 1) as nat).stepped()
    }
}

/// A count to `n` is pending for `n` polls, then completes with `n`, and whoever polls it
/// still is told the same.
pub proof fn count_takes_its_steps(n: u64, polls: nat)
    ensures
        ({
            let future = after_polls(CountFuture { init: n, count: 0 }, polls);
            &&& polls < n ==> future.found() is Pending
            &&& polls >= n ==> future.found() == Poll::Ready(n)
        }),
{
    lemma_after_polls(n, polls);
}

proof fn lemma_after_polls(n: u64, polls: nat)
    ensures
        after_polls(CountFuture { init: n, count: 0 }, polls) == (CountFuture {
            init: n,
            count: if polls < n {
                polls as u64
            } else {
                n
            },
        }),
    decreases polls,
{
    if polls > 0 {
        lemma_after_polls(n, (polls - 1) as nat);
    }
}

/// A poll tells the count once it has got to `init`, and changes nothing then; before, it
/// tells nothing and the count is one nearer.
pub proof fn a_poll_takes_one_step(future: CountFuture)
    ensures
        future.stepped().init == future.init,
        future.count < future.init ==> future.found() is Pending && future.stepped().count
            == future.count + 1,
        future.count >= future.init ==> future.found() == Poll::Ready(future.count)
            && future.stepped().count == future.count,
{
}

/// Wherever a count starts, it is pending for as many polls as it has steps to go, then
/// completes with the number it has got to, and stays there.
pub proof fn count_goes_on_from_where_it_is(future: CountFuture, polls: nat)
    ensures
        ({
            let later = after_polls(future, polls);
            let end = if future.count >= future.init {
                future.count
            } else {
                future.init
            };
            &&& later.init == future.init
            &&& future.count + polls < end ==> later.found() is Pending && later.count
                == future.count + polls
            &&& future.count + polls >= end ==> later.found() == Poll::Ready(end) && later.count
                == end
        }),
    decreases polls,
{
    if polls > 0 {
        count_goes_on_from_where_it_is(future, (polls - 1) as nat);
    }
}

} // verus!
