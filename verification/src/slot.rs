use crate::poll::Poll;
use vstd::prelude::*;

verus! {

/// Where a task leaves its result, and whoever waits for it their waker.
struct Slot<T, W> {
    res: Option<T>,
    waker: Option<W>,
}

/// The way to the result of a spawned task. Task and waiting side share one handle.
pub struct JoinHandle<T, W> {
    slot: Slot<T, W>,
}

/// The content of a handle.
pub ghost struct Shared<T, W> {
    /// The result that has been left and not yet been fetched.
    pub value: Option<T>,
    /// The waker of whoever waits.
    pub waiter: Option<W>,
}

impl<T, W> Shared<T, W> {
    /// Neither result nor waker.
    pub open spec fn empty() -> Self {
        Shared { value: None, waiter: None }
    }

    /// What a poll gives: the result, if it is there.
    pub open spec fn found(self) -> Poll<T> {
        match self.value {
            Some(v) => Poll::Ready(v),
            None => Poll::Pending,
        }
    }

    /// After a poll that leaves its waker in the place of any other.
    pub open spec fn polled(self, waker: W) -> Self {
        Shared { value: None, waiter: Some(waker) }
    }

    /// After a poll that leaves its waker only if there is none.
    pub open spec fn polled_keeping(self, waker: W) -> Self {
        Shared {
            value: None,
            waiter: if self.waiter is Some {
                self.waiter
            } else {
                Some(waker)
            },
        }
    }

    /// After the work has been polled: a value is stored.
    pub open spec fn completed(self, polled: Poll<T>) -> Self {
        match polled {
            Poll::Ready(v) => Shared { value: Some(v), waiter: self.waiter },
            Poll::Pending => self,
        }
    }

    /// Whom to wake once the work has been polled.
    pub open spec fn to_wake(self, polled: Poll<T>) -> Option<W> {
        if polled is Ready {
            self.waiter
        } else {
            None
        }
    }
}

impl<T, W> View for JoinHandle<T, W> {
    type V = Shared<T, W>;

    closed spec fn view(&self) -> Shared<T, W> {
        Shared { value: self.slot.res, waiter: self.slot.waker }
    }
}

impl<T, W> JoinHandle<T, W> {
    /// A handle with neither result nor waker.
    pub(crate) fn new() -> (handle: Self)
        ensures
            handle@ == Shared::<T, W>::empty(),
    {
        JoinHandle { slot: Slot { res: None, waker: None } }
    }

    /// Leaves `waker` in the place of any other and takes the result, if it is there.
    pub fn poll(&mut self, waker: W) -> (r: Poll<T>)
        ensures
            r == old(self)@.found(),
            final(self)@ == old(self)@.polled(waker),
    {
        self.slot.waker = Some(waker);
        if let Some(v) = self.slot.res.take() {
            Poll::Ready(v)
        } else {
            Poll::Pending
        }
    }

    /// Leaves `waker` unless there is one already and takes the result, if it is there.
    pub fn poll_keeping(&mut self, waker: W) -> (r: Poll<T>)
        ensures
            r == old(self)@.found(),
            final(self)@ == old(self)@.polled_keeping(waker),
    {
        if self.slot.waker.is_none() {
            self.slot.waker = Some(waker);
        }
        match self.slot.res.take() {
            Some(v) => Poll::Ready(v),
            None => Poll::Pending,
        }
    }

    /// What the task does with the outcome of a poll of the work that it wraps. A value is
    /// stored first; the waker that is returned is to be called after that. The task is
    /// done when its work is.
    pub fn complete(&mut self, polled: Poll<T>) -> (r: (Poll<()>, Option<&W>))
        ensures
            r.0 is Ready <==> polled is Ready,
            match old(self)@.to_wake(polled) {
                Some(waker) => r.1 == Some(&waker),
                None => r.1 is None,
            },
            final(self)@ == old(self)@.completed(polled),
    {
        match polled {
            Poll::Ready(v) => {
                self.slot.res = Some(v);
                (Poll::Ready(()), self.slot.waker.as_ref())
            },
            Poll::Pending => (Poll::Pending, None),
        }
    }
}

/// A result is never missed. Whoever polled the handle before the work was done is woken
/// when it is, and by then the result is there. Where wakers are kept, this holds of whoever
/// polled first.
pub proof fn waiter_is_woken_after_the_value_is_stored<T, W>(s: Shared<T, W>, waker: W, value: T)
    requires
        s.value is None,
    ensures
        s.found() is Pending,
        s.polled(waker).to_wake(Poll::Ready(value)) == Some(waker),
        s.polled(waker).completed(Poll::Ready(value)).found() == Poll::Ready(value),
        s.waiter is None ==> s.polled_keeping(waker).to_wake(Poll::Ready(value)) == Some(waker),
        s.polled_keeping(waker).completed(Poll::Ready(value)).found() == Poll::Ready(value),
{
}

/// A result that was there before anybody asked for it wakes nobody and is found by the
/// first poll.
pub proof fn early_value_is_found<T, W>(s: Shared<T, W>, value: T)
    requires
        s.waiter is None,
    ensures
        s.to_wake(Poll::Ready(value)) is None,
        s.completed(Poll::Ready(value)).found() == Poll::Ready(value),
{
}

/// Work that is not done changes nothing and wakes nobody.
pub proof fn pending_work_is_silent<T, W>(s: Shared<T, W>)
    ensures
        s.completed(Poll::Pending) == s,
        s.to_wake(Poll::Pending) is None,
{
}

/// A result is given out once: after a poll there is none, however the waker was left.
pub proof fn value_is_given_once<T, W>(s: Shared<T, W>, waker: W)
    ensures
        s.polled(waker).found() is Pending,
        s.polled_keeping(waker).found() is Pending,
{
}

/// Of two that poll one after the other the later is woken, or, where wakers are kept,
/// the earlier.
pub proof fn one_waiter_is_woken<T, W>(s: Shared<T, W>, first: W, second: W, value: T)
    ensures
        s.polled(first).polled(second).to_wake(Poll::Ready(value)) == Some(second),
        s.waiter is None ==> s.polled_keeping(first).polled_keeping(second).to_wake(
            Poll::Ready(value),
        ) == Some(first),
{
}

/// A new handle has nothing to give and nobody to wake.
pub proof fn new_handle_is_empty<T, W>(value: T)
    ensures
        Shared::<T, W>::empty().value is None,
        Shared::<T, W>::empty().waiter is None,
        Shared::<T, W>::empty().found() is Pending,
        Shared::<T, W>::empty().to_wake(Poll::Ready(value)) is None,
{
}

/// A poll gives what is there, whoever asks, and takes it away.
pub proof fn poll_gives_what_is_there<T, W>(s: Shared<T, W>, waker: W)
    ensures
        match s.value {
            Some(v) => s.found() == Poll::Ready(v),
            None => s.found() is Pending,
        },
        s.polled(waker).value is None,
        s.polled_keeping(waker).value is None,
{
}

/// A poll leaves its own waker, in the place of any other or only where there was none.
pub proof fn poll_leaves_a_waker<T, W>(s: Shared<T, W>, waker: W)
    ensures
        s.polled(waker).waiter == Some(waker),
        match s.waiter {
            Some(kept) => s.polled_keeping(waker).waiter == Some(kept),
            None => s.polled_keeping(waker).waiter == Some(waker),
        },
{
}

/// What the work came to is stored as it is, in the place of anything that was there, and
/// whoever waits goes on waiting to be woken: that one and nobody else is.
pub proof fn value_is_stored_as_it_is<T, W>(s: Shared<T, W>, value: T)
    ensures
        s.completed(Poll::Ready(value)).value == Some(value),
        s.completed(Poll::Ready(value)).found() == Poll::Ready(value),
        s.completed(Poll::Ready(value)).waiter == s.waiter,
        s.to_wake(Poll::Ready(value)) == s.waiter,
        s.completed(Poll::Pending).value == s.value,
        s.completed(Poll::Pending).waiter == s.waiter,
        s.to_wake(Poll::Pending) is None,
{
}

} // verus!
