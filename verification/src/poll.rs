use vstd::prelude::*;

verus! {

/// What one attempt to make progress came to.
#[derive(Debug, PartialEq, Eq)]
pub enum Poll<T> {
    /// The work is done, and this is its value.
    Ready(T),
    /// The work stopped before its end and is to be polled again.
    Pending,
}

/// What a polled task may do to be polled again: it counts how often the task asked for its
/// own waker to be called.
#[derive(Debug, Clone, Copy, PartialEq, Eq)]
pub struct Context {
    wakes: u64,
}

impl Context {
    /// How many wakes were asked for.
    pub closed spec fn spec_wakes(&self) -> u64 {
        self.wakes
    }

    /// A context in which no wake has been asked for.
    pub fn new() -> (cx: Context)
        ensures
            cx.wakes() == 0,
    {
        Context { wakes: 0 }
    }

    /// Asks for the task that is being polled to be scheduled once more.
    pub fn wake_by_ref(&mut self)
        requires
            old(self).wakes() < u64::MAX,
        ensures
            final(self).wakes() == old(self).wakes() + 1,
    {
        self.wakes = self.wakes + 1;
    }

    /// Tells how many wakes were asked for.
    #[verifier::when_used_as_spec(spec_wakes)]
    pub fn wakes(&self) -> (n: u64)
        ensures
            n == self.wakes(),
    {
        self.wakes
    }
}

} // verus!
