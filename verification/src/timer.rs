//! Timers: tasks register a waker for a deadline, and a worker calls it when it is due.

use crate::poll::Poll;
use crate::schedule::Schedule;
use std::collections::BTreeMap;
use std::collections::HashMap;
use vstd::prelude::*;
use vstd::std_specs::cmp::OrdSpec;
use vstd::std_specs::iter::IteratorSpec;

verus! {

broadcast use vstd::laws_cmp::group_laws_cmp;

/// State shared between the handles and the worker thread.
#[verifier::reject_recursive_types(W)]
pub struct TimerState<W> {
    // Deadline to the ids registered for it.
    deadlines: BTreeMap<u128, Vec<u64>>,
    // Id to waker.
    wakers: HashMap<u64, W>,
    // Id to deadline, to find the list of an id that is cancelled.
    id_to_deadline: HashMap<u64, u128>,
    // The id that the next registration gets.
    next_id: u64,
    // Whether the worker is to stop.
    shutdown: bool,
}

impl<W> View for TimerState<W> {
    type V = Schedule<W>;

    closed spec fn view(&self) -> Schedule<W> {
        Schedule {
            lists: self.deadlines@.map_values(|ids: Vec<u64>| ids@),
            wakers: self.wakers@,
            deadline_of: self.id_to_deadline@,
            next_id: self.next_id,
            shutdown: self.shutdown,
        }
    }
}

impl<W> TimerState<W> {
    /// A state in which nothing is registered.
    pub fn new() -> (st: Self)
        ensures
            st@ == Schedule::<W>::empty(),
            st@.wf(),
    {
        let st = TimerState {
            deadlines: BTreeMap::new(),
            wakers: HashMap::new(),
            id_to_deadline: HashMap::new(),
            next_id: 1,
            shutdown: false,
        };
        assert(st@.lists =~= Map::empty());
        st
    }

    /// The first deadline that something is registered for.
    fn earliest(&self) -> (first: Option<u128>)
        ensures
            match first {
                Some(d) => self@.lists.contains_key(d) && forall|k: u128| #[trigger]
                    self@.lists.contains_key(k) ==> d <= k,
                None => self@.lists == Map::<u128, Seq<u64>>::empty(),
            },
    {
        for entry in entries: self.deadlines.iter()
            invariant
                entries.index() == 0,
                entries.seq() == vstd::std_specs::btree::spec_btree_map_iter(
                    &self.deadlines,
                ).remaining(),
                vstd::std_specs::btree::increasing_seq(
                    entries.seq().map_values(|kv: (&u128, &Vec<u64>)| *kv.0),
                ),
        {
            proof {
                let ghost order = entries.seq();
                let ghost keys = order.map_values(|kv: (&u128, &Vec<u64>)| *kv.0);
                assert(order[0] == entry);
                assert(keys[0] == *entry.0);
                assert forall|k: u128| #[trigger] self@.lists.contains_key(k) implies *entry.0 <= k by {
                    assert(self.deadlines@.contains_key(k));
                    let i = order.index_of((&k, &self.deadlines@[k]));
                    assert(keys[i] == k);
                    if i > 0 {
                        assert(keys[0].cmp_spec(&keys[i]) is Less);
                    }
                }
            }
            return Some(*entry.0);
        }
        None
    }

    /// Takes out the list of one deadline and appends the wakers of its ids to `fired`.
    fn take_list(&mut self, when: u128, fired: &mut Vec<W>)
        requires
            old(self)@.wf(),
            old(self)@.lists.contains_key(when),
        ensures
            final(fired)@ == old(fired)@ + old(self)@.wakers_at(when),
            final(self)@ == old(self)@.without_list(when),
    {
        let ghost s = self@;
        let ghost listed = s.lists[when];
        if let Some(ids) = self.deadlines.remove(&when) {
            assert(ids@ == listed);
            assert(self@.lists =~= s.lists.remove(when));
            let mut n: usize = 0;
            while n < ids.len()
                invariant
                    s == old(self)@,
                    s.wf(),
                    s.lists.contains_key(when),
                    listed == s.lists[when],
                    ids@ == listed,
                    n <= ids.len(),
                    fired@ =~= old(fired)@ + s.wakers_at(when).take(n as int),
                    self@.lists == s.lists.remove(when),
                    self@.next_id == s.next_id,
                    self@.shutdown == s.shutdown,
                    self@.wakers =~= s.wakers.remove_keys(listed.take(n as int).to_set()),
                    self@.deadline_of =~= s.deadline_of.remove_keys(listed.take(n as int).to_set()),
                decreases ids.len() - n,
            {
                let id: u64 = ids[n];
                assert(s.deadline_of.contains_key(s.lists[when][n as int]));
                assert(!listed.take(n as int).contains(id));
                assert(listed.take(n + 1) =~= listed.take(n as int).push(id));
                proof {
                    listed.take(n as int).lemma_push_to_set_commute(id);
                }
                if self.id_to_deadline.remove(&id).is_some() {
                    if let Some(waker) = self.wakers.remove(&id) {
                        fired.push(waker);
                    }
                }
                assert(s.wakers_at(when).take(n + 1) =~= s.wakers_at(when).take(n as int).push(
                    s.wakers[id],
                ));
                n = n + 1;
            }
            assert(listed.take(n as int) =~= listed);
            assert(s.wakers_at(when).take(n as int) =~= s.wakers_at(when));
            assert forall|id: u64| listed.contains(id) <==> s.deadline_of.contains_key(id)
                && s.deadline_of[id] == when by {
                if listed.contains(id) {
                    let i = listed.index_of(id);
                    assert(s.lists[when][i] == id);
                }
            }
            assert(self@.wakers =~= s.without_list(when).wakers);
            assert(self@.deadline_of =~= s.without_list(when).deadline_of);
        }
    }

    /// Takes out everything whose deadline is `now` or earlier and returns the wakers.
    fn take_due(&mut self, now: u128) -> (fired: Vec<W>)
        requires
            old(self)@.wf(),
        ensures
            fired@ == old(self)@.wakers_before(now + 1),
            final(self)@ == old(self)@.from_on(now + 1),
            final(self)@.wf(),
    {
        let mut fired: Vec<W> = Vec::new();
        let ghost s = self@;
        let ghost mut from: int = 0;
        assert(s.from_on(0).lists =~= s.lists);
        assert(s.from_on(0).wakers =~= s.wakers);
        assert(s.from_on(0).deadline_of =~= s.deadline_of);
        loop
            invariant
                s == old(self)@,
                s.wf(),
                0 <= from <= now + 1,
                fired@ =~= s.wakers_before(from),
                self@ == s.from_on(from),
            ensures
                fired@ =~= s.wakers_before(now + 1),
                self@ == s.from_on(now + 1),
            decreases now + 1 - from,
        {
            proof {
                crate::schedule::lemma_from_on_wf(s, from);
            }
            let first: Option<u128> = self.earliest();
            proof {
                assert forall|d: u128| from <= d && #[trigger] s.lists.contains_key(d) implies first
                    is Some && first->0 <= d by {
                    assert(self@.lists.contains_key(d));
                }
            }
            match first {
                Some(when) if when <= now => {
                    self.take_list(when, &mut fired);
                    proof {
                        crate::schedule::lemma_without_list(s, from, when);
                        from = when + 1;
                    }
                },
                _ => {
                    proof {
                        crate::schedule::lemma_ids_before_gap(s, from, now + 1);
                        crate::schedule::lemma_from_on_gap(s, from, now + 1);
                    }
                    break;
                },
            }
        }
        proof {
            crate::schedule::lemma_from_on_wf(s, now + 1);
        }
        fired
    }
}

/// What the runtime calls: it hands out sleeps and keeps the registrations that they
/// make. Handles and worker thread share one `Timer` behind a lock.
#[verifier::reject_recursive_types(W)]
pub struct Timer<W> {
    state: TimerState<W>,
    // Whether the worker is to be notified before the lock is given back.
    notify: bool,
}

impl<W> View for Timer<W> {
    type V = Schedule<W>;

    closed spec fn view(&self) -> Schedule<W> {
        self.state@
    }
}

impl<W> Timer<W> {
    /// Whether the worker is owed a notification.
    pub closed spec fn notice(&self) -> bool {
        self.notify
    }

    /// A sleep that is over `duration` after `now`. Nothing is registered until it is polled.
    pub fn sleep(&self, now: u128, duration: u128) -> (sleep: Sleep)
        requires
            now + duration <= u128::MAX,
        ensures
            sleep.deadline() == now + duration,
            sleep.ticket() is None,
    {
        Sleep::new(now, duration)
    }

    /// Whether the worker is to be notified. To ask is to promise to do it: the answer
    /// is `false` until there is a new reason.
    pub fn take_notice(&mut self) -> (owed: bool)
        ensures
            owed == old(self).notice(),
            !final(self).notice(),
            final(self)@ == old(self)@,
    {
        let owed: bool = self.notify;
        self.notify = false;
        owed
    }

    /// Whether there is an id left for one more registration.
    pub fn has_free_id(&self) -> (r: bool)
        ensures
            r == (self@.next_id < u64::MAX),
    {
        self.state.next_id < u64::MAX
    }

    /// Registers `waker` to be called at `when` and returns the id of the registration.
    /// The next deadline may have come closer, so the worker is to be notified.
    pub fn register(&mut self, when: u128, waker: W) -> (id: u64)
        requires
            old(self)@.wf(),
            old(self)@.next_id < u64::MAX,
        ensures
            id == old(self)@.next_id,
            final(self)@ == old(self)@.registered(when, waker),
            final(self)@.shutdown == old(self)@.shutdown,
            final(self).notice(),
            final(self)@.wf(),
    {
        let id: u64 = self.state.next_id;
        self.state.next_id = id + 1;
        self.state.wakers.insert(id, waker);
        self.state.id_to_deadline.insert(id, when);
        let mut ids: Vec<u64> = match self.state.deadlines.remove(&when) {
            Some(ids) => ids,
            None => Vec::new(),
        };
        assert(ids@ =~= old(self)@.list_at(when));
        ids.push(id);
        self.state.deadlines.insert(when, ids);
        self.notify = true;
        assert(self@.lists =~= old(self)@.registered(when, waker).lists);
        proof {
            crate::schedule::lemma_registered_wf(old(self)@, when, waker);
        }
        id
    }

    /// Replaces the waker held for `id`. No deadline changes, so nobody is notified.
    pub fn update_waker(&mut self, id: u64, waker: W)
        requires
            old(self)@.wf(),
        ensures
            final(self)@ == old(self)@.updated(id, waker),
            final(self)@.shutdown == old(self)@.shutdown,
            final(self).notice() == old(self).notice(),
            final(self)@.wf(),
    {
        self.state.wakers.insert(id, waker);
        proof {
            crate::schedule::lemma_same_tables_wf(old(self)@, self@);
        }
    }

    /// Forgets `id`: its deadline, its place in the list of that deadline, its waker.
    pub fn cancel(&mut self, id: u64)
        requires
            old(self)@.wf(),
        ensures
            final(self)@ == old(self)@.cancelled(id),
            final(self)@.shutdown == old(self)@.shutdown,
            final(self).notice() == old(self).notice(),
            final(self)@.wf(),
    {
        proof {
            crate::schedule::lemma_cancelled_wf(old(self)@, id);
        }
        if let Some(deadline) = self.state.id_to_deadline.remove(&id) {
            if let Some(ids) = self.state.deadlines.remove(&deadline) {
                let mut ids: Vec<u64> = ids;
                assert(ids@ == old(self)@.lists[deadline]);
                let ghost listed = ids@;
                let pos: usize = position(&ids, id);
                ids.swap_remove(pos);
                assert(ids@ == listed.update(listed.index_of(id), listed.last()).drop_last());
                if ids.len() > 0 {
                    self.state.deadlines.insert(deadline, ids);
                }
            }
        }
        self.state.wakers.remove(&id);
        assert(self@.lists =~= old(self)@.cancelled(id).lists);
        assert(self@.wakers =~= old(self)@.cancelled(id).wakers);
        assert(self@.deadline_of =~= old(self)@.cancelled(id).deadline_of);
    }
}

/// What the worker thread does next.
#[derive(Debug, PartialEq, Eq)]
pub enum Reaction<W> {
    /// Leave the loop: the reactor is going away.
    Stop,
    /// Nothing is registered: wait for a notification.
    WaitForWork,
    /// Wait for a notification, but no longer than this.
    WaitFor(u128),
    /// Give the lock back, then call these wakers in this order.
    Fire(Vec<W>),
}

/// The owner of the worker thread.
pub struct TimerReactor {
    // Whether the worker thread is still to be joined.
    worker: bool,
}

impl TimerReactor {
    /// Whether the worker thread is still to be joined.
    pub closed spec fn has_worker(&self) -> bool {
        self.worker
    }

    /// A reactor whose worker thread is to be started, and the timer it serves.
    pub fn start<W>() -> (r: (TimerReactor, Timer<W>))
        ensures
            r.0.has_worker(),
            r.1@ == Schedule::<W>::empty(),
            r.1@.wf(),
            !r.1.notice(),
    {
        (TimerReactor { worker: true }, Timer { state: TimerState::new(), notify: false })
    }

    /// One turn of the worker's loop, taken under the lock at the time `now`.
    pub fn turn<W>(timer: &mut Timer<W>, now: u128) -> (r: Reaction<W>)
        requires
            old(timer)@.wf(),
        ensures
            final(timer)@.wf(),
            final(timer)@.shutdown == old(timer)@.shutdown,
            final(timer).notice() == old(timer).notice(),
            r is Fire <==> old(timer)@.fires_at(now),
            match r {
                Reaction::Stop => old(timer)@.shutdown && final(timer)@ == old(timer)@,
                Reaction::WaitForWork => {
                    &&& !old(timer)@.shutdown
                    &&& old(timer)@.lists.is_empty()
                    &&& final(timer)@ == old(timer)@
                },
                Reaction::WaitFor(time) => {
                    &&& !old(timer)@.shutdown
                    &&& old(timer)@.is_earliest(now + time)
                    &&& time > 0
                    &&& final(timer)@ == old(timer)@
                },
                Reaction::Fire(wakers) => {
                    &&& wakers@ == old(timer)@.wakers_before(now + 1)
                    &&& final(timer)@ == old(timer)@.from_on(now + 1)
                },
            },
    {
        if timer.state.shutdown {
            return Reaction::Stop;
        }
        match timer.state.earliest() {
            None => Reaction::WaitForWork,
            Some(next) => {
                if next > now {
                    Reaction::WaitFor(next - now)
                } else {
                    Reaction::Fire(timer.state.take_due(now))
                }
            },
        }
    }

    /// Tells the worker to stop. It is to be notified, and then joined, unless that was
    /// done before: the result tells.
    pub fn drop<W>(&mut self, timer: &mut Timer<W>) -> (join: bool)
        requires
            old(timer)@.wf(),
        ensures
            join == old(self).has_worker(),
            !final(self).has_worker(),
            final(timer)@ == (Schedule { shutdown: true, ..old(timer)@ }),
            final(timer).notice(),
            final(timer)@.wf(),
    {
        timer.state.shutdown = true;
        timer.notify = true;
        let join: bool = self.worker;
        self.worker = false;
        proof {
            crate::schedule::lemma_same_tables_wf(old(timer)@, timer@);
        }
        join
    }
}

/// A wait for a deadline.
pub struct Sleep {
    deadline: u128,
    // The id under which this sleep is registered.
    id: Option<u64>,
}

impl Sleep {
    /// The time at which the sleep is over.
    pub closed spec fn deadline(&self) -> u128 {
        self.deadline
    }

    /// The id under which the sleep has registered itself.
    pub closed spec fn ticket(&self) -> Option<u64> {
        self.id
    }

    /// The timer after its registration for this sleep, if any, has been cancelled.
    pub open spec fn cleared<W>(&self, s: Schedule<W>) -> Schedule<W> {
        match self.ticket() {
            Some(id) => s.cancelled(id),
            None => s,
        }
    }

    /// A sleep that is over `duration` after `now` and is not registered.
    pub fn new(now: u128, duration: u128) -> (sleep: Sleep)
        requires
            now + duration <= u128::MAX,
        ensures
            sleep.deadline() == now + duration,
            sleep.ticket() is None,
    {
        Sleep { deadline: now + duration, id: None }
    }

    /// Whether the sleep is registered, so that giving it up changes the timer.
    pub fn is_registered(&self) -> (r: bool)
        ensures
            r == (self.ticket() is Some),
    {
        self.id.is_some()
    }

    /// Whether a poll at the time `now` makes a new registration.
    pub fn registers(&self, now: u128) -> (r: bool)
        ensures
            r == (now < self.deadline() && self.ticket() is None),
    {
        now < self.deadline && self.id.is_none()
    }

    /// Whether a poll at the time `now` has something to do with the timer. One that has
    /// not finds the sleep over and leaves everything as it is.
    pub fn uses_timer(&self, now: u128) -> (r: bool)
        ensures
            r == (now < self.deadline() || self.ticket() is Some),
    {
        now < self.deadline || self.id.is_some()
    }

    /// Completes once the deadline has come. Before, it registers `waker`, or makes it
    /// the waker of the registration that there is.
    pub fn poll<W>(&mut self, timer: &mut Timer<W>, now: u128, waker: W) -> (r: Poll<()>)
        requires
            old(timer)@.wf(),
            now < old(self).deadline() && old(self).ticket() is None ==> old(timer)@.next_id
                < u64::MAX,
        ensures
            final(timer)@.wf(),
            final(timer)@.shutdown == old(timer)@.shutdown,
            final(self).deadline() == old(self).deadline(),
            r is Ready <==> now >= old(self).deadline(),
            now >= old(self).deadline() ==> {
                &&& final(self).ticket() is None
                &&& final(timer)@ == old(self).cleared(old(timer)@)
                &&& final(timer).notice() == old(timer).notice()
            },
            now < old(self).deadline() ==> match old(self).ticket() {
                None => {
                    &&& final(self).ticket() == Some(old(timer)@.next_id)
                    &&& final(timer)@ == old(timer)@.registered(old(self).deadline(), waker)
                    &&& final(timer).notice()
                },
                Some(id) => {
                    &&& final(self).ticket() == Some(id)
                    &&& final(timer)@ == old(timer)@.updated(id, waker)
                    &&& final(timer).notice() == old(timer).notice()
                },
            },
    {
        if now >= self.deadline {
            if let Some(id) = self.id.take() {
                timer.cancel(id);
            }
            return Poll::Ready(());
        }
        match self.id {
            None => {
                let id: u64 = timer.register(self.deadline, waker);
                self.id = Some(id);
            },
            Some(id) => {
                timer.update_waker(id, waker);
            },
        }
        Poll::Pending
    }

    /// Gives the sleep up: a registration that it has made is cancelled.
    pub fn drop<W>(&mut self, timer: &mut Timer<W>)
        requires
            old(timer)@.wf(),
        ensures
            final(self).deadline() == old(self).deadline(),
            final(self).ticket() is None,
            final(timer)@ == old(self).cleared(old(timer)@),
            final(timer)@.shutdown == old(timer)@.shutdown,
            final(timer).notice() == old(timer).notice(),
            final(timer)@.wf(),
    {
        if let Some(id) = self.id.take() {
            timer.cancel(id);
        }
    }
}

/// Where `id` stands in a list that holds it once.
fn position(ids: &Vec<u64>, id: u64) -> (pos: usize)
    requires
        ids@.contains(id),
        ids@.no_duplicates(),
    ensures
        pos < ids@.len(),
        ids@[pos as int] == id,
        pos == ids@.index_of(id),
{
    let mut pos: usize = 0;
    while ids[pos] != id
        invariant
            pos < ids@.len(),
            ids@.contains(id),
            forall|i: int| 0 <= i < pos ==> ids@[i] != id,
        decreases ids@.len() - pos,
    {
        proof {
            let at = ids@.index_of(id);
            assert(ids@[at] == id);
            assert(pos < at < ids.len());
        }
        pos = pos + 1;
    }
    pos
}

} // verus!
