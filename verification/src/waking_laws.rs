//! What holds of a waking executor over a whole run, whatever its tasks do.

use crate::busy;
use crate::busy_laws;
use crate::count::CountFuture;
use crate::joining;
use crate::poll::Poll;
use crate::slot;
use crate::slot::Shared;
use crate::turn::{Next, Polled};
use crate::waking;
use crate::waking::Tasks;
use vstd::prelude::*;

verus! {

/// Something that happens to an executor.
pub ghost enum Event {
    /// A task is spawned.
    Spawn,
    /// A task is woken.
    Wake { id: usize },
    /// The executor takes a turn.
    Turn { polled: Option<(usize, Poll<()>)> },
}

/// Whether an event can happen.
pub open spec fn allowed(t: Tasks, event: Event) -> bool {
    match event {
        Event::Spawn => t.done.len() < usize::MAX,
        Event::Wake { id } => id < t.done.len(),
        Event::Turn { polled } => t.admits(polled),
    }
}

/// The executor after an event.
pub open spec fn applied(t: Tasks, event: Event) -> Tasks {
    match event {
        Event::Spawn => t.spawned(),
        Event::Wake { id } => t.woken(id),
        Event::Turn { polled } => t.reported(polled).advanced(),
    }
}

/// The task that an event gives out to be polled.
pub open spec fn given_out(t: Tasks, event: Event) -> Option<usize> {
    match event {
        Event::Turn { polled } => match t.reported(polled).next() {
            Next::Poll(id) => Some(id),
            _ => None,
        },
        _ => None,
    }
}

/// The task that an event puts into the queue.
pub open spec fn put_in(t: Tasks, event: Event) -> Option<usize> {
    match event {
        Event::Spawn => Some(t.done.len() as usize),
        Event::Wake { id } => Some(id),
        Event::Turn { .. } => None,
    }
}

/// The executor after events, one after the other.
pub open spec fn after_all(t: Tasks, events: Seq<Event>) -> Tasks
    decreases events.len(),
{
    if events.len() == 0 {
        t
    } else {
        applied(after_all(t, events.drop_last()), events.last())
    }
}

/// Whether events can happen one after the other.
pub open spec fn all_allowed(t: Tasks, events: Seq<Event>) -> bool
    decreases events.len(),
{
    events.len() == 0 || {
        &&& all_allowed(t, events.drop_last())
        &&& allowed(after_all(t, events.drop_last()), events.last())
    }
}

/// How often a task is given out to be polled.
pub open spec fn polls_of(t: Tasks, events: Seq<Event>, id: usize) -> nat
    decreases events.len(),
{
    if events.len() == 0 {
        0
    } else {
        let gives = given_out(after_all(t, events.drop_last()), events.last()) == Some(id);
        polls_of(t, events.drop_last(), id) + (if gives { 1nat } else { 0nat })
    }
}

/// How often any task is given out to be polled.
pub open spec fn polls_in_all(t: Tasks, events: Seq<Event>) -> nat
    decreases events.len(),
{
    if events.len() == 0 {
        0
    } else {
        let gives = given_out(after_all(t, events.drop_last()), events.last()) is Some;
        polls_in_all(t, events.drop_last()) + (if gives { 1nat } else { 0nat })
    }
}

/// How often a task is put into the queue: when it is spawned, and each time it is woken.
pub open spec fn wakes_of(t: Tasks, events: Seq<Event>, id: usize) -> nat
    decreases events.len(),
{
    if events.len() == 0 {
        0
    } else {
        let puts = put_in(after_all(t, events.drop_last()), events.last()) == Some(id);
        wakes_of(t, events.drop_last(), id) + (if puts { 1nat } else { 0nat })
    }
}

/// How often a task stands in a queue.
pub open spec fn entries(queue: Seq<usize>, id: usize) -> nat
    decreases queue.len(),
{
    if queue.len() == 0 {
        0
    } else {
        entries(queue.drop_last(), id) + (if queue.last() == id { 1nat } else { 0nat })
    }
}

proof fn lemma_entries_from_front(queue: Seq<usize>, id: usize)
    requires
        queue.len() > 0,
    ensures
        entries(queue, id) == entries(queue.drop_first(), id) + (if queue[0] == id {
            1nat
        } else {
            0nat
        }),
    decreases queue.len(),
{
    if queue.len() == 1 {
        assert(queue.drop_last() =~= queue.drop_first());
        assert(entries(queue.drop_first(), id) == 0);
    } else {
        lemma_entries_from_front(queue.drop_last(), id);
        assert(queue.drop_last().drop_first() =~= queue.drop_first().drop_last());
    }
}

/// Only tasks that are done are passed over.
proof fn lemma_waiting(t: Tasks)
    ensures
        t.waiting().len() <= t.queue.len(),
        t.waiting() == t.queue.skip(t.queue.len() - t.waiting().len()),
        forall|i: int|
            0 <= i < t.queue.len() - t.waiting().len() ==> !t.live(#[trigger] t.queue[i]),
        t.waiting().len() > 0 ==> t.live(t.waiting()[0]),
    decreases t.queue.len(),
{
    if t.queue.len() == 0 || t.live(t.queue[0]) {
        assert(t.queue.skip(0) =~= t.queue);
    } else {
        let rest = Tasks { queue: t.queue.drop_first(), done: t.done };
        lemma_waiting(rest);
        let passed = t.queue.len() - t.waiting().len();
        assert(rest.queue.skip(passed - 1) =~= t.queue.skip(passed));
        assert forall|i: int| 0 <= i < passed implies !t.live(#[trigger] t.queue[i]) by {
            if i > 0 {
                assert(rest.queue[i - 1] == t.queue[i]);
                assert(!rest.live(rest.queue[i - 1]));
            }
        }
    }
}

proof fn lemma_waiting_entries(t: Tasks, id: usize)
    ensures
        entries(t.waiting(), id) <= entries(t.queue, id),
        t.wf() && !(id < t.done.len() && t.done[id as int]) ==> entries(t.waiting(), id) == entries(
            t.queue,
            id,
        ),
    decreases t.queue.len(),
{
    if t.queue.len() > 0 && !t.live(t.queue[0]) {
        let rest = Tasks { queue: t.queue.drop_first(), done: t.done };
        lemma_waiting_entries(rest, id);
        lemma_entries_from_front(t.queue, id);
        if t.wf() {
            assert(t.queue[0] < t.done.len());
            assert forall|i: int| 0 <= i < rest.queue.len() implies #[trigger] rest.queue[i]
                < rest.done.len() by {
                assert(rest.queue[i] == t.queue[i + 1]);
            }
        }
    }
}

/// An executor only ever queues tasks that were spawned, and what is done stays done.
pub proof fn done_stays_done(t: Tasks, events: Seq<Event>)
    requires
        t.wf(),
        all_allowed(t, events),
    ensures
        after_all(t, events).wf(),
        t.done.len() <= after_all(t, events).done.len(),
        forall|id: int|
            0 <= id < t.done.len() && t.done[id] ==> #[trigger] after_all(t, events).done[id],
    decreases events.len(),
{
    if events.len() > 0 {
        done_stays_done(t, events.drop_last());
        lemma_applied(after_all(t, events.drop_last()), events.last());
    }
}

proof fn lemma_applied(t: Tasks, event: Event)
    requires
        t.wf(),
        allowed(t, event),
    ensures
        applied(t, event).wf(),
        t.done.len() <= applied(t, event).done.len(),
        forall|id: int|
            0 <= id < t.done.len() && t.done[id] ==> #[trigger] applied(t, event).done[id],
{
    let u = applied(t, event);
    match event {
        Event::Turn { polled } => {
            let r = t.reported(polled);
            lemma_waiting(r);
            let passed = r.queue.len() - r.waiting().len();
            assert forall|i: int| 0 <= i < u.queue.len() implies #[trigger] u.queue[i]
                < u.done.len() by {
                match r.next() {
                    Next::Finish => {
                        assert(u.queue[i] == t.queue[i]);
                    },
                    Next::Wait => {},
                    Next::Poll(_) => {
                        assert(u.queue[i] == t.queue[i + 1 + passed]);
                    },
                }
            }
        },
        _ => {
            assert forall|i: int| 0 <= i < u.queue.len() implies #[trigger] u.queue[i]
                < u.done.len() by {
                if i < t.queue.len() {
                    assert(u.queue[i] == t.queue[i]);
                }
            }
        },
    }
}

/// A task that is done is never polled again, whatever is woken, spawned or reported after
/// that.
pub proof fn finished_task_is_never_given_out(
    t: Tasks,
    events: Seq<Event>,
    polled: Option<(usize, Poll<()>)>,
    id: usize,
)
    requires
        t.wf(),
        all_allowed(t, events),
        after_all(t, events).admits(polled),
        id < t.done.len(),
        t.done[id as int],
    ensures
        after_all(t, events).reported(polled).next() != Next::Poll(id),
        polls_of(t, events, id) == 0,
    decreases events.len(),
{
    done_stays_done(t, events);
    lemma_waiting(after_all(t, events).reported(polled));
    if events.len() > 0 {
        finished_task_is_never_given_out(t, events.drop_last(), None, id);
        if let Event::Turn { polled: last } = events.last() {
            finished_task_is_never_given_out(t, events.drop_last(), last, id);
        }
    }
}

/// The run ends exactly when every task that was spawned is done.
pub proof fn run_ends_when_every_task_is_done(t: Tasks)
    ensures
        t.next() is Finish <==> forall|id: int| 0 <= id < t.done.len() ==> #[trigger] t.done[id],
{
    lemma_unfinished(t.done);
}

proof fn lemma_unfinished(done: Seq<bool>)
    ensures
        waking::unfinished(done) == 0 <==> forall|id: int| 0 <= id < done.len() ==> #[trigger] done[id],
    decreases done.len(),
{
    if done.len() > 0 {
        let start = done.drop_last();
        lemma_unfinished(start);
        if waking::unfinished(done) == 0 {
            assert forall|id: int| 0 <= id < done.len() implies #[trigger] done[id] by {
                if id < start.len() {
                    assert(start[id] == done[id]);
                }
            }
        }
        if forall|id: int| 0 <= id < done.len() ==> #[trigger] done[id] {
            assert forall|id: int| 0 <= id < start.len() implies #[trigger] start[id] by {
                assert(done[id]);
            }
        }
    }
}

/// A task that is pending stays out of the queue until it is woken: over any run, its polls
/// and its entries left in the queue make up its entries at the start and the times it was
/// woken or spawned. Once it is done, entries of it may be passed over.
pub proof fn pending_task_stays_out(t: Tasks, events: Seq<Event>, id: usize)
    requires
        t.wf(),
        all_allowed(t, events),
    ensures
        polls_of(t, events, id) + entries(after_all(t, events).queue, id) <= entries(t.queue, id)
            + wakes_of(t, events, id),
        !(id < after_all(t, events).done.len() && after_all(t, events).done[id as int]) ==> polls_of(
            t,
            events,
            id,
        ) + entries(after_all(t, events).queue, id) == entries(t.queue, id) + wakes_of(
            t,
            events,
            id,
        ),
    decreases events.len(),
{
    if events.len() > 0 {
        let before = after_all(t, events.drop_last());
        let after = after_all(t, events);
        pending_task_stays_out(t, events.drop_last(), id);
        done_stays_done(t, events.drop_last());
        lemma_applied(before, events.last());
        if id < before.done.len() && before.done[id as int] {
            assert(after.done[id as int]);
        }
        match events.last() {
            Event::Turn { polled } => {
                let r = before.reported(polled);
                lemma_waiting(r);
                lemma_waiting_entries(r, id);
                assert(r.wf()) by {
                    assert forall|i: int| 0 <= i < r.queue.len() implies #[trigger] r.queue[i]
                        < r.done.len() by {
                        assert(before.queue[i] < before.done.len());
                    }
                }
                if r.next() is Poll {
                    lemma_entries_from_front(r.waiting(), id);
                }
            },
            _ => {
                assert(after.queue.drop_last() =~= before.queue);
            },
        }
    }
}

/// A task that stands in the queue is reached: as long as it is neither given out nor done,
/// the executor does not wait, the run does not end, and no more tasks are given out than
/// there were before it.
pub proof fn queued_task_is_reached(t: Tasks, at: int, events: Seq<Event>)
    requires
        t.wf(),
        all_allowed(t, events),
        0 <= at < t.queue.len(),
        polls_of(t, events, t.queue[at]) == 0,
        after_all(t, events).live(t.queue[at]),
    ensures
        polls_in_all(t, events) <= at,
        after_all(t, events).next() is Poll,
        polls_in_all(t, events) == at ==> after_all(t, events).next() == Next::Poll(t.queue[at]),
{
    let id = t.queue[at];
    let after = after_all(t, events);
    lemma_moves_up(t, at, events);
    let now = choose|now: int|
        0 <= now < after.queue.len() && now + polls_in_all(t, events) <= at
            && #[trigger] after.queue[now] == id;
    lemma_waiting(after);
    let passed = after.queue.len() - after.waiting().len();
    assert(passed <= now);
    run_ends_when_every_task_is_done(after);
    if polls_in_all(t, events) == at {
        assert(after.waiting()[0] == after.queue[0]);
    }
}

proof fn lemma_moves_up(t: Tasks, at: int, events: Seq<Event>)
    requires
        t.wf(),
        all_allowed(t, events),
        0 <= at < t.queue.len(),
        polls_of(t, events, t.queue[at]) == 0,
        after_all(t, events).live(t.queue[at]),
    ensures
        exists|now: int|
            0 <= now < after_all(t, events).queue.len() && now + polls_in_all(t, events) <= at
                && #[trigger] after_all(t, events).queue[now] == t.queue[at],
    decreases events.len(),
{
    let id = t.queue[at];
    if events.len() == 0 {
        assert(after_all(t, events).queue[at] == id);
    } else {
        let start = events.drop_last();
        let before = after_all(t, start);
        let after = after_all(t, events);
        done_stays_done(t, start);
        lemma_applied(before, events.last());
        assert(t.queue[at] < t.done.len());
        assert(before.live(id)) by {
            if before.done[id as int] {
                assert(after.done[id as int]);
            }
        }
        lemma_moves_up(t, at, start);
        let then = choose|now: int|
            0 <= now < before.queue.len() && now + polls_in_all(t, start) <= at
                && #[trigger] before.queue[now] == id;
        match events.last() {
            Event::Turn { polled } => {
                let r = before.reported(polled);
                lemma_waiting(r);
                let passed = r.queue.len() - r.waiting().len();
                assert(r.queue[then] == id);
                assert(r.live(id));
                assert(passed <= then);
                assert(r.waiting()[then - passed] == id);
                run_ends_when_every_task_is_done(r);
                assert(!r.done[id as int]);
                assert(r.next() is Poll);
                assert(given_out(before, events.last()) != Some(id));
                assert(then != passed);
                assert(after.queue[then - passed - 1] == id);
            },
            _ => {
                assert(after.queue[then] == id);
            },
        }
    }
}

/// A task that wakes itself while it is polled is where an executor that puts pending tasks
/// back would have put it, and the run goes on in the same way.
pub proof fn self_waking_is_putting_back(t: Tasks, u: joining::Tasks<usize>, id: usize)
    requires
        t.queue == u.queue,
        t.remaining() == u.remaining,
        t.live(id),
        forall|i: int| 0 <= i < t.queue.len() ==> t.live(#[trigger] t.queue[i]),
    ensures
        ({
            let woken = t.woken(id).reported(Some((id, Poll::Pending)));
            let back = u.reported(Some(Polled::Pending(id)));
            &&& woken.next() == back.next()
            &&& woken.advanced().queue == back.advanced().queue
            &&& woken.advanced().remaining() == back.advanced().remaining
        }),
{
    let woken = t.woken(id);
    run_ends_when_every_task_is_done(t);
    assert(!t.done[id as int]);
    assert(t.live(woken.queue[0])) by {
        if t.queue.len() > 0 {
            assert(woken.queue[0] == t.queue[0]);
        }
    }
    assert(woken.live(woken.queue[0]));
}

/// A task that waits for another is put into the queue as soon as the other is done, and
/// the result is there by then. However the run goes on, it does not wait or end before the
/// task is polled, and only tasks that stood before it are polled first. With a handle that
/// keeps wakers the same holds of whoever asked first.
pub proof fn waiting_task_gets_the_result<T>(
    s: Shared<T, usize>,
    t: Tasks,
    waiting: usize,
    value: T,
    events: Seq<Event>,
)
    requires
        t.wf(),
        t.live(waiting),
        s.value is None,
        all_allowed(t.woken(waiting), events),
        polls_of(t.woken(waiting), events, waiting) == 0,
        after_all(t.woken(waiting), events).live(waiting),
    ensures
        ({
            let asked = s.polled(waiting);
            &&& s.found() is Pending
            &&& asked.to_wake(Poll::Ready(value)) == Some(waiting)
            &&& asked.completed(Poll::Ready(value)).found() == Poll::Ready(value)
        }),
        s.waiter is None ==> ({
            let asked = s.polled_keeping(waiting);
            &&& asked.to_wake(Poll::Ready(value)) == Some(waiting)
            &&& asked.completed(Poll::Ready(value)).found() == Poll::Ready(value)
        }),
        after_all(t.woken(waiting), events).next() is Poll,
        polls_in_all(t.woken(waiting), events) <= t.queue.len(),
        polls_in_all(t.woken(waiting), events) == t.queue.len() ==> after_all(
            t.woken(waiting),
            events,
        ).next() == Next::Poll(waiting),
{
    let woken = t.woken(waiting);
    slot::waiter_is_woken_after_the_value_is_stored(s, waiting, value);
    lemma_applied(t, Event::Wake { id: waiting });
    queued_task_is_reached(woken, t.queue.len() as int, events);
}

/// The executor once a count has been polled: a count that is not done has woken itself.
pub open spec fn count_reported(t: Tasks, id: usize, future: CountFuture) -> Tasks {
    match future.found() {
        Poll::Ready(_) => t.reported(Some((id, Poll::Ready(())))),
        Poll::Pending => t.woken(id).reported(Some((id, Poll::Pending))),
    }
}

/// A run over counts, from the turn that polls `id` on, as far as `limit` polls show: the
/// values with which counts complete, in that order, and how many polls there are. `futures`
/// are the counts of all tasks.
pub open spec fn run_counts(
    t: Tasks,
    futures: Seq<CountFuture>,
    id: usize,
    limit: nat,
) -> (Seq<u64>, nat)
    decreases limit,
{
    if limit == 0 {
        (Seq::empty(), 0)
    } else {
        let future = futures[id as int];
        let completed = match future.found() {
            Poll::Ready(v) => seq![v],
            Poll::Pending => Seq::empty(),
        };
        let after = count_reported(t, id, future);
        match after.next() {
            Next::Poll(next) => {
                let rest = run_counts(
                    after.advanced(),
                    futures.update(id as int, future.stepped()),
                    next,
                    (limit - 1) as nat,
                );
                (completed + rest.0, rest.1 + 1)
            },
            _ => (completed, 1),
        }
    }
}

/// Counts that wake themselves all complete, in the order in which an executor that polls
/// busily would have completed them and with as many polls.
pub proof fn woken_counts_complete(t: Tasks, futures: Seq<CountFuture>, id: usize, limit: nat)
    requires
        t.done.len() == futures.len(),
        t.queue.push(id).no_duplicates(),
        forall|i: int| 0 <= i <= t.queue.len() ==> t.live(#[trigger] t.queue.push(id)[i]),
        t.remaining() == t.queue.len() + 1,
        limit >= busy_laws::polls_needed(futures[id as int]) + busy_laws::polls_in_all(
            t.queue.map_values(|i: usize| futures[i as int]),
        ),
    ensures
        run_counts(t, futures, id, limit) == busy_laws::run_counts(
            t.queue.map_values(|i: usize| futures[i as int]),
            futures[id as int],
        ),
        run_counts(t, futures, id, limit).0.to_multiset() == (seq![id] + t.queue).map_values(
            |i: usize| busy_laws::outcome(futures[i as int]),
        ).to_multiset(),
{
    let queue = t.queue.map_values(|i: usize| futures[i as int]);
    let future = futures[id as int];
    busy_laws::all_counts_complete(queue, future);
    assert((seq![future] + queue).map_values(|f: CountFuture| busy_laws::outcome(f)) =~= (seq![id]
        + t.queue).map_values(|i: usize| busy_laws::outcome(futures[i as int])));
    lemma_woken_counts(t, futures, id, limit);
}

proof fn lemma_woken_counts(t: Tasks, futures: Seq<CountFuture>, id: usize, limit: nat)
    requires
        t.done.len() == futures.len(),
        t.queue.push(id).no_duplicates(),
        forall|i: int| 0 <= i <= t.queue.len() ==> t.live(#[trigger] t.queue.push(id)[i]),
        t.remaining() == t.queue.len() + 1,
        limit >= busy_laws::polls_needed(futures[id as int]) + busy_laws::polls_in_all(
            t.queue.map_values(|i: usize| futures[i as int]),
        ),
    ensures
        run_counts(t, futures, id, limit) == busy_laws::run_counts(
            t.queue.map_values(|i: usize| futures[i as int]),
            futures[id as int],
        ),
    decreases limit,
{
    let queue = t.queue.map_values(|i: usize| futures[i as int]);
    let future = futures[id as int];
    let pushed = t.queue.push(id);
    assert(pushed[t.queue.len() as int] == id);
    assert forall|i: int| 0 <= i < t.queue.len() implies #[trigger] t.queue[i] != id && t.live(
        t.queue[i],
    ) by {
        assert(pushed[i] == t.queue[i]);
    }
    busy_laws::a_turn_takes_one_poll(queue, future);
    let polled = Some(busy_laws::count_polled(future));
    let after = count_reported(t, id, future);
    let stepped = futures.update(id as int, future.stepped());
    if future.found() is Ready {
        waking::lemma_unfinished_update(t.done, id as int);
    }
    if after.queue.len() > 0 {
        let next = after.queue[0];
        assert(after.live(next)) by {
            if t.queue.len() > 0 {
                assert(next == t.queue[0]);
            }
        }
        let later = after.advanced();
        assert(later.queue == after.queue.drop_first());
        assert(later.queue.map_values(|i: usize| stepped[i as int]) =~= busy::queue_after(
            queue,
            polled,
        ));
        assert(stepped[next as int] == busy::step(queue, polled).next->Poll_0);
        let again = later.queue.push(next);
        assert forall|i: int| 0 <= i <= later.queue.len() implies later.live(#[trigger] again[i]) by {
            if i < later.queue.len() {
                assert(again[i] == after.queue[i + 1]);
                if i + 1 < t.queue.len() {
                    assert(after.queue[i + 1] == t.queue[i + 1]);
                }
            }
        }
        assert(again.no_duplicates()) by {
            assert forall|i: int, j: int|
                0 <= i < again.len() && 0 <= j < again.len() && i != j implies again[i]
                != again[j] by {
                let i0 = if i < later.queue.len() { i + 1 } else { 0 };
                let j0 = if j < later.queue.len() { j + 1 } else { 0 };
                assert(again[i] == pushed[i0] && again[j] == pushed[j0]);
            }
        }
        lemma_woken_counts(later, stepped, next, (limit - 1) as nat);
    } else {
        assert(queue.len() == 0);
    }
}

/// A new executor has no tasks.
pub proof fn new_executor_has_no_tasks()
    ensures
        Tasks::empty().queue.len() == 0,
        Tasks::empty().done.len() == 0,
        Tasks::empty().remaining() == 0,
        Tasks::empty().next() is Finish,
{
}

/// A task is live from when it is spawned until it is done, and the live ones are counted.
pub proof fn live_tasks_are_counted(t: Tasks, id: usize)
    ensures
        t.live(id) <==> id < t.done.len() && t.done[id as int] == false,
        t.remaining() == t.done.filter(|done: bool| !done).len(),
{
    lemma_unfinished_filter(t.done);
}

proof fn lemma_unfinished_filter(done: Seq<bool>)
    ensures
        waking::unfinished(done) == done.filter(|done: bool| !done).len(),
    decreases done.len(),
{
    reveal(Seq::filter);
    if done.len() > 0 {
        lemma_unfinished_filter(done.drop_last());
    }
}

/// Every outcome of a poll can be reported but that a task completes that is done already or
/// was never spawned.
pub proof fn only_a_live_task_can_complete(t: Tasks, id: usize)
    ensures
        t.admits(None),
        t.admits(Some((id, Poll::Pending))),
        t.admits(Some((id, Poll::Ready(())))) <==> id < t.done.len() && t.done[id as int] == false,
{
}

/// A task that has just been spawned is live, counted and last in the queue. Nothing else
/// changes.
pub proof fn spawned_task_is_live_and_queued(t: Tasks)
    requires
        t.done.len() < usize::MAX,
    ensures
        ({
            let u = t.spawned();
            let id = t.done.len() as usize;
            &&& u.done.len() == t.done.len() + 1
            &&& u.done[id as int] == false
            &&& forall|other: int|
                0 <= other < t.done.len() ==> #[trigger] u.done[other] == t.done[other]
            &&& u.queue == t.queue + seq![id]
            &&& u.live(id)
            &&& u.remaining() == t.remaining() + 1
            &&& u.next() !is Finish
        }),
{
    let u = t.spawned();
    assert(u.done.drop_last() =~= t.done);
    assert(t.queue.push(t.done.len() as usize) =~= t.queue + seq![t.done.len() as usize]);
}

/// A wake puts the task behind all others and does nothing else.
pub proof fn woken_task_is_queued(t: Tasks, id: usize)
    ensures
        t.woken(id).queue == t.queue + seq![id],
        t.woken(id).done == t.done,
        t.woken(id).remaining() == t.remaining(),
{
    assert(t.queue.push(id) =~= t.queue + seq![id]);
}

/// Whether an event tells that a poll has completed a task.
pub open spec fn completes(event: Event, id: int) -> bool {
    event matches Event::Turn { polled: Some((task, Poll::Ready(_))) } && task == id
}

/// A turn makes a task done that it is told has completed, and no other. The number of tasks
/// stays.
pub proof fn a_turn_finishes_only_what_completed(t: Tasks, polled: Option<(usize, Poll<()>)>)
    requires
        t.admits(polled),
    ensures
        ({
            let told = t.reported(polled);
            let later = told.advanced();
            &&& told.queue == t.queue
            &&& told.done == later.done
            &&& later.done.len() == t.done.len()
            &&& forall|id: int|
                0 <= id < t.done.len() ==> (#[trigger] later.done[id] <==> t.done[id] || completes(
                    Event::Turn { polled },
                    id,
                ))
            &&& later.remaining() == (if polled matches Some((_, Poll::Ready(_))) {
                t.remaining() - 1
            } else {
                t.remaining() as int
            })
        }),
{
    if let Some((id, Poll::Ready(_))) = polled {
        waking::lemma_unfinished_update(t.done, id as int);
    }
}

/// What a turn gives out is the first task of the queue that is not done; those before it are
/// dropped, and those behind it stay as they stand. If none is left but a task is not done,
/// the executor waits.
pub proof fn first_unfinished_task_is_given_out(t: Tasks)
    requires
        forall|i: int| 0 <= i < t.queue.len() ==> #[trigger] t.queue[i] < t.done.len(),
    ensures
        t.advanced().done == t.done,
        forall|at: int|
            #![trigger t.queue[at]]
            0 <= at < t.queue.len() && !t.done[t.queue[at] as int] && (forall|i: int|
                0 <= i < at ==> t.done[#[trigger] t.queue[i] as int]) ==> t.next() == Next::Poll(
                t.queue[at],
            ) && t.advanced().queue == t.queue.skip(at + 1),
        (forall|i: int| 0 <= i < t.queue.len() ==> t.done[#[trigger] t.queue[i] as int]) && (exists|
            id: int,
        |
            0 <= id < t.done.len() && !#[trigger] t.done[id]) ==> t.next() is Wait
            && t.advanced().queue.len() == 0,
        (forall|id: int| 0 <= id < t.done.len() ==> #[trigger] t.done[id]) ==> t.next() is Finish
            && t.advanced().queue == t.queue,
{
    lemma_waiting(t);
    run_ends_when_every_task_is_done(t);
    let passed = t.queue.len() - t.waiting().len();
    assert forall|at: int|
        #![trigger t.queue[at]]
        0 <= at < t.queue.len() && !t.done[t.queue[at] as int] && (forall|i: int|
            0 <= i < at ==> t.done[#[trigger] t.queue[i] as int]) implies t.next() == Next::Poll(
        t.queue[at],
    ) && t.advanced().queue == t.queue.skip(at + 1) by {
        assert(t.queue[at] < t.done.len());
        assert(passed <= at);
        if passed < at {
            assert(t.waiting()[0] == t.queue[passed]);
        }
        assert(t.waiting()[0] == t.queue[at]);
        assert(t.waiting().drop_first() =~= t.queue.skip(at + 1));
    }
    if t.waiting().len() > 0 {
        assert(t.waiting()[0] == t.queue[passed]);
        assert(t.live(t.queue[passed]));
    }
}

/// A task is done after events exactly if it was before or one of them told that its poll
/// had completed it. There are as many tasks as there were and have been spawned since.
pub proof fn task_is_done_only_once_it_completed(t: Tasks, events: Seq<Event>)
    requires
        all_allowed(t, events),
    ensures
        after_all(t, events).done.len() == t.done.len() + events.filter(
            |event: Event| event is Spawn,
        ).len(),
        forall|id: int|
            0 <= id < after_all(t, events).done.len() ==> (#[trigger] after_all(t, events).done[id]
                <==> (id < t.done.len() && t.done[id]) || exists|i: int|
                0 <= i < events.len() && completes(#[trigger] events[i], id)),
    decreases events.len(),
{
    reveal(Seq::filter);
    if events.len() > 0 {
        let before = events.drop_last();
        let u = after_all(t, before);
        let after = after_all(t, events);
        task_is_done_only_once_it_completed(t, before);
        match events.last() {
            Event::Spawn => {
                spawned_task_is_live_and_queued(u);
            },
            Event::Wake { id } => {
                woken_task_is_queued(u, id);
            },
            Event::Turn { polled } => {
                a_turn_finishes_only_what_completed(u, polled);
            },
        }
        assert forall|id: int| 0 <= id < after.done.len() implies (#[trigger] after.done[id] <==> (id
            < t.done.len() && t.done[id]) || exists|i: int|
            0 <= i < events.len() && completes(#[trigger] events[i], id)) by {
            if after.done[id] {
                if id < u.done.len() && u.done[id] {
                    if !(id < t.done.len() && t.done[id]) {
                        let i = choose|i: int|
                            0 <= i < before.len() && completes(#[trigger] before[i], id);
                        assert(completes(events[i], id));
                    }
                } else {
                    assert(completes(events[events.len() - 1], id));
                }
            } else {
                assert forall|i: int| 0 <= i < events.len() implies !completes(
                    #[trigger] events[i],
                    id,
                ) by {
                    if i < before.len() {
                        assert(before[i] == events[i]);
                        if id >= u.done.len() {
                            lemma_completes_only_spawned(t, before, i, id);
                        }
                    } else if completes(events[i], id) {
                        assert(id < u.done.len());
                    }
                }
            }
        }
    }
}

/// Only a task that has been spawned by then completes.
proof fn lemma_completes_only_spawned(t: Tasks, events: Seq<Event>, at: int, id: int)
    requires
        all_allowed(t, events),
        0 <= at < events.len(),
        id >= after_all(t, events).done.len(),
    ensures
        !completes(events[at], id),
    decreases events.len(),
{
    let before = events.drop_last();
    let u = after_all(t, before);
    match events.last() {
        Event::Turn { polled } => {
            a_turn_finishes_only_what_completed(u, polled);
        },
        _ => {},
    }
    if at < before.len() {
        lemma_completes_only_spawned(t, before, at, id);
        assert(before[at] == events[at]);
    }
}

/// Whether a task was done before events or one of them told that its poll had completed it.
pub open spec fn has_completed(t: Tasks, events: Seq<Event>, id: int) -> bool {
    (0 <= id < t.done.len() && t.done[id]) || exists|i: int|
        0 <= i < events.len() && completes(#[trigger] events[i], id)
}

/// The run ends exactly when each task was done before or has been told to have completed.
pub proof fn run_ends_when_every_task_has_completed(t: Tasks, events: Seq<Event>)
    requires
        all_allowed(t, events),
    ensures
        after_all(t, events).next() is Finish <==> forall|id: int|
            0 <= id < after_all(t, events).done.len() ==> #[trigger] has_completed(t, events, id),
{
    let after = after_all(t, events);
    task_is_done_only_once_it_completed(t, events);
    run_ends_when_every_task_is_done(after);
    assert forall|id: int| 0 <= id < after.done.len() implies (#[trigger] after.done[id]
        <==> has_completed(t, events, id)) by {}
    if after.next() is Finish {
        assert forall|id: int| 0 <= id < after.done.len() implies #[trigger] has_completed(
            t,
            events,
            id,
        ) by {
            assert(after.done[id]);
        }
    }
}

/// Whether a task is told to have completed only after it has been given out to be polled.
pub open spec fn polls_come_first(t: Tasks, events: Seq<Event>) -> bool {
    forall|i: int, id: usize|
        0 <= i < events.len() && #[trigger] completes(events[i], id as int) ==> polls_of(
            t,
            events.take(i),
            id,
        ) > 0
}

/// Every task that is spawned in the course of a run has been polled when the run ends.
pub proof fn spawned_task_is_polled_before_the_end(t: Tasks, events: Seq<Event>, id: usize)
    requires
        all_allowed(t, events),
        polls_come_first(t, events),
        t.done.len() <= id < after_all(t, events).done.len(),
        after_all(t, events).next() is Finish,
    ensures
        polls_of(t, events, id) > 0,
{
    task_is_done_only_once_it_completed(t, events);
    run_ends_when_every_task_is_done(after_all(t, events));
    assert(after_all(t, events).done[id as int]);
    let i = choose|i: int| 0 <= i < events.len() && completes(#[trigger] events[i], id as int);
    lemma_polls_only_grow(t, events, i, id);
}

proof fn lemma_polls_only_grow(t: Tasks, events: Seq<Event>, at: int, id: usize)
    requires
        0 <= at <= events.len(),
    ensures
        polls_of(t, events.take(at), id) <= polls_of(t, events, id),
    decreases events.len(),
{
    if at == events.len() {
        assert(events.take(at) =~= events);
    } else {
        lemma_polls_only_grow(t, events.drop_last(), at, id);
        assert(events.drop_last().take(at) =~= events.take(at));
    }
}

} // verus!
