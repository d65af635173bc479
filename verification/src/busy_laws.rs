//! What holds of a busy executor over a whole run.

use crate::busy;
use crate::count::CountFuture;
use crate::poll::Poll;
use crate::turn::{Next, Polled};
use vstd::prelude::*;

verus! {

/// What goes into one turn.
pub ghost struct Turn<F> {
    /// The tasks that were spawned since the turn before, while a task was polled.
    pub spawned: Seq<F>,
    /// What that poll came to.
    pub polled: Option<Polled<F>>,
}

/// What a turn decides, with what was spawned before it.
pub open spec fn decided<F>(queue: Seq<F>, turn: Turn<F>) -> Next<F> {
    busy::step(queue + turn.spawned, turn.polled).next
}

/// The queue after a turn, with what was spawned before it.
pub open spec fn queue_next<F>(queue: Seq<F>, turn: Turn<F>) -> Seq<F> {
    busy::queue_after(queue + turn.spawned, turn.polled)
}

/// The queue after turns, one after the other.
pub open spec fn queue_at<F>(queue: Seq<F>, turns: Seq<Turn<F>>) -> Seq<F>
    decreases turns.len(),
{
    if turns.len() == 0 {
        queue
    } else {
        queue_at(queue_next(queue, turns[0]), turns.drop_first())
    }
}

/// What the last of some turns decides.
pub open spec fn decided_at<F>(queue: Seq<F>, turns: Seq<Turn<F>>) -> Next<F>
    decreases turns.len(),
{
    if turns.len() <= 1 {
        decided(queue, turns[0])
    } else {
        decided_at(queue_next(queue, turns[0]), turns.drop_first())
    }
}

/// The tasks of the queue are polled one after the other, each once, in the order in which
/// they stand there, whatever the polls come to and whatever is spawned meanwhile.
pub proof fn queue_is_polled_in_order<F>(queue: Seq<F>, turns: Seq<Turn<F>>)
    requires
        1 <= turns.len() <= queue.len(),
    ensures
        decided_at(queue, turns) == Next::Poll(queue[turns.len() - 1]),
        queue.skip(turns.len() as int).is_prefix_of(queue_at(queue, turns)),
    decreases turns.len(),
{
    let all = busy::returned(queue + turns[0].spawned, turns[0].polled);
    let next = queue_next(queue, turns[0]);
    assert(all[0] == queue[0] && next == all.drop_first());
    let rest = turns.drop_first();
    if turns.len() == 1 {
        assert(queue_at(next, rest) == next);
        assert(queue.skip(1) =~= next.take(queue.len() - 1));
    } else {
        queue_is_polled_in_order(next, rest);
        let later = queue.skip(turns.len() as int);
        assert(later =~= next.skip(rest.len() as int).take(later.len() as int));
    }
}

/// Tasks take turns. Once a task was put back, the tasks that were queued by then are each
/// polled once, in their order, before it is its turn again, whatever those polls come to
/// and whatever is spawned meanwhile.
pub proof fn tasks_take_turns<F>(queue: Seq<F>, task: F, turns: Seq<Turn<F>>)
    requires
        1 <= turns.len() <= queue.len() + turns[0].spawned.len() + 1,
        turns[0].polled == Some(Polled::Pending(task)),
    ensures
        ({
            let before = queue + turns[0].spawned;
            &&& turns.len() <= before.len() ==> decided_at(queue, turns) == Next::Poll(
                before[turns.len() - 1],
            )
            &&& turns.len() == before.len() + 1 ==> decided_at(queue, turns) == Next::Poll(task)
        }),
{
    let back = (queue + turns[0].spawned).push(task);
    if turns.len() > 1 {
        assert(queue_next(queue, turns[0]) == back.drop_first());
        queue_is_polled_in_order(back.drop_first(), turns.drop_first());
    }
}

/// A quantity added up over tasks.
pub open spec fn total<F>(tasks: Seq<F>, of: spec_fn(F) -> nat) -> nat
    decreases tasks.len(),
{
    if tasks.len() == 0 {
        0
    } else {
        of(tasks[0]) + total(tasks.drop_first(), of)
    }
}

/// One for a task that has a name, and nothing for another.
pub open spec fn has_name<F>(name: spec_fn(F) -> int, id: int) -> spec_fn(F) -> nat {
    |task: F|
        if name(task) == id {
            1nat
        } else {
            0nat
        }
}

/// How many tasks have a name.
pub open spec fn named<F>(tasks: Seq<F>, name: spec_fn(F) -> int, id: int) -> nat {
    total(tasks, has_name(name, id))
}

/// All that was spawned in the course of turns.
pub open spec fn spawned_in<F>(turns: Seq<Turn<F>>) -> Seq<F>
    decreases turns.len(),
{
    if turns.len() == 0 {
        Seq::empty()
    } else {
        turns[0].spawned + spawned_in(turns.drop_first())
    }
}

/// Turns of a run, the first one after the poll of `task`: each has the outcome of a poll,
/// and none is taken after the end. A poll that leaves a task pending turns it only into
/// what `becomes` allows.
pub open spec fn is_run<F>(
    queue: Seq<F>,
    task: F,
    turns: Seq<Turn<F>>,
    becomes: spec_fn(F, F) -> bool,
) -> bool
    decreases turns.len(),
{
    turns.len() == 0 || {
        &&& turns[0].polled is Some
        &&& turns[0].polled matches Some(Polled::Pending(again)) ==> becomes(task, again)
        &&& match decided(queue, turns[0]) {
            Next::Poll(next) => is_run(
                queue_next(queue, turns[0]),
                next,
                turns.drop_first(),
                becomes,
            ),
            _ => turns.len() == 1,
        }
    }
}

/// A poll does not change the name of a task.
pub open spec fn same_name<F>(name: spec_fn(F) -> int) -> spec_fn(F, F) -> bool {
    |task: F, again: F| name(again) == name(task)
}

/// A poll that leaves a task pending brings it nearer to its end.
pub open spec fn lower_rank<F>(rank: spec_fn(F) -> nat) -> spec_fn(F, F) -> bool {
    |task: F, again: F| rank(again) < rank(task)
}

/// The tasks that are not done after turns of which the first one comes after the poll of
/// `task`.
pub open spec fn tasks_left<F>(queue: Seq<F>, task: F, turns: Seq<Turn<F>>) -> Seq<F>
    decreases turns.len(),
{
    if turns.len() == 0 {
        seq![task] + queue
    } else {
        match decided(queue, turns[0]) {
            Next::Poll(next) => tasks_left(queue_next(queue, turns[0]), next, turns.drop_first()),
            _ => Seq::empty(),
        }
    }
}

/// How often tasks of a name were polled, and how many of those polls completed one.
pub open spec fn polls_of<F>(
    queue: Seq<F>,
    task: F,
    turns: Seq<Turn<F>>,
    name: spec_fn(F) -> int,
    id: int,
) -> (nat, nat)
    decreases turns.len(),
{
    if turns.len() == 0 {
        (0, 0)
    } else {
        let polled = if name(task) == id {
            1nat
        } else {
            0nat
        };
        let done = if turns[0].polled matches Some(Polled::Ready) {
            polled
        } else {
            0
        };
        match decided(queue, turns[0]) {
            Next::Poll(next) => {
                let rest = polls_of(
                    queue_next(queue, turns[0]),
                    next,
                    turns.drop_first(),
                    name,
                    id,
                );
                (polled + rest.0, done + rest.1)
            },
            _ => (polled, done),
        }
    }
}

/// How many polls of tasks of a name left the task pending.
pub open spec fn pending_polls_of<F>(
    queue: Seq<F>,
    task: F,
    turns: Seq<Turn<F>>,
    name: spec_fn(F) -> int,
    id: int,
) -> nat
    decreases turns.len(),
{
    if turns.len() == 0 {
        0
    } else {
        let pending = if name(task) == id && turns[0].polled matches Some(Polled::Pending(_)) {
            1nat
        } else {
            0nat
        };
        match decided(queue, turns[0]) {
            Next::Poll(next) => pending + pending_polls_of(
                queue_next(queue, turns[0]),
                next,
                turns.drop_first(),
                name,
                id,
            ),
            _ => pending,
        }
    }
}

proof fn lemma_total_of_both<F>(a: Seq<F>, b: Seq<F>, of: spec_fn(F) -> nat)
    ensures
        total(a + b, of) == total(a, of) + total(b, of),
    decreases a.len(),
{
    if a.len() == 0 {
        assert(a + b =~= b);
    } else {
        lemma_total_of_both(a.drop_first(), b, of);
        assert((a + b).drop_first() =~= a.drop_first() + b);
    }
}

proof fn lemma_total_of_one<F>(task: F, of: spec_fn(F) -> nat)
    ensures
        total(seq![task], of) == of(task),
{
    assert(seq![task].drop_first() =~= Seq::empty());
    assert(total(seq![task].drop_first(), of) == 0);
}

/// What a turn does to a quantity of the tasks that are not done.
proof fn lemma_total_after_turn<F>(queue: Seq<F>, turn: Turn<F>, of: spec_fn(F) -> nat)
    ensures
        ({
            let back = match turn.polled {
                Some(Polled::Pending(again)) => of(again),
                _ => 0,
            };
            let left = match decided(queue, turn) {
                Next::Poll(next) => total(seq![next] + queue_next(queue, turn), of),
                _ => 0,
            };
            left == total(queue, of) + total(turn.spawned, of) + back
        }),
{
    let all = busy::returned(queue + turn.spawned, turn.polled);
    lemma_total_of_both(queue, turn.spawned, of);
    if let Some(Polled::Pending(again)) = turn.polled {
        assert(all =~= (queue + turn.spawned) + seq![again]);
        lemma_total_of_both(queue + turn.spawned, seq![again], of);
        lemma_total_of_one(again, of);
    }
    if all.len() > 0 {
        assert(seq![all[0]] + queue_next(queue, turn) =~= all);
    }
}

/// A run of tasks that make progress comes to its end: there are never more polls than the
/// ranks of all its tasks allow, and what the polls so far have used up is gone.
pub proof fn run_of_progressing_tasks_is_bounded<F>(
    queue: Seq<F>,
    task: F,
    turns: Seq<Turn<F>>,
    rank: spec_fn(F) -> nat,
)
    requires
        is_run(queue, task, turns, lower_rank(rank)),
    ensures
        ({
            let polls = |f: F| rank(f) + 1;
            turns.len() + total(tasks_left(queue, task, turns), polls) <= total(
                seq![task] + queue,
                polls,
            ) + total(spawned_in(turns), polls)
        }),
    decreases turns.len(),
{
    let polls = |f: F| rank(f) + 1;
    lemma_total_of_both(seq![task], queue, polls);
    lemma_total_of_one(task, polls);
    if turns.len() > 0 {
        let rest = turns.drop_first();
        lemma_total_after_turn(queue, turns[0], polls);
        lemma_total_of_both(turns[0].spawned, spawned_in(rest), polls);
        if let Next::Poll(next) = decided(queue, turns[0]) {
            run_of_progressing_tasks_is_bounded(queue_next(queue, turns[0]), next, rest, rank);
        }
    }
}

/// How many polls a task takes when a task of its name is left pending at most so often.
pub open spec fn polls_within<F>(
    name: spec_fn(F) -> int,
    pending: spec_fn(int) -> nat,
) -> spec_fn(F) -> nat {
    |task: F| pending(name(task)) + 1
}

proof fn lemma_polls_within<F>(
    tasks: Seq<F>,
    name: spec_fn(F) -> int,
    less: spec_fn(int) -> nat,
    more: spec_fn(int) -> nat,
)
    requires
        forall|id: int| #[trigger] less(id) <= more(id),
    ensures
        tasks.len() <= total(tasks, polls_within(name, less)) <= total(
            tasks,
            polls_within(name, more),
        ),
    decreases tasks.len(),
{
    if tasks.len() > 0 {
        lemma_polls_within(tasks.drop_first(), name, less, more);
        assert(less(name(tasks[0])) <= more(name(tasks[0])));
    }
}

/// A run comes to its end if each of its tasks is left pending only so often, however
/// little of that the task itself shows: there are never more polls than one for each time
/// it may be left pending and one to complete it, and one for each task that is left is
/// still to come.
pub proof fn run_of_tasks_rarely_pending_is_bounded<F>(
    queue: Seq<F>,
    task: F,
    turns: Seq<Turn<F>>,
    name: spec_fn(F) -> int,
    pending: spec_fn(int) -> nat,
)
    requires
        is_run(queue, task, turns, same_name(name)),
        forall|id: int| #[trigger]
            pending_polls_of(queue, task, turns, name, id) <= pending(id),
    ensures
        turns.len() + tasks_left(queue, task, turns).len() <= total(
            (seq![task] + queue) + spawned_in(turns),
            polls_within(name, pending),
        ),
    decreases turns.len(),
{
    let polls = polls_within(name, pending);
    lemma_total_of_both(seq![task] + queue, spawned_in(turns), polls);
    lemma_total_of_both(seq![task], queue, polls);
    lemma_total_of_one(task, polls);
    if turns.len() == 0 {
        lemma_polls_within(queue, name, pending, pending);
    } else {
        let rest = turns.drop_first();
        let next_queue = queue_next(queue, turns[0]);
        let own = name(task);
        assert(pending_polls_of(queue, task, turns, name, own) <= pending(own));
        let still: spec_fn(int) -> nat = if turns[0].polled matches Some(Polled::Pending(_)) {
            |id: int|
                if id == own {
                    (pending(own) - 1) as nat
                } else {
                    pending(id)
                }
        } else {
            pending
        };
        let polls_still = polls_within(name, still);
        assert forall|id: int| #[trigger] still(id) <= pending(id) by {}
        lemma_polls_within(queue, name, still, pending);
        lemma_polls_within(turns[0].spawned, name, still, pending);
        lemma_polls_within(spawned_in(rest), name, still, pending);
        lemma_total_of_both(turns[0].spawned, spawned_in(rest), polls);
        lemma_total_after_turn(queue, turns[0], polls_still);
        if let Next::Poll(next) = decided(queue, turns[0]) {
            assert forall|id: int| #[trigger]
                pending_polls_of(next_queue, next, rest, name, id) <= still(id) by {
                assert(pending_polls_of(queue, task, turns, name, id) <= pending(id));
            }
            run_of_tasks_rarely_pending_is_bounded(next_queue, next, rest, name, still);
            lemma_total_of_both(seq![next] + next_queue, spawned_in(rest), polls_still);
        }
    }
}

/// At every moment of a run the tasks that were there at its start or were spawned since are
/// those that completed and those that are left. The polls of a task are those that left it
/// pending and the one, if there was one yet, that completed it.
pub proof fn every_task_is_done_or_left<F>(
    queue: Seq<F>,
    task: F,
    turns: Seq<Turn<F>>,
    name: spec_fn(F) -> int,
    id: int,
)
    requires
        is_run(queue, task, turns, same_name(name)),
    ensures
        ({
            let (polls, done) = polls_of(queue, task, turns, name, id);
            &&& done + named(tasks_left(queue, task, turns), name, id) == named(
                seq![task] + queue,
                name,
                id,
            ) + named(spawned_in(turns), name, id)
            &&& polls == pending_polls_of(queue, task, turns, name, id) + done
        }),
    decreases turns.len(),
{
    let is_named = has_name(name, id);
    lemma_total_of_both(seq![task], queue, is_named);
    lemma_total_of_one(task, is_named);
    if turns.len() > 0 {
        let rest = turns.drop_first();
        lemma_total_after_turn(queue, turns[0], is_named);
        lemma_total_of_both(turns[0].spawned, spawned_in(rest), is_named);
        if let Next::Poll(next) = decided(queue, turns[0]) {
            every_task_is_done_or_left(queue_next(queue, turns[0]), next, rest, name, id);
        }
    }
}

/// A run that has come to its end has emptied the queue, and each of its tasks was done
/// exactly once. A task that was left pending `k` times was polled `k + 1` times.
pub proof fn every_task_completes_once<F>(
    queue: Seq<F>,
    task: F,
    turns: Seq<Turn<F>>,
    name: spec_fn(F) -> int,
    id: int,
)
    requires
        is_run(queue, task, turns, same_name(name)),
        turns.len() > 0,
        decided_at(queue, turns) is Finish,
        named((seq![task] + queue) + spawned_in(turns), name, id) == 1,
    ensures
        queue_at(queue, turns) == Seq::<F>::empty(),
        polls_of(queue, task, turns, name, id).1 == 1,
        polls_of(queue, task, turns, name, id).0 == pending_polls_of(queue, task, turns, name, id)
            + 1,
{
    every_task_is_done_or_left(queue, task, turns, name, id);
    lemma_total_of_both(seq![task] + queue, spawned_in(turns), has_name(name, id));
    run_goes_on_until_the_queue_is_empty(queue, task, turns, same_name(name));
}

/// A run does not stop early: a turn gives out a task as long as one is left, and ends the
/// run when none is.
pub proof fn run_goes_on_until_the_queue_is_empty<F>(
    queue: Seq<F>,
    task: F,
    turns: Seq<Turn<F>>,
    becomes: spec_fn(F, F) -> bool,
)
    requires
        is_run(queue, task, turns, becomes),
        turns.len() > 0,
    ensures
        match decided_at(queue, turns) {
            Next::Poll(next) => tasks_left(queue, task, turns) == seq![next] + queue_at(
                queue,
                turns,
            ),
            Next::Wait => false,
            Next::Finish => tasks_left(queue, task, turns).len() == 0 && queue_at(
                queue,
                turns,
            ).len() == 0,
        },
    decreases turns.len(),
{
    let next_queue = queue_next(queue, turns[0]);
    let rest = turns.drop_first();
    if let Next::Poll(next) = decided(queue, turns[0]) {
        if turns.len() > 1 {
            run_goes_on_until_the_queue_is_empty(next_queue, next, rest, becomes);
        } else {
            assert(queue_at(next_queue, rest) == next_queue);
            assert(tasks_left(next_queue, next, rest) == seq![next] + next_queue);
        }
    } else {
        assert(queue_at(next_queue, rest) == next_queue);
    }
}

/// How often a count is polled until it is done.
pub open spec fn polls_needed(future: CountFuture) -> nat {
    if future.count >= future.init {
        1
    } else {
        (future.init - future.count + 1) as nat
    }
}

/// How often the counts of a queue are polled in all.
pub open spec fn polls_in_all(queue: Seq<CountFuture>) -> nat
    decreases queue.len(),
{
    if queue.len() == 0 {
        0
    } else {
        polls_in_all(queue.drop_last()) + polls_needed(queue.last())
    }
}

/// What a count completes with.
pub open spec fn outcome(future: CountFuture) -> u64 {
    if future.count >= future.init {
        future.count
    } else {
        future.init
    }
}

/// What the executor is told of a count that it has had polled.
pub open spec fn count_polled(future: CountFuture) -> Polled<CountFuture> {
    match future.found() {
        Poll::Ready(_) => Polled::Ready,
        Poll::Pending => Polled::Pending(future.stepped()),
    }
}

/// A whole run over counts, from the turn that polls `task` on: the values with which
/// counts complete, in that order, and how many polls there are.
pub open spec fn run_counts(queue: Seq<CountFuture>, task: CountFuture) -> (Seq<u64>, nat)
    decreases polls_needed(task) + polls_in_all(queue),
{
    let polled = Some(count_polled(task));
    let completed = match task.found() {
        Poll::Ready(v) => seq![v],
        Poll::Pending => Seq::empty(),
    };
    proof {
        a_turn_takes_one_poll(queue, task);
    }
    match busy::step(queue, polled).next {
        Next::Poll(next) => {
            let rest = run_counts(busy::queue_after(queue, polled), next);
            (completed + rest.0, rest.1 + 1)
        },
        _ => (completed, 1),
    }
}

proof fn lemma_polls_from_front(queue: Seq<CountFuture>)
    requires
        queue.len() > 0,
    ensures
        polls_in_all(queue) == polls_needed(queue[0]) + polls_in_all(queue.drop_first()),
    decreases queue.len(),
{
    if queue.len() == 1 {
        assert(queue.drop_last() =~= Seq::empty());
        assert(queue.drop_first() =~= Seq::empty());
    } else {
        lemma_polls_from_front(queue.drop_last());
        assert(queue.drop_last().drop_first() =~= queue.drop_first().drop_last());
    }
}

/// Each turn takes one poll off what is still needed, and the run is over only when none is.
pub proof fn a_turn_takes_one_poll(queue: Seq<CountFuture>, task: CountFuture)
    ensures
        ({
            let polled = Some(count_polled(task));
            match busy::step(queue, polled).next {
                Next::Poll(next) => polls_needed(next) + polls_in_all(busy::queue_after(queue, polled)) + 1
                    == polls_needed(task) + polls_in_all(queue),
                _ => queue.len() == 0 && task.found() is Ready,
            }
        }),
{
    let polled = Some(count_polled(task));
    let all = busy::returned(queue, polled);
    if task.found() is Pending {
        assert(all.drop_last() =~= queue);
    }
    if all.len() > 0 {
        lemma_polls_from_front(all);
    }
}

/// A run over counts ends, and every count has then completed, exactly once and with the
/// number it counts to. No poll is wasted: a count to `n` takes `n + 1` of them.
pub proof fn all_counts_complete(queue: Seq<CountFuture>, task: CountFuture)
    ensures
        run_counts(queue, task).0.to_multiset() == (seq![task] + queue).map_values(
            |f: CountFuture| outcome(f),
        ).to_multiset(),
        run_counts(queue, task).1 == polls_needed(task) + polls_in_all(queue),
    decreases polls_needed(task) + polls_in_all(queue),
{
    broadcast use vstd::seq_lib::group_to_multiset_ensures;

    let value = |f: CountFuture| outcome(f);
    let polled = Some(count_polled(task));
    let all = busy::returned(queue, polled);
    a_turn_takes_one_poll(queue, task);
    let before = (seq![task] + queue).map_values(value);
    assert(before =~= seq![outcome(task)] + queue.map_values(value));
    vstd::seq_lib::lemma_multiset_commutative(seq![outcome(task)], queue.map_values(value));
    if all.len() == 0 {
        assert(before =~= seq![outcome(task)]);
    } else {
        let next = all[0];
        let later = busy::queue_after(queue, polled);
        all_counts_complete(later, next);
        assert(seq![next] + later =~= all);
        let rest = run_counts(later, next).0;
        if task.found() is Ready {
            let done = seq![task.count];
            assert(run_counts(queue, task).0 == done + rest);
            vstd::seq_lib::lemma_multiset_commutative(done, rest);
        } else {
            assert(run_counts(queue, task).0 =~= rest);
            assert(all.map_values(value) =~= queue.map_values(value).push(outcome(task)));
            assert(queue.map_values(value).push(outcome(task)) =~= queue.map_values(value) + seq![
                outcome(task),
            ]);
            vstd::seq_lib::lemma_multiset_commutative(
                queue.map_values(value),
                seq![outcome(task)],
            );
        }
    }
}

/// Tasks run side by side: of counts that start together, one that counts to a smaller
/// number never completes after one that counts to a larger.
pub proof fn shorter_counts_complete_first(queue: Seq<CountFuture>, task: CountFuture)
    requires
        task.count == 0,
        forall|i: int| 0 <= i < queue.len() ==> (#[trigger] queue[i]).count == 0,
    ensures
        forall|i: int, j: int|
            0 <= i <= j < run_counts(queue, task).0.len() ==> run_counts(queue, task).0[i]
                <= run_counts(queue, task).0[j],
{
    lemma_counts_in_phase(queue, task, 0, (queue.len() + 1) as int);
}

/// Counts in phase: the first `fresh` of the cycle stand at `at`, the others one further.
proof fn lemma_counts_in_phase(queue: Seq<CountFuture>, task: CountFuture, at: int, fresh: int)
    requires
        1 <= fresh <= queue.len() + 1,
        0 <= at,
        forall|i: int|
            0 <= i < queue.len() + 1 ==> {
                let f = #[trigger] (seq![task] + queue)[i];
                f.count <= f.init && f.count == (if i < fresh {
                    at
                } else {
                    at + 1
                })
            },
    ensures
        forall|i: int, j: int|
            0 <= i <= j < run_counts(queue, task).0.len() ==> run_counts(queue, task).0[i]
                <= run_counts(queue, task).0[j],
        forall|i: int|
            0 <= i < run_counts(queue, task).0.len() ==> at <= #[trigger] run_counts(
                queue,
                task,
            ).0[i],
    decreases polls_needed(task) + polls_in_all(queue),
{
    let cycle = seq![task] + queue;
    assert(cycle[0] == task);
    let polled = Some(count_polled(task));
    let all = busy::returned(queue, polled);
    a_turn_takes_one_poll(queue, task);
    assert forall|i: int| 0 <= i < queue.len() implies #[trigger] queue[i] == cycle[i + 1] by {}
    if all.len() > 0 {
        let next = all[0];
        let later = busy::queue_after(queue, polled);
        assert(seq![next] + later =~= all);
        if fresh > 1 {
            lemma_counts_in_phase(later, next, at, fresh - 1);
        } else {
            lemma_counts_in_phase(later, next, at + 1, all.len() as int);
        }
        let rest = run_counts(later, next).0;
        let completed = run_counts(queue, task).0;
        if task.found() is Ready {
            assert(completed == seq![task.count] + rest);
            assert forall|i: int| 1 <= i < completed.len() implies #[trigger] completed[i] == rest[i
                - 1] by {}
            assert(completed[0] == at);
        } else {
            assert(completed =~= rest);
        }
    } else {
        assert(run_counts(queue, task).0 == seq![task.count]);
    }
}

/// A turn neither loses nor makes up a task, and keeps their order: of the tasks of the
/// queue, with a pending one behind them, the first is given out and the others are left as
/// they stand. The run ends when there is none, and only then.
pub proof fn a_turn_gives_out_the_first_task<F>(queue: Seq<F>, polled: Option<Polled<F>>)
    ensures
        match polled {
            Some(Polled::Pending(task)) => {
                &&& busy::step(queue, polled).next is Poll
                &&& seq![busy::step(queue, polled).next->Poll_0] + busy::queue_after(queue, polled)
                    == queue + seq![task]
            },
            _ => {
                &&& queue.len() == 0 ==> busy::step(queue, polled).next is Finish
                    && busy::queue_after(queue, polled).len() == 0
                &&& queue.len() > 0 ==> busy::step(queue, polled).next is Poll && seq![
                    busy::step(queue, polled).next->Poll_0,
                ] + busy::queue_after(queue, polled) == queue
            },
        },
        busy::step(queue, polled).yields <==> polled is Some && busy::step(
            queue,
            polled,
        ).next is Poll,
{
    let all = busy::returned(queue, polled);
    if all.len() > 0 {
        assert(seq![all[0]] + all.drop_first() =~= all);
    }
    if let Some(Polled::Pending(task)) = polled {
        assert(queue.push(task) =~= queue + seq![task]);
    }
}

} // verus!
