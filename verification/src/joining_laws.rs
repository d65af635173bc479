//! What holds of a joining executor over a whole run.

use crate::busy_laws;
use crate::busy_laws::Turn;
use crate::joining::Tasks;
use crate::turn::{Next, Polled};
use vstd::prelude::*;

verus! {

/// After tasks have been spawned, one after the other.
pub open spec fn all_spawned<F>(t: Tasks<F>, tasks: Seq<F>) -> Tasks<F>
    decreases tasks.len(),
{
    if tasks.len() == 0 {
        t
    } else {
        all_spawned(t.spawned(tasks[0]), tasks.drop_first())
    }
}

/// The executor when a turn is about to decide.
pub open spec fn before_decision<F>(t: Tasks<F>, turn: Turn<F>) -> Tasks<F> {
    all_spawned(t, turn.spawned).reported(turn.polled)
}

/// The executor after turns, one after the other.
pub open spec fn after_turns<F>(t: Tasks<F>, turns: Seq<Turn<F>>) -> Tasks<F>
    decreases turns.len(),
{
    if turns.len() == 0 {
        t
    } else {
        after_turns(before_decision(t, turns[0]).advanced(), turns.drop_first())
    }
}

/// What the last of some turns decides.
pub open spec fn decided_at<F>(t: Tasks<F>, turns: Seq<Turn<F>>) -> Next<F>
    decreases turns.len(),
{
    if turns.len() <= 1 {
        before_decision(t, turns[0]).next()
    } else {
        decided_at(before_decision(t, turns[0]).advanced(), turns.drop_first())
    }
}

/// Turns in which one task is polled at a time: each has the outcome of a poll exactly if
/// a task is out.
pub open spec fn one_at_a_time<F>(t: Tasks<F>, turns: Seq<Turn<F>>) -> bool
    decreases turns.len(),
{
    turns.len() == 0 || {
        &&& t.out == (if turns[0].polled is Some { 1nat } else { 0nat })
        &&& one_at_a_time(before_decision(t, turns[0]).advanced(), turns.drop_first())
    }
}

proof fn lemma_all_spawned<F>(t: Tasks<F>, tasks: Seq<F>)
    ensures
        all_spawned(t, tasks) == (Tasks {
            queue: t.queue + tasks,
            remaining: t.remaining + tasks.len(),
            out: t.out,
        }),
    decreases tasks.len(),
{
    if tasks.len() == 0 {
        assert(t.queue + tasks =~= t.queue);
    } else {
        lemma_all_spawned(t.spawned(tasks[0]), tasks.drop_first());
        assert(t.queue.push(tasks[0]) + tasks.drop_first() =~= t.queue + tasks);
    }
}

/// A run decides, turn after turn and whatever is spawned meanwhile, as one that knows of
/// the queue alone. What holds of the busy executor's runs holds of these.
pub proof fn runs_as_the_busy_executor<F>(t: Tasks<F>, turns: Seq<Turn<F>>)
    requires
        t.wf(),
        one_at_a_time(t, turns),
    ensures
        after_turns(t, turns).wf(),
        after_turns(t, turns).queue == busy_laws::queue_at(t.queue, turns),
        turns.len() > 0 ==> {
            &&& decided_at(t, turns) == busy_laws::decided_at(t.queue, turns)
            &&& after_turns(t, turns).out == (if decided_at(t, turns) is Poll {
                1nat
            } else {
                0nat
            })
        },
    decreases turns.len(),
{
    if turns.len() > 0 {
        let turn = turns[0];
        lemma_all_spawned(t, turn.spawned);
        let later = before_decision(t, turn).advanced();
        assert(before_decision(t, turn).next() == busy_laws::decided(t.queue, turn));
        assert(later.queue == busy_laws::queue_next(t.queue, turn));
        runs_as_the_busy_executor(later, turns.drop_first());
        if turns.len() == 1 {
            assert(after_turns(later, turns.drop_first()) == later);
        }
    }
}

proof fn lemma_run_is_one_at_a_time<F>(
    t: Tasks<F>,
    task: F,
    turns: Seq<Turn<F>>,
    becomes: spec_fn(F, F) -> bool,
)
    requires
        t.wf(),
        t.out == 1,
        busy_laws::is_run(t.queue, task, turns, becomes),
    ensures
        one_at_a_time(t, turns),
    decreases turns.len(),
{
    if turns.len() > 0 {
        let turn = turns[0];
        lemma_all_spawned(t, turn.spawned);
        let later = before_decision(t, turn).advanced();
        assert(before_decision(t, turn).next() == busy_laws::decided(t.queue, turn));
        assert(later.queue == busy_laws::queue_next(t.queue, turn));
        if let Next::Poll(next) = busy_laws::decided(t.queue, turn) {
            lemma_run_is_one_at_a_time(later, next, turns.drop_first(), becomes);
        } else {
            assert(one_at_a_time(later, turns.drop_first()));
        }
    }
}

/// Tasks take turns. Once a task was put back, the tasks that were queued by then are each
/// polled once, in their order, before it is its turn again, whatever those polls come to
/// and whatever is spawned meanwhile.
pub proof fn tasks_take_turns<F>(t: Tasks<F>, task: F, turns: Seq<Turn<F>>)
    requires
        t.wf(),
        one_at_a_time(t, turns),
        1 <= turns.len() <= t.queue.len() + turns[0].spawned.len() + 1,
        turns[0].polled == Some(Polled::Pending(task)),
    ensures
        ({
            let before = t.queue + turns[0].spawned;
            &&& turns.len() <= before.len() ==> decided_at(t, turns) == Next::Poll(
                before[turns.len() - 1],
            )
            &&& turns.len() == before.len() + 1 ==> decided_at(t, turns) == Next::Poll(task)
        }),
{
    runs_as_the_busy_executor(t, turns);
    busy_laws::tasks_take_turns(t.queue, task, turns);
}

/// The count of unfinished tasks is right all along a run, and the run goes on as long as
/// there is one.
pub proof fn run_goes_on_until_no_task_is_left<F>(
    t: Tasks<F>,
    task: F,
    turns: Seq<Turn<F>>,
    becomes: spec_fn(F, F) -> bool,
)
    requires
        t.wf(),
        t.out == 1,
        busy_laws::is_run(t.queue, task, turns, becomes),
        turns.len() > 0,
    ensures
        after_turns(t, turns).remaining == busy_laws::tasks_left(t.queue, task, turns).len(),
        match decided_at(t, turns) {
            Next::Poll(_) => after_turns(t, turns).remaining > 0,
            Next::Wait => false,
            Next::Finish => after_turns(t, turns).remaining == 0,
        },
{
    lemma_run_is_one_at_a_time(t, task, turns, becomes);
    runs_as_the_busy_executor(t, turns);
    busy_laws::run_goes_on_until_the_queue_is_empty(t.queue, task, turns, becomes);
}

/// A run that has come to its end has emptied the queue, no task is left, and each of its
/// tasks was done exactly once. A task that was left pending `k` times was polled `k + 1`
/// times.
pub proof fn every_task_completes_once<F>(
    t: Tasks<F>,
    task: F,
    turns: Seq<Turn<F>>,
    name: spec_fn(F) -> int,
    id: int,
)
    requires
        t.wf(),
        t.out == 1,
        busy_laws::is_run(t.queue, task, turns, busy_laws::same_name(name)),
        turns.len() > 0,
        decided_at(t, turns) is Finish,
        busy_laws::named((seq![task] + t.queue) + busy_laws::spawned_in(turns), name, id) == 1,
    ensures
        after_turns(t, turns).queue == Seq::<F>::empty(),
        after_turns(t, turns).remaining == 0,
        busy_laws::polls_of(t.queue, task, turns, name, id).1 == 1,
        busy_laws::polls_of(t.queue, task, turns, name, id).0 == busy_laws::pending_polls_of(
            t.queue,
            task,
            turns,
            name,
            id,
        ) + 1,
{
    lemma_run_is_one_at_a_time(t, task, turns, busy_laws::same_name(name));
    runs_as_the_busy_executor(t, turns);
    busy_laws::every_task_completes_once(t.queue, task, turns, name, id);
}

/// A running executor never has to wait: as long as it polls one task at a time, the queue
/// is empty only when no task is left.
pub proof fn run_never_waits<F>(t: Tasks<F>, polled: Option<Polled<F>>)
    requires
        t.wf(),
        t.out == (if polled is Some { 1nat } else { 0nat }),
    ensures
        t.reported(polled).next() !is Wait,
        t.reported(polled).next() is Finish <==> t.reported(polled).queue.len() == 0,
        t.reported(polled).advanced().out == (if t.reported(polled).next() is Poll {
            1nat
        } else {
            0nat
        }),
{
}

/// A task is counted from when it is spawned until it is done: a poll that leaves it
/// pending keeps the count, one that completes it lowers it by one.
pub proof fn remaining_counts_unfinished_tasks<F>(t: Tasks<F>, task: F)
    requires
        t.wf(),
        t.out > 0,
    ensures
        t.spawned(task).remaining == t.remaining + 1,
        t.reported(Some(Polled::Pending(task))).advanced().remaining == t.remaining,
        t.reported(Some(Polled::Ready)).advanced().remaining == t.remaining - 1,
{
}

/// A spawned task goes behind all others and is counted.
pub proof fn spawned_task_is_queued_and_counted<F>(t: Tasks<F>, task: F)
    ensures
        t.spawned(task).queue == t.queue + seq![task],
        t.spawned(task).remaining == t.remaining + 1,
        t.spawned(task).out == t.out,
{
    assert(t.queue.push(task) =~= t.queue + seq![task]);
}

/// A turn neither loses nor makes up a task, and keeps their order: of the tasks of the
/// queue, with a pending one behind them, the first is given out and the others are left as
/// they stand. A task leaves the count when it is reported done, and only then; the run ends
/// when the count is zero, and only then.
pub proof fn a_turn_gives_out_the_first_task<F>(t: Tasks<F>, polled: Option<Polled<F>>)
    requires
        t.remaining == t.queue.len() + t.out,
        polled is Some ==> t.out > 0,
    ensures
        ({
            let next = t.reported(polled).next();
            let later = t.reported(polled).advanced();
            let all = match polled {
                Some(Polled::Pending(task)) => t.queue + seq![task],
                _ => t.queue,
            };
            &&& later.remaining == (if polled matches Some(Polled::Ready) {
                t.remaining - 1
            } else {
                t.remaining as int
            })
            &&& later.remaining == later.queue.len() + later.out
            &&& next is Finish <==> later.remaining == 0
            &&& next is Wait <==> later.remaining > 0 && all.len() == 0
            &&& next is Poll ==> seq![next->Poll_0] + later.queue == all
            &&& next !is Poll ==> later.queue == all
        }),
{
    let r = t.reported(polled);
    if let Some(Polled::Pending(task)) = polled {
        assert(t.queue.push(task) =~= t.queue + seq![task]);
    }
    if r.queue.len() > 0 {
        assert(seq![r.queue[0]] + r.queue.drop_first() =~= r.queue);
    }
}

} // verus!
