//! What holds of a timer across its operations.

use crate::schedule::Schedule;
use crate::timer::Sleep;
use vstd::prelude::*;

verus! {

/// An id is never given to two registrations: the next one is not in use, and no
/// operation ever lowers it.
pub proof fn ids_are_fresh<W>(s: Schedule<W>, when: u128, waker: W, id: u64, limit: int)
    requires
        s.wf(),
        s.next_id < u64::MAX,
    ensures
        !s.deadline_of.contains_key(s.next_id),
        s.registered(when, waker).next_id > s.next_id,
        s.updated(id, waker).next_id == s.next_id,
        s.cancelled(id).next_id == s.next_id,
        s.from_on(limit).next_id == s.next_id,
{
}

/// To cancel what has just been registered gives the lists and the deadlines back as they
/// were; of the new id nothing is left but that it is used up.
pub proof fn cancel_undoes_register<W>(s: Schedule<W>, when: u128, waker: W)
    requires
        s.wf(),
        s.next_id < u64::MAX,
    ensures
        s.registered(when, waker).cancelled(s.next_id) == (Schedule {
            wakers: s.wakers.remove(s.next_id),
            next_id: (s.next_id + 1) as u64,
            ..s
        }),
{
    let id = s.next_id;
    let r = s.registered(when, waker);
    let c = r.cancelled(id);
    let listed = s.list_at(when);
    let pushed = listed.push(id);
    assert(pushed[listed.len() as int] == id);
    assert forall|i: int| 0 <= i < listed.len() implies listed[i] != id by {
        assert(s.deadline_of.contains_key(s.lists[when][i]));
    }
    assert(pushed.index_of(id) == listed.len());
    assert(pushed.update(pushed.index_of(id), pushed.last()).drop_last() =~= listed);
    assert(c.lists =~= s.lists);
    assert(c.deadline_of =~= s.deadline_of);
    assert(c.wakers =~= s.wakers.remove(id));
}

/// To cancel twice is to cancel once.
pub proof fn cancel_twice_is_once<W>(s: Schedule<W>, id: u64)
    ensures
        s.cancelled(id).cancelled(id) == s.cancelled(id),
{
    let c = s.cancelled(id);
    assert(c.cancelled(id).wakers =~= c.wakers);
    assert(c.cancelled(id).deadline_of =~= c.deadline_of);
}

/// Of what waits, exactly that fires which is due: each id once, an earlier deadline
/// before a later one.
pub proof fn due_ids_fire_once_in_order<W>(s: Schedule<W>, limit: int)
    requires
        s.wf(),
        limit <= u128::MAX + 1,
    ensures
        forall|id: u64| s.ids_before(limit).contains(id) <==> #[trigger] s.is_before(id, limit),
        s.ids_before(limit).no_duplicates(),
        forall|i: int, j: int|
            0 <= i <= j < s.ids_before(limit).len() ==> s.deadline_of[#[trigger] s.ids_before(
                limit,
            )[i]] <= s.deadline_of[#[trigger] s.ids_before(limit)[j]],
    decreases limit,
{
    if limit > 0 {
        due_ids_fire_once_in_order(s, limit - 1);
        let d = (limit - 1) as u128;
        let head = s.ids_before(limit - 1);
        let tail = s.list_at(d);
        let all = s.ids_before(limit);
        assert(all == head + tail);
        assert forall|i: int| 0 <= i < head.len() implies s.is_before(#[trigger] head[i], limit - 1) by {
            assert(head.contains(head[i]));
        }
        assert forall|i: int| 0 <= i < tail.len() implies s.deadline_of.contains_key(
            #[trigger] tail[i],
        ) && s.deadline_of[tail[i]] == d by {
            assert(s.lists[d][i] == tail[i]);
        }
        assert forall|id: u64| all.contains(id) <==> #[trigger] s.is_before(id, limit) by {
            if all.contains(id) {
                let i = all.index_of(id);
                if i < head.len() {
                    assert(s.is_before(head[i], limit - 1));
                } else {
                    assert(s.deadline_of[tail[i - head.len()]] == d);
                }
            }
            if s.is_before(id, limit) {
                if s.deadline_of[id] == d {
                    let i = tail.index_of(id);
                    assert(tail[i] == id);
                    assert(all[head.len() + i] == id);
                } else {
                    assert(s.is_before(id, limit - 1));
                    let i = head.index_of(id);
                    assert(all[i] == id);
                }
            }
        }
        assert forall|i: int, j: int|
            0 <= i < all.len() && 0 <= j < all.len() && i != j implies all[i] != all[j] by {
            if i < head.len() {
                assert(s.is_before(head[i], limit - 1));
            } else {
                assert(s.deadline_of[tail[i - head.len()]] == d);
            }
            if j < head.len() {
                assert(s.is_before(head[j], limit - 1));
            } else {
                assert(s.deadline_of[tail[j - head.len()]] == d);
            }
            if i >= head.len() && j >= head.len() {
                assert(s.lists[d].no_duplicates());
            }
        }
        assert forall|i: int, j: int| 0 <= i <= j < all.len() implies s.deadline_of[#[trigger] all[i]]
            <= s.deadline_of[#[trigger] all[j]] by {
            if j >= head.len() {
                assert(s.deadline_of[tail[j - head.len()]] == d);
                if i < head.len() {
                    assert(s.is_before(head[i], limit - 1));
                } else {
                    assert(s.deadline_of[tail[i - head.len()]] == d);
                }
            } else {
                assert(all[i] == head[i] && all[j] == head[j]);
            }
        }
    }
}

/// What is not due stays: its deadline, its waker, its place in its list.
pub proof fn later_ids_stay<W>(s: Schedule<W>, limit: int, id: u64)
    requires
        s.wf(),
        s.deadline_of.contains_key(id),
        s.deadline_of[id] >= limit,
    ensures
        s.from_on(limit).deadline_of.contains_key(id),
        s.from_on(limit).deadline_of[id] == s.deadline_of[id],
        s.from_on(limit).wakers.contains_key(id),
        s.from_on(limit).wakers[id] == s.wakers[id],
        s.from_on(limit).list_at(s.deadline_of[id]) == s.list_at(s.deadline_of[id]),
{
}

/// To fire at two times, one after the other, calls the same wakers in the same order as
/// to fire at the later time alone, and leaves the same behind.
pub proof fn firing_in_steps_is_firing_at_once<W>(s: Schedule<W>, early: int, late: int)
    requires
        s.wf(),
        0 <= early <= late <= u128::MAX + 1,
    ensures
        s.wakers_before(late) == s.wakers_before(early) + s.from_on(early).wakers_before(late),
        s.from_on(late) == s.from_on(early).from_on(late),
{
    let t = s.from_on(early);
    assert(t.from_on(late).lists =~= s.from_on(late).lists);
    assert(t.from_on(late).wakers =~= s.from_on(late).wakers);
    assert(t.from_on(late).deadline_of =~= s.from_on(late).deadline_of);
    lemma_ids_split(s, early, late);
    crate::schedule::lemma_from_on_wf(s, early);
    due_ids_fire_once_in_order(t, late);
    let rest = t.ids_before(late);
    assert forall|i: int| 0 <= i < rest.len() implies t.wakers[#[trigger] rest[i]]
        == s.wakers[rest[i]] by {
        assert(rest.contains(rest[i]));
        assert(t.is_before(rest[i], late));
    }
    assert(s.wakers_before(late) =~= s.wakers_before(early) + t.wakers_before(late));
}

proof fn lemma_ids_split<W>(s: Schedule<W>, early: int, late: int)
    requires
        0 <= early <= late <= u128::MAX + 1,
    ensures
        s.ids_before(late) == s.ids_before(early) + s.from_on(early).ids_before(late),
    decreases late,
{
    let t = s.from_on(early);
    if late == early {
        crate::schedule::lemma_ids_before_gap(t, 0, early);
        assert(s.ids_before(late) =~= s.ids_before(early) + t.ids_before(late));
    } else {
        lemma_ids_split(s, early, late - 1);
        assert(t.list_at((late - 1) as u128) == s.list_at((late - 1) as u128));
        assert(s.ids_before(late) =~= s.ids_before(early) + t.ids_before(late));
    }
}

/// The waker that is called is the one that was left last.
pub proof fn last_waker_is_called<W>(s: Schedule<W>, id: u64, waker: W, limit: int)
    requires
        s.wf(),
        s.is_before(id, limit),
        limit <= u128::MAX + 1,
    ensures
        exists|i: int|
            0 <= i < s.ids_before(limit).len() && #[trigger] s.ids_before(limit)[i] == id
                && s.updated(id, waker).wakers_before(limit)[i] == waker,
{
    due_ids_fire_once_in_order(s, limit);
    lemma_same_lists(s, s.updated(id, waker), limit);
    let i = s.ids_before(limit).index_of(id);
    assert(s.ids_before(limit)[i] == id);
}

proof fn lemma_same_lists<W>(s: Schedule<W>, t: Schedule<W>, limit: int)
    requires
        s.lists == t.lists,
    ensures
        s.ids_before(limit) == t.ids_before(limit),
    decreases limit,
{
    if limit > 0 {
        lemma_same_lists(s, t, limit - 1);
    }
}

/// A sleep that has registered itself is woken once its deadline has come, and not before.
/// After that the timer knows nothing of it, so that its last poll has nothing to clear up.
pub proof fn sleep_is_woken_when_due<W>(s: Schedule<W>, when: u128, waker: W, now: u128)
    requires
        s.wf(),
        s.next_id < u64::MAX,
    ensures
        ({
            let id = s.next_id;
            let r = s.registered(when, waker);
            let ids = r.ids_before(now + 1);
            let left = r.from_on(now + 1);
            &&& ids.contains(id) <==> now >= when
            &&& now >= when ==> r.wakers_before(now + 1)[ids.index_of(id)] == waker
            &&& now >= when ==> left.cancelled(id) == left
            &&& now < when ==> left.deadline_of.contains_key(id) && left.wakers[id] == waker
        }),
{
    let id = s.next_id;
    let r = s.registered(when, waker);
    crate::schedule::lemma_registered_wf(s, when, waker);
    due_ids_fire_once_in_order(r, now + 1);
    let ids = r.ids_before(now + 1);
    let left = r.from_on(now + 1);
    assert(r.is_before(id, now + 1) <==> now >= when);
    if now >= when {
        assert(ids[ids.index_of(id)] == id);
        assert(left.cancelled(id).wakers =~= left.wakers);
        assert(left.cancelled(id).deadline_of =~= left.deadline_of);
        assert(left.cancelled(id).lists =~= left.lists);
    }
}

/// A waker that is left for an id that has fired already is forgotten when the id is
/// cancelled, and the timer is as the firing left it.
pub proof fn late_waker_is_cleared<W>(s: Schedule<W>, limit: int, id: u64, waker: W)
    requires
        s.wf(),
        s.is_before(id, limit),
    ensures
        s.from_on(limit).updated(id, waker).cancelled(id) == s.from_on(limit),
{
    let left = s.from_on(limit);
    let back = left.updated(id, waker).cancelled(id);
    assert(back.wakers =~= left.wakers);
    assert(back.deadline_of =~= left.deadline_of);
}

/// What has been cancelled does not fire, and its waker is forgotten.
pub proof fn cancelled_does_not_fire<W>(s: Schedule<W>, id: u64, limit: int)
    requires
        s.wf(),
        limit <= u128::MAX + 1,
    ensures
        !s.cancelled(id).ids_before(limit).contains(id),
        !s.cancelled(id).wakers.contains_key(id),
{
    crate::schedule::lemma_cancelled_wf(s, id);
    due_ids_fire_once_in_order(s.cancelled(id), limit);
    assert(!s.cancelled(id).is_before(id, limit));
}

/// To cancel one id keeps what others wait for: their deadlines and their wakers.
pub proof fn cancel_keeps_others<W>(s: Schedule<W>, id: u64, other: u64, limit: int)
    requires
        s.wf(),
        other != id,
        limit <= u128::MAX + 1,
    ensures
        s.cancelled(id).is_before(other, limit) <==> s.is_before(other, limit),
        s.cancelled(id).ids_before(limit).contains(other) <==> s.ids_before(limit).contains(other),
        s.wakers.contains_key(other) ==> s.cancelled(id).wakers.contains_key(other)
            && s.cancelled(id).wakers[other] == s.wakers[other],
{
    crate::schedule::lemma_cancelled_wf(s, id);
    due_ids_fire_once_in_order(s.cancelled(id), limit);
    due_ids_fire_once_in_order(s, limit);
    assert(s.cancelled(id).is_before(other, limit) <==> s.is_before(other, limit));
}

/// To register, or to replace the waker of one id, keeps what others wait for: their
/// deadlines and their wakers.
pub proof fn register_and_update_keep_others<W>(
    s: Schedule<W>,
    when: u128,
    waker: W,
    id: u64,
    other: u64,
)
    requires
        s.wf(),
        s.next_id < u64::MAX,
        s.deadline_of.contains_key(other),
    ensures
        s.registered(when, waker).deadline_of.contains_key(other),
        s.registered(when, waker).deadline_of[other] == s.deadline_of[other],
        s.registered(when, waker).wakers[other] == s.wakers[other],
        s.updated(id, waker).deadline_of == s.deadline_of,
        other != id ==> s.updated(id, waker).wakers[other] == s.wakers[other],
{
}

/// Those that register for one deadline fire in the order in which they registered.
pub proof fn same_deadline_fires_in_order<W>(s: Schedule<W>, when: u128, first: W, second: W)
    requires
        s.wf(),
        s.next_id < u64::MAX - 1,
    ensures
        s.registered(when, first).registered(when, second).list_at(when) == s.list_at(when).push(
            s.next_id,
        ).push((s.next_id + 1) as u64),
{
}

/// A worker that waits for the first deadline misses nothing: nothing is due before. What
/// happens in the meantime either brings no earlier deadline or, being a registration, has
/// the worker notified.
pub proof fn waiting_misses_nothing<W>(s: Schedule<W>, when: u128, id: u64, waker: W)
    requires
        s.wf(),
        s.is_earliest(when as int),
    ensures
        s.ids_before(when as int) == Seq::<u64>::empty(),
        s.updated(id, waker).ids_before(when as int) == Seq::<u64>::empty(),
        s.cancelled(id).ids_before(when as int) == Seq::<u64>::empty(),
{
    crate::schedule::lemma_ids_before_gap(s, 0, when as int);
    lemma_same_lists(s, s.updated(id, waker), when as int);
    let c = s.cancelled(id);
    assert forall|d: u128| 0 <= d < when implies !#[trigger] c.lists.contains_key(d) by {
        if c.lists.contains_key(d) {
            assert(s.lists.contains_key(d)) by {
                if s.deadline_of.contains_key(id) {
                    assert(s.lists.contains_key(s.deadline_of[id]));
                }
            }
        }
    }
    crate::schedule::lemma_ids_before_gap(c, 0, when as int);
}

/// One operation on a timer.
pub ghost enum Operation<W> {
    Register { when: u128, waker: W },
    Update { id: u64, waker: W },
    Cancel { id: u64 },
    /// The worker takes a turn at this time and finds something due.
    Fire { now: u128 },
    Stop,
}

/// The timer after one operation.
pub open spec fn applied<W>(s: Schedule<W>, op: Operation<W>) -> Schedule<W> {
    match op {
        Operation::Register { when, waker } => s.registered(when, waker),
        Operation::Update { id, waker } => s.updated(id, waker),
        Operation::Cancel { id } => s.cancelled(id),
        Operation::Fire { now } => s.from_on(now + 1),
        Operation::Stop => Schedule { shutdown: true, ..s },
    }
}

/// The timer after operations, one after the other.
pub open spec fn after_all<W>(s: Schedule<W>, ops: Seq<Operation<W>>) -> Schedule<W>
    decreases ops.len(),
{
    if ops.len() == 0 {
        s
    } else {
        applied(after_all(s, ops.drop_last()), ops.last())
    }
}

/// Whether operations can happen one after the other: a registration needs an id.
pub open spec fn all_allowed<W>(s: Schedule<W>, ops: Seq<Operation<W>>) -> bool
    decreases ops.len(),
{
    ops.len() == 0 || {
        &&& all_allowed(s, ops.drop_last())
        &&& ops.last() is Register ==> after_all(s, ops.drop_last()).next_id < u64::MAX
    }
}

/// The waker of `id` after operations, when it was `waker` before.
pub open spec fn waker_after<W>(waker: W, id: u64, ops: Seq<Operation<W>>) -> W
    decreases ops.len(),
{
    if ops.len() == 0 {
        waker
    } else {
        match ops.last() {
            Operation::Update { id: other, waker: new } if other == id => new,
            _ => waker_after(waker, id, ops.drop_last()),
        }
    }
}

/// Whether an operation leaves a registration for `when` under `id` alone: it neither
/// cancels it nor fires at its time or later.
pub open spec fn spares<W>(op: Operation<W>, id: u64, when: u128) -> bool {
    match op {
        Operation::Cancel { id: other } => other != id,
        Operation::Fire { now } => now < when,
        _ => true,
    }
}

/// Whatever is done to a timer, its tables agree with each other.
pub proof fn tables_always_agree<W>(s: Schedule<W>, ops: Seq<Operation<W>>)
    requires
        s.wf(),
        all_allowed(s, ops),
    ensures
        after_all(s, ops).wf(),
        s.next_id <= after_all(s, ops).next_id,
    decreases ops.len(),
{
    if ops.len() > 0 {
        tables_always_agree(s, ops.drop_last());
        let t = after_all(s, ops.drop_last());
        match ops.last() {
            Operation::Register { when, waker } => {
                crate::schedule::lemma_registered_wf(t, when, waker);
            },
            Operation::Update { id, waker } => {
                crate::schedule::lemma_same_tables_wf(t, t.updated(id, waker));
            },
            Operation::Cancel { id } => {
                crate::schedule::lemma_cancelled_wf(t, id);
            },
            Operation::Fire { now } => {
                crate::schedule::lemma_from_on_wf(t, now + 1);
            },
            Operation::Stop => {
                crate::schedule::lemma_same_tables_wf(t, Schedule { shutdown: true, ..t });
            },
        }
    }
}

/// A registration stays, whatever else happens, until it is cancelled or its time has come,
/// and the waker that was left last is held for it.
pub proof fn registration_stays<W>(s: Schedule<W>, id: u64, ops: Seq<Operation<W>>)
    requires
        s.wf(),
        all_allowed(s, ops),
        s.deadline_of.contains_key(id),
        forall|i: int|
            0 <= i < ops.len() ==> spares(#[trigger] ops[i], id, s.deadline_of[id]),
    ensures
        after_all(s, ops).deadline_of.contains_key(id),
        after_all(s, ops).deadline_of[id] == s.deadline_of[id],
        after_all(s, ops).wakers.contains_key(id),
        after_all(s, ops).wakers[id] == waker_after(s.wakers[id], id, ops),
    decreases ops.len(),
{
    if ops.len() > 0 {
        let before = ops.drop_last();
        assert forall|i: int| 0 <= i < before.len() implies spares(
            #[trigger] before[i],
            id,
            s.deadline_of[id],
        ) by {
            assert(before[i] == ops[i]);
        }
        registration_stays(s, id, before);
        tables_always_agree(s, before);
        let t = after_all(s, before);
        assert(spares(ops[ops.len() - 1], id, s.deadline_of[id]));
        assert(id < s.next_id <= t.next_id);
    }
}

/// A registration that was not cancelled fires: unless the worker was told to stop, its
/// first turn that is not too early finds the deadline due and calls the waker that was left
/// last.
pub proof fn registration_fires_when_its_time_has_come<W>(
    s: Schedule<W>,
    id: u64,
    ops: Seq<Operation<W>>,
    now: u128,
)
    requires
        s.wf(),
        all_allowed(s, ops),
        s.deadline_of.contains_key(id),
        forall|i: int|
            0 <= i < ops.len() ==> spares(#[trigger] ops[i], id, s.deadline_of[id]),
        now >= s.deadline_of[id],
        !s.shutdown,
        forall|i: int| 0 <= i < ops.len() ==> (#[trigger] ops[i]) !is Stop,
    ensures
        ({
            let t = after_all(s, ops);
            let ids = t.ids_before(now + 1);
            &&& t.fires_at(now)
            &&& ids.contains(id)
            &&& t.wakers_before(now + 1)[ids.index_of(id)] == waker_after(s.wakers[id], id, ops)
        }),
{
    registration_stays(s, id, ops);
    tables_always_agree(s, ops);
    worker_is_stopped_only_by_a_stop(s, ops);
    let t = after_all(s, ops);
    due_ids_fire_once_in_order(t, now + 1);
    assert(t.is_before(id, now + 1));
    let ids = t.ids_before(now + 1);
    assert(ids[ids.index_of(id)] == id);
}

/// An id that has fired or been cancelled is spent: whatever happens after that, it never
/// fires again.
pub proof fn spent_id_never_fires<W>(
    s: Schedule<W>,
    id: u64,
    ops: Seq<Operation<W>>,
    limit: int,
)
    requires
        s.wf(),
        all_allowed(s, ops),
        id < s.next_id,
        !s.deadline_of.contains_key(id),
        limit <= u128::MAX + 1,
    ensures
        !after_all(s, ops).deadline_of.contains_key(id),
        !after_all(s, ops).ids_before(limit).contains(id),
    decreases ops.len(),
{
    tables_always_agree(s, ops);
    if ops.len() > 0 {
        spent_id_never_fires(s, id, ops.drop_last(), limit);
        tables_always_agree(s, ops.drop_last());
    }
    due_ids_fire_once_in_order(after_all(s, ops), limit);
    assert(!after_all(s, ops).is_before(id, limit));
}

/// A new timer has nothing registered, nobody to call and no order to stop. Its first id is
/// one.
pub proof fn new_timer_is_empty<W>()
    ensures
        forall|d: u128| !#[trigger] Schedule::<W>::empty().lists.contains_key(d),
        forall|id: u64| !#[trigger] Schedule::<W>::empty().wakers.contains_key(id),
        forall|id: u64| !#[trigger] Schedule::<W>::empty().deadline_of.contains_key(id),
        Schedule::<W>::empty().next_id == 1,
        !Schedule::<W>::empty().shutdown,
{
}

/// The tables agree: whatever waits has a waker and stands in the list of its own deadline,
/// in one place; whatever stands in a list waits for the deadline of the list.
pub proof fn what_waits_is_listed<W>(s: Schedule<W>)
    requires
        s.wf(),
    ensures
        forall|id: u64| #[trigger]
            s.deadline_of.contains_key(id) ==> {
                &&& id < s.next_id
                &&& s.wakers.contains_key(id)
                &&& s.lists.contains_key(s.deadline_of[id])
                &&& s.lists[s.deadline_of[id]].contains(id)
            },
        forall|d: u128, i: int|
            #![trigger s.lists[d][i]]
            s.lists.contains_key(d) && 0 <= i < s.lists[d].len() ==> s.deadline_of.contains_key(
                s.lists[d][i],
            ) && s.deadline_of[s.lists[d][i]] == d,
        forall|d: u128, i: int, j: int|
            #![trigger s.lists[d][i], s.lists[d][j]]
            s.lists.contains_key(d) && 0 <= i < j < s.lists[d].len() ==> s.lists[d][i]
                != s.lists[d][j],
        forall|d: u128| #[trigger] s.lists.contains_key(d) ==> s.lists[d].len() > 0,
{
    assert forall|d: u128, i: int, j: int|
        #![trigger s.lists[d][i], s.lists[d][j]]
        s.lists.contains_key(d) && 0 <= i < j < s.lists[d].len() implies s.lists[d][i]
        != s.lists[d][j] by {
        assert(s.lists[d].no_duplicates());
    }
}

/// A registration takes the next id, and only that: it waits for the deadline, last in its
/// list, with the waker. Nothing else changes.
pub proof fn register_adds_one_waker<W>(s: Schedule<W>, when: u128, waker: W)
    requires
        s.next_id < u64::MAX,
    ensures
        ({
            let id = s.next_id;
            let r = s.registered(when, waker);
            &&& r.next_id == s.next_id + 1
            &&& r.shutdown == s.shutdown
            &&& r.deadline_of.contains_key(id) && r.deadline_of[id] == when
            &&& r.deadline_of.remove(id) == s.deadline_of.remove(id)
            &&& r.wakers.contains_key(id) && r.wakers[id] == waker
            &&& r.wakers.remove(id) == s.wakers.remove(id)
            &&& r.lists.contains_key(when)
            &&& s.lists.contains_key(when) ==> r.lists[when] == s.lists[when] + seq![id]
            &&& !s.lists.contains_key(when) ==> r.lists[when] == seq![id]
            &&& r.lists.remove(when) == s.lists.remove(when)
        }),
{
    let id = s.next_id;
    let r = s.registered(when, waker);
    assert(r.deadline_of.remove(id) =~= s.deadline_of.remove(id));
    assert(r.wakers.remove(id) =~= s.wakers.remove(id));
    assert(r.lists.remove(when) =~= s.lists.remove(when));
    if s.lists.contains_key(when) {
        assert(r.lists[when] =~= s.lists[when] + seq![id]);
    } else {
        assert(r.lists[when] =~= seq![id]);
    }
}

/// To replace a waker changes the waker of that id, and nothing else.
pub proof fn update_changes_one_waker<W>(s: Schedule<W>, id: u64, waker: W)
    ensures
        ({
            let u = s.updated(id, waker);
            &&& u.wakers.contains_key(id) && u.wakers[id] == waker
            &&& u.wakers.remove(id) == s.wakers.remove(id)
            &&& u.lists == s.lists
            &&& u.deadline_of == s.deadline_of
            &&& u.next_id == s.next_id
            &&& u.shutdown == s.shutdown
        }),
{
    assert(s.updated(id, waker).wakers.remove(id) =~= s.wakers.remove(id));
}

/// To cancel takes out one id: its deadline, its waker and its place in the list, which the
/// last of the list takes. A list that holds nothing any more goes. Nothing else changes.
pub proof fn cancel_takes_out_one_id<W>(s: Schedule<W>, id: u64)
    requires
        s.wf(),
    ensures
        ({
            let c = s.cancelled(id);
            &&& !c.deadline_of.contains_key(id)
            &&& c.deadline_of == s.deadline_of.remove(id)
            &&& !c.wakers.contains_key(id)
            &&& c.wakers == s.wakers.remove(id)
            &&& c.next_id == s.next_id
            &&& c.shutdown == s.shutdown
            &&& !s.deadline_of.contains_key(id) ==> c.lists == s.lists
        }),
        s.deadline_of.contains_key(id) ==> ({
            let c = s.cancelled(id);
            let d = s.deadline_of[id];
            &&& c.lists.remove(d) == s.lists.remove(d)
            &&& c.lists.contains_key(d) <==> s.lists[d].len() > 1
            &&& c.lists.contains_key(d) ==> c.lists[d].len() == s.lists[d].len() - 1 && forall|
                at: int,
                i: int,
            |
                #![trigger s.lists[d][at], c.lists[d][i]]
                0 <= at < s.lists[d].len() && s.lists[d][at] == id && 0 <= i < c.lists[d].len()
                    ==> c.lists[d][i] == (if i == at {
                    s.lists[d][s.lists[d].len() - 1]
                } else {
                    s.lists[d][i]
                })
        }),
{
    let c = s.cancelled(id);
    if s.deadline_of.contains_key(id) {
        let d = s.deadline_of[id];
        let listed = s.lists[d];
        let place = listed.index_of(id);
        assert(listed[place] == id);
        assert(c.lists.remove(d) =~= s.lists.remove(d));
        assert forall|at: int| 0 <= at < listed.len() && #[trigger] listed[at] == id implies at
            == place by {
            assert(listed.no_duplicates());
        }
    }
}

/// Firing takes out what waits for a deadline before the limit, and nothing else: what waits
/// longer stays as it is, and so does the order to stop.
pub proof fn firing_takes_out_what_is_due<W>(s: Schedule<W>, limit: int)
    ensures
        ({
            let f = s.from_on(limit);
            &&& f.next_id == s.next_id
            &&& f.shutdown == s.shutdown
            &&& forall|d: u128| #[trigger]
                f.lists.contains_key(d) <==> s.lists.contains_key(d) && d >= limit
            &&& forall|d: u128| #[trigger]
                f.lists.contains_key(d) ==> f.lists[d] == s.lists[d]
            &&& forall|id: u64| #[trigger]
                f.deadline_of.contains_key(id) <==> s.deadline_of.contains_key(id)
                    && s.deadline_of[id] >= limit
            &&& forall|id: u64| #[trigger]
                f.deadline_of.contains_key(id) ==> f.deadline_of[id] == s.deadline_of[id]
            &&& forall|id: u64| #[trigger]
                f.wakers.contains_key(id) <==> s.wakers.contains_key(id) && !(
                s.deadline_of.contains_key(id) && s.deadline_of[id] < limit)
            &&& forall|id: u64| #[trigger]
                f.wakers.contains_key(id) ==> f.wakers[id] == s.wakers[id]
        }),
{
}

/// A worker calls wakers at a time exactly if it has not been told to stop and something
/// waits for that time or an earlier one. It waits for work exactly if nothing waits, and
/// else for the first deadline that something waits for.
pub proof fn worker_goes_by_what_waits<W>(s: Schedule<W>, now: u128, when: int)
    requires
        s.wf(),
    ensures
        s.fires_at(now) <==> !s.shutdown && exists|id: u64| #[trigger]
            s.deadline_of.contains_key(id) && s.deadline_of[id] <= now,
        s.lists.is_empty() <==> forall|id: u64| !#[trigger] s.deadline_of.contains_key(id),
        s.is_earliest(when) <==> (exists|id: u64| #[trigger]
            s.deadline_of.contains_key(id) && s.deadline_of[id] == when) && forall|id: u64|
            #[trigger] s.deadline_of.contains_key(id) ==> when <= s.deadline_of[id],
{
    assert forall|d: u128| #[trigger] s.lists.contains_key(d) implies s.deadline_of.contains_key(
        s.lists[d][0],
    ) && s.deadline_of[s.lists[d][0]] == d by {
        assert(s.lists[d].len() > 0);
    }
    assert forall|id: u64| #[trigger] s.deadline_of.contains_key(id) implies s.lists.contains_key(
        s.deadline_of[id],
    ) by {}
    if s.lists.is_empty() {
        assert forall|id: u64| !#[trigger] s.deadline_of.contains_key(id) by {
            if s.deadline_of.contains_key(id) {
                assert(s.lists.dom().contains(s.deadline_of[id]));
            }
        }
    } else {
        let d = s.lists.dom().choose();
        assert(s.lists.contains_key(d));
    }
    if s.is_earliest(when) {
        let d = choose|d: u128| d == when && #[trigger] s.lists.contains_key(d);
        assert(s.deadline_of.contains_key(s.lists[d][0]));
    }
}

/// The wakers that are called before a limit are those of the ids that wait for less: each
/// once, an earlier deadline before a later one, and for one deadline in the order of its
/// list.
pub proof fn due_wakers_are_called_in_order<W>(s: Schedule<W>, limit: int)
    requires
        s.wf(),
        limit <= u128::MAX + 1,
    ensures
        ({
            let ids = s.ids_before(limit);
            let called = s.wakers_before(limit);
            &&& called.len() == ids.len()
            &&& forall|i: int| 0 <= i < ids.len() ==> #[trigger] called[i] == s.wakers[ids[i]]
            &&& forall|id: u64|
                ids.contains(id) <==> #[trigger] s.deadline_of.contains_key(id)
                    && s.deadline_of[id] < limit
            &&& forall|i: int, j: int|
                #![trigger ids[i], ids[j]]
                0 <= i < j < ids.len() ==> ids[i] != ids[j] && s.deadline_of[ids[i]]
                    <= s.deadline_of[ids[j]]
            &&& forall|i: int, j: int, p: int, q: int|
                #![trigger ids[i], ids[j], s.lists[s.deadline_of[ids[i]]][p], s.lists[s.deadline_of[ids[j]]][q]]
                0 <= i < j < ids.len() && s.deadline_of[ids[i]] == s.deadline_of[ids[j]] && 0 <= p
                    < s.lists[s.deadline_of[ids[i]]].len() && 0 <= q
                    < s.lists[s.deadline_of[ids[j]]].len() && s.lists[s.deadline_of[ids[i]]][p]
                    == ids[i] && s.lists[s.deadline_of[ids[j]]][q] == ids[j] ==> p < q
        }),
{
    due_ids_fire_once_in_order(s, limit);
    let ids = s.ids_before(limit);
    assert forall|id: u64|
        ids.contains(id) <==> #[trigger] s.deadline_of.contains_key(id) && s.deadline_of[id]
            < limit by {
        assert(s.is_before(id, limit) <==> s.deadline_of.contains_key(id) && s.deadline_of[id]
            < limit);
    }
    assert forall|i: int, j: int, p: int, q: int|
        #![trigger ids[i], ids[j], s.lists[s.deadline_of[ids[i]]][p], s.lists[s.deadline_of[ids[j]]][q]]
        0 <= i < j < ids.len() && s.deadline_of[ids[i]] == s.deadline_of[ids[j]] && 0 <= p
            < s.lists[s.deadline_of[ids[i]]].len() && 0 <= q < s.lists[s.deadline_of[ids[j]]].len()
            && s.lists[s.deadline_of[ids[i]]][p] == ids[i] && s.lists[s.deadline_of[ids[j]]][q]
            == ids[j] implies p < q by {
        lemma_list_order(s, limit, i, j, p, q);
    }
}

proof fn lemma_list_order<W>(s: Schedule<W>, limit: int, i: int, j: int, p: int, q: int)
    requires
        s.wf(),
        limit <= u128::MAX + 1,
        0 <= i < j < s.ids_before(limit).len(),
        s.deadline_of[s.ids_before(limit)[i]] == s.deadline_of[s.ids_before(limit)[j]],
        0 <= p < s.lists[s.deadline_of[s.ids_before(limit)[i]]].len(),
        0 <= q < s.lists[s.deadline_of[s.ids_before(limit)[j]]].len(),
        s.lists[s.deadline_of[s.ids_before(limit)[i]]][p] == s.ids_before(limit)[i],
        s.lists[s.deadline_of[s.ids_before(limit)[j]]][q] == s.ids_before(limit)[j],
    ensures
        p < q,
    decreases limit,
{
    let d = (limit - 1) as u128;
    let head = s.ids_before(limit - 1);
    let tail = s.list_at(d);
    let ids = s.ids_before(limit);
    due_ids_fire_once_in_order(s, limit - 1);
    if j < head.len() {
        lemma_list_order(s, limit - 1, i, j, p, q);
    } else {
        assert(ids[j] == tail[j - head.len()]);
        assert(s.lists[d][j - head.len()] == ids[j]);
        assert(s.deadline_of[ids[j]] == d);
        assert(s.lists[d].no_duplicates());
        if i < head.len() {
            assert(head.contains(head[i]));
            assert(s.is_before(head[i], limit - 1));
        } else {
            assert(s.lists[d][i - head.len()] == ids[i]);
        }
    }
}

/// The worker is told to stop by a stop, and by nothing else.
pub proof fn worker_is_stopped_only_by_a_stop<W>(s: Schedule<W>, ops: Seq<Operation<W>>)
    ensures
        after_all(s, ops).shutdown <==> s.shutdown || exists|i: int|
            0 <= i < ops.len() && (#[trigger] ops[i]) is Stop,
    decreases ops.len(),
{
    if ops.len() > 0 {
        let before = ops.drop_last();
        worker_is_stopped_only_by_a_stop(s, before);
        assert(ops[ops.len() - 1] == ops.last());
        if exists|i: int| 0 <= i < before.len() && (#[trigger] before[i]) is Stop {
            let i = choose|i: int| 0 <= i < before.len() && (#[trigger] before[i]) is Stop;
            assert(ops[i] is Stop);
        }
        if after_all(s, ops).shutdown == false {
            assert forall|i: int| 0 <= i < ops.len() implies (#[trigger] ops[i]) !is Stop by {
                if i < before.len() {
                    assert(before[i] == ops[i]);
                }
            }
        }
    }
}

/// Who waits is called when the time has come, with the waker that was left last, whether
/// that one was just replaced, something else was registered or another was cancelled.
pub proof fn what_is_due_is_called_whatever_was_done<W>(
    s: Schedule<W>,
    id: u64,
    now: u128,
    waker: W,
    other: u64,
    when: u128,
)
    requires
        s.wf(),
        !s.shutdown,
        s.deadline_of.contains_key(id),
        s.deadline_of[id] <= now,
        other != id,
        s.next_id < u64::MAX,
    ensures
        s.fires_at(now),
        s.wakers_before(now + 1).contains(s.wakers[id]),
        s.updated(id, waker).fires_at(now),
        s.updated(id, waker).wakers_before(now + 1).contains(waker),
        s.updated(id, waker).wakers_before(now + 1).len() == s.wakers_before(now + 1).len(),
        s.cancelled(other).fires_at(now),
        s.cancelled(other).wakers_before(now + 1).contains(s.wakers[id]),
        s.registered(when, waker).fires_at(now),
        s.registered(when, waker).wakers_before(now + 1).contains(s.wakers[id]),
{
    crate::schedule::lemma_same_tables_wf(s, s.updated(id, waker));
    crate::schedule::lemma_cancelled_wf(s, other);
    crate::schedule::lemma_registered_wf(s, when, waker);
    lemma_due_waker_is_called(s, id, now);
    lemma_due_waker_is_called(s.updated(id, waker), id, now);
    lemma_due_waker_is_called(s.cancelled(other), id, now);
    lemma_due_waker_is_called(s.registered(when, waker), id, now);
    lemma_same_lists(s, s.updated(id, waker), now + 1);
}

proof fn lemma_due_waker_is_called<W>(s: Schedule<W>, id: u64, now: u128)
    requires
        s.wf(),
        !s.shutdown,
        s.deadline_of.contains_key(id),
        s.deadline_of[id] <= now,
    ensures
        s.fires_at(now),
        s.wakers_before(now + 1).contains(s.wakers[id]),
{
    worker_goes_by_what_waits(s, now, 0);
    due_wakers_are_called_in_order(s, now + 1);
    let ids = s.ids_before(now + 1);
    assert(ids.contains(id));
    let i = ids.index_of(id);
    assert(ids[i] == id);
    assert(s.wakers_before(now + 1)[i] == s.wakers[id]);
}

/// To give up a sleep takes its registration out, if it has one, and nothing else.
pub proof fn given_up_sleep_is_forgotten<W>(sleep: Sleep, s: Schedule<W>)
    requires
        s.wf(),
    ensures
        sleep.cleared(s).shutdown == s.shutdown,
        sleep.cleared(s).next_id == s.next_id,
        match sleep.ticket() {
            None => sleep.cleared(s) == s,
            Some(id) => {
                &&& sleep.cleared(s).deadline_of == s.deadline_of.remove(id)
                &&& sleep.cleared(s).wakers == s.wakers.remove(id)
                &&& sleep.cleared(s) == s.cancelled(id)
            },
        },
{
}

} // verus!
