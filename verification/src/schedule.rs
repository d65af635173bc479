//! What a timer holds, as plain maps, and what its operations make of it.

use vstd::prelude::*;

verus! {

/// The content of a timer, as plain maps.
#[verifier::ext_equal]
pub ghost struct Schedule<W> {
    /// For each deadline, the ids registered for it, in the order in which they fire.
    pub lists: Map<u128, Seq<u64>>,
    /// The waker held for an id.
    pub wakers: Map<u64, W>,
    /// The deadline of each id that has neither fired nor been cancelled.
    pub deadline_of: Map<u64, u128>,
    /// The id that the next registration gets.
    pub next_id: u64,
    /// Whether the worker has been told to stop.
    pub shutdown: bool,
}

impl<W> Schedule<W> {
    /// The ids registered for a deadline.
    pub open spec fn list_at(self, when: u128) -> Seq<u64> {
        if self.lists.contains_key(when) {
            self.lists[when]
        } else {
            Seq::empty()
        }
    }

    /// The tables agree: an id stands in exactly the list of its own deadline, once,
    /// has a waker, and was handed out before; no list is empty.
    pub open spec fn wf(self) -> bool {
        &&& forall|d: u128, i: int|
            #![trigger self.lists[d][i]]
            self.lists.contains_key(d) && 0 <= i < self.lists[d].len()
                ==> self.deadline_of.contains_key(self.lists[d][i])
                && self.deadline_of[self.lists[d][i]] == d
        &&& forall|d: u128|
            #![trigger self.lists[d]]
            self.lists.contains_key(d) ==> self.lists[d].len() > 0 && self.lists[d].no_duplicates()
        &&& forall|id: u64|
            #![trigger self.deadline_of[id]]
            #![trigger self.deadline_of.contains_key(id)]
            self.deadline_of.contains_key(id) ==> {
                &&& self.lists.contains_key(self.deadline_of[id])
                &&& self.lists[self.deadline_of[id]].contains(id)
                &&& self.wakers.contains_key(id)
                &&& id < self.next_id
            }
    }

    /// An empty timer; ids count from one.
    pub open spec fn empty() -> Self {
        Schedule {
            lists: Map::empty(),
            wakers: Map::empty(),
            deadline_of: Map::empty(),
            next_id: 1,
            shutdown: false,
        }
    }

    /// After `waker` has been registered for `when`, under the id `next_id`.
    pub open spec fn registered(self, when: u128, waker: W) -> Self {
        Schedule {
            lists: self.lists.insert(when, self.list_at(when).push(self.next_id)),
            wakers: self.wakers.insert(self.next_id, waker),
            deadline_of: self.deadline_of.insert(self.next_id, when),
            next_id: (self.next_id + 1) as u64,
            shutdown: self.shutdown,
        }
    }

    /// After the waker of `id` has been replaced.
    pub open spec fn updated(self, id: u64, waker: W) -> Self {
        Schedule { wakers: self.wakers.insert(id, waker), ..self }
    }

    /// The lists after `id` has left the list of `when`: the last id of that list takes
    /// its place, and a list that has become empty goes.
    pub open spec fn lists_without(self, when: u128, id: u64) -> Map<u128, Seq<u64>> {
        let ids = self.lists[when];
        let rest = ids.update(ids.index_of(id), ids.last()).drop_last();
        if rest.len() == 0 {
            self.lists.remove(when)
        } else {
            self.lists.insert(when, rest)
        }
    }

    /// After `id` has been cancelled.
    pub open spec fn cancelled(self, id: u64) -> Self {
        Schedule {
            lists: if self.deadline_of.contains_key(id) {
                self.lists_without(self.deadline_of[id], id)
            } else {
                self.lists
            },
            wakers: self.wakers.remove(id),
            deadline_of: self.deadline_of.remove(id),
            ..self
        }
    }

    /// Whether `when` is the first deadline that something is registered for.
    pub open spec fn is_earliest(self, when: int) -> bool {
        &&& exists|d: u128| d == when && #[trigger] self.lists.contains_key(d)
        &&& forall|d: u128| #[trigger] self.lists.contains_key(d) ==> when <= d
    }

    /// Whether a worker that looks at the time `now` calls wakers: it has not been told to
    /// stop, and a deadline has come.
    pub open spec fn fires_at(self, now: u128) -> bool {
        !self.shutdown && exists|d: u128| d <= now && #[trigger] self.lists.contains_key(d)
    }

    /// Whether `id` waits for a deadline before `limit`.
    pub open spec fn is_before(self, id: u64, limit: int) -> bool {
        self.deadline_of.contains_key(id) && self.deadline_of[id] < limit
    }

    /// The ids that wait for a deadline before `limit`: those of an earlier deadline
    /// first, those of one deadline in the order of its list.
    pub open spec fn ids_before(self, limit: int) -> Seq<u64>
        decreases limit,
    {
        if limit <= 0 {
            Seq::empty()
        } else {
            self.ids_before(limit - 1) + self.list_at((limit - 1) as u128)
        }
    }

    /// The wakers of all ids with a deadline before `limit`, in the order of `ids_before`.
    pub open spec fn wakers_before(self, limit: int) -> Seq<W> {
        self.ids_before(limit).map_values(|id: u64| self.wakers[id])
    }

    /// The wakers of the ids registered for `when`, in the order of their list.
    pub open spec fn wakers_at(self, when: u128) -> Seq<W> {
        self.list_at(when).map_values(|id: u64| self.wakers[id])
    }

    /// What is left once the list of `when` has been taken out.
    pub open spec fn without_list(self, when: u128) -> Self {
        let waits = |id: u64| self.deadline_of.contains_key(id) && self.deadline_of[id] == when;
        Schedule {
            lists: self.lists.remove(when),
            wakers: Map::new(
                |id: u64| self.wakers.contains_key(id) && !waits(id),
                |id: u64| self.wakers[id],
            ),
            deadline_of: Map::new(
                |id: u64| self.deadline_of.contains_key(id) && !waits(id),
                |id: u64| self.deadline_of[id],
            ),
            ..self
        }
    }

    /// What is left once everything with a deadline before `limit` has been taken out.
    pub open spec fn from_on(self, limit: int) -> Self {
        Schedule {
            lists: Map::new(
                |d: u128| self.lists.contains_key(d) && d >= limit,
                |d: u128| self.lists[d],
            ),
            wakers: Map::new(
                |id: u64| self.wakers.contains_key(id) && !self.is_before(id, limit),
                |id: u64| self.wakers[id],
            ),
            deadline_of: Map::new(
                |id: u64| self.deadline_of.contains_key(id) && !self.is_before(id, limit),
                |id: u64| self.deadline_of[id],
            ),
            ..self
        }
    }
}

pub(crate) proof fn lemma_registered_wf<W>(s: Schedule<W>, when: u128, waker: W)
    requires
        s.wf(),
        s.next_id < u64::MAX,
    ensures
        s.registered(when, waker).wf(),
{
    let t = s.registered(when, waker);
    let listed = s.list_at(when);
    let id = s.next_id;
    assert(!s.deadline_of.contains_key(id));
    assert(listed.push(id).last() == id);
    assert forall|d: u128| #![trigger t.lists[d]] t.lists.contains_key(d) implies t.lists[d].len() > 0
        && t.lists[d].no_duplicates() by {
        if d == when {
            assert forall|i: int, j: int|
                0 <= i < listed.len() + 1 && 0 <= j < listed.len() + 1 && i != j implies listed.push(
                id,
            )[i] != listed.push(id)[j] by {
                if i < listed.len() {
                    assert(s.deadline_of.contains_key(s.lists[when][i]));
                }
                if j < listed.len() {
                    assert(s.deadline_of.contains_key(s.lists[when][j]));
                }
            }
        } else {
            assert(t.lists[d] == s.lists[d]);
        }
    }
    assert forall|d: u128, i: int|
        #![trigger t.lists[d][i]]
        t.lists.contains_key(d) && 0 <= i < t.lists[d].len() implies t.deadline_of.contains_key(
        t.lists[d][i],
    ) && t.deadline_of[t.lists[d][i]] == d by {
        if d != when || i < listed.len() {
            assert(t.lists[d][i] == s.lists[d][i]);
        }
    }
    assert forall|k: u64| #[trigger] t.deadline_of.contains_key(k) implies ({
        &&& t.lists.contains_key(t.deadline_of[k])
        &&& t.lists[t.deadline_of[k]].contains(k)
        &&& t.wakers.contains_key(k)
        &&& k < t.next_id
    }) by {
        if k != id {
            let d = s.deadline_of[k];
            assert(s.deadline_of.contains_key(k));
            let i = s.lists[d].index_of(k);
            assert(t.lists[d][i] == k);
        } else {
            assert(t.lists[when][listed.len() as int] == id);
        }
    }
}

/// The tables of `t` are those of `s`, where no waker is missing, so they agree too.
pub(crate) proof fn lemma_same_tables_wf<W>(s: Schedule<W>, t: Schedule<W>)
    requires
        s.wf(),
        t.lists == s.lists,
        t.deadline_of == s.deadline_of,
        t.next_id == s.next_id,
        s.wakers.dom().subset_of(t.wakers.dom()),
    ensures
        t.wf(),
{
    assert forall|k: u64| #[trigger] t.deadline_of.contains_key(k) implies ({
        &&& t.lists.contains_key(t.deadline_of[k])
        &&& t.lists[t.deadline_of[k]].contains(k)
        &&& t.wakers.contains_key(k)
        &&& k < t.next_id
    }) by {
        assert(s.deadline_of.contains_key(k));
        assert(s.wakers.dom().contains(k));
    }
    assert forall|d: u128, i: int|
        #![trigger t.lists[d][i]]
        t.lists.contains_key(d) && 0 <= i < t.lists[d].len() implies t.deadline_of.contains_key(
        t.lists[d][i],
    ) && t.deadline_of[t.lists[d][i]] == d by {
        assert(s.deadline_of.contains_key(s.lists[d][i]));
    }
}

pub(crate) proof fn lemma_cancelled_wf<W>(s: Schedule<W>, id: u64)
    requires
        s.wf(),
    ensures
        s.cancelled(id).wf(),
{
    let t = s.cancelled(id);
    if s.deadline_of.contains_key(id) {
        let when = s.deadline_of[id];
        let listed = s.lists[when];
        let at = listed.index_of(id);
        assert(listed[at] == id);
        let rest = listed.update(at, listed.last()).drop_last();
        assert forall|i: int| 0 <= i < rest.len() implies #[trigger] rest[i] == (if i == at {
            listed.last()
        } else {
            listed[i]
        }) by {}
        assert forall|d: u128| #![trigger t.lists[d]] t.lists.contains_key(d) implies t.lists[d].len() > 0
            && t.lists[d].no_duplicates() by {
            if d != when {
                assert(t.lists[d] == s.lists[d]);
            }
        }
        assert forall|d: u128, i: int|
            #![trigger t.lists[d][i]]
            t.lists.contains_key(d) && 0 <= i < t.lists[d].len() implies t.deadline_of.contains_key(
            t.lists[d][i],
        ) && t.deadline_of[t.lists[d][i]] == d by {
            if d == when {
                let from = if i == at { listed.len() - 1 } else { i };
                assert(t.lists[d][i] == s.lists[d][from]);
                assert(s.deadline_of[s.lists[d][from]] == d);
            } else {
                assert(t.lists[d][i] == s.lists[d][i]);
            }
        }
        assert forall|k: u64| #[trigger] t.deadline_of.contains_key(k) implies ({
            &&& t.lists.contains_key(t.deadline_of[k])
            &&& t.lists[t.deadline_of[k]].contains(k)
            &&& t.wakers.contains_key(k)
            &&& k < t.next_id
        }) by {
            assert(s.deadline_of.contains_key(k));
            let d = s.deadline_of[k];
            let i = s.lists[d].index_of(k);
            assert(s.lists[d][i] == k);
            if d == when {
                let to = if i == listed.len() - 1 { at } else { i };
                assert(rest[to] == k);
            }
        }
    } else {
        assert(t.lists == s.lists);
        assert(t.deadline_of =~= s.deadline_of);
    }
}

/// No list lies between `from` and `to`, so the ids before either limit are the same.
pub(crate) proof fn lemma_ids_before_gap<W>(s: Schedule<W>, from: int, to: int)
    requires
        from <= to <= u128::MAX + 1,
        forall|d: u128| from <= d < to ==> !#[trigger] s.lists.contains_key(d),
    ensures
        s.ids_before(to) == s.ids_before(from),
    decreases to - from,
{
    if to > 0 && from < to {
        lemma_ids_before_gap(s, from, to - 1);
        assert(!s.lists.contains_key((to - 1) as u128));
        assert(s.ids_before(to) =~= s.ids_before(to - 1));
    }
}

/// Nothing waits between `from` and `to`, so taking out to either limit is the same.
pub(crate) proof fn lemma_from_on_gap<W>(s: Schedule<W>, from: int, to: int)
    requires
        s.wf(),
        from <= to,
        forall|d: u128| from <= d < to ==> !#[trigger] s.lists.contains_key(d),
    ensures
        s.from_on(to) == s.from_on(from),
{
    assert forall|id: u64| s.is_before(id, to) implies s.is_before(id, from) by {
        assert(s.lists.contains_key(s.deadline_of[id]));
    }
    assert(s.from_on(to).lists =~= s.from_on(from).lists);
    assert(s.from_on(to).wakers =~= s.from_on(from).wakers);
    assert(s.from_on(to).deadline_of =~= s.from_on(from).deadline_of);
}

pub(crate) proof fn lemma_from_on_wf<W>(s: Schedule<W>, from: int)
    requires
        s.wf(),
    ensures
        s.from_on(from).wf(),
{
    let t = s.from_on(from);
    assert forall|d: u128| #![trigger t.lists[d]] t.lists.contains_key(d) implies t.lists[d].len() > 0
        && t.lists[d].no_duplicates() by {
        assert(t.lists[d] == s.lists[d]);
    }
    assert forall|d: u128, i: int|
        #![trigger t.lists[d][i]]
        t.lists.contains_key(d) && 0 <= i < t.lists[d].len() implies t.deadline_of.contains_key(
        t.lists[d][i],
    ) && t.deadline_of[t.lists[d][i]] == d by {
        assert(t.lists[d][i] == s.lists[d][i]);
    }
    assert forall|k: u64| #[trigger] t.deadline_of.contains_key(k) implies ({
        &&& t.lists.contains_key(t.deadline_of[k])
        &&& t.lists[t.deadline_of[k]].contains(k)
        &&& t.wakers.contains_key(k)
        &&& k < t.next_id
    }) by {
        assert(s.deadline_of.contains_key(k));
    }
}

/// Taking out the list of the first deadline left moves the limit just past it.
pub(crate) proof fn lemma_without_list<W>(s: Schedule<W>, from: int, when: u128)
    requires
        s.wf(),
        0 <= from <= when,
        s.lists.contains_key(when),
        forall|d: u128| from <= d < when ==> !#[trigger] s.lists.contains_key(d),
    ensures
        s.from_on(from).without_list(when) == s.from_on(when + 1),
        s.ids_before(when + 1) == s.ids_before(from) + s.lists[when],
        s.wakers_before(when + 1) == s.wakers_before(from) + s.from_on(from).wakers_at(when),
{
    lemma_ids_before_gap(s, from, when as int);
    lemma_from_on_gap(s, from, when as int);
    let t = s.from_on(from);
    let left = s.from_on(when + 1);
    assert(t.without_list(when).lists =~= left.lists);
    assert(t.without_list(when).wakers =~= left.wakers);
    assert(t.without_list(when).deadline_of =~= left.deadline_of);
    assert(s.list_at(((when + 1) - 1) as u128) == s.lists[when]);
    assert forall|i: int| 0 <= i < s.lists[when].len() implies t.wakers[#[trigger] s.lists[when][i]]
        == s.wakers[s.lists[when][i]] by {
        assert(s.deadline_of.contains_key(s.lists[when][i]));
        assert(s.deadline_of[s.lists[when][i]] == when);
    }
    assert(s.wakers_before(when + 1) =~= s.wakers_before(from) + t.wakers_at(when));
}

} // verus!
