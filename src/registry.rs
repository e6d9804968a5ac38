//! The dictionaries known to the term store: ids handed out in increasing
//! order, names, priorities and whether each takes part in lookups.

use vstd::prelude::*;

verus! {

/// One dictionary's metadata.
pub struct DictionaryRecord {
    pub id: i64,
    pub name: String,
    pub priority: i64,
    pub enabled: bool,
}

/// The dictionaries, in the order they were registered, and the id the
/// next one gets.
pub struct DictionaryRegistry {
    pub entries: Vec<DictionaryRecord>,
    pub next_id: i64,
}

/// The position of dictionary `id` in `order`, if it is listed.
pub open spec fn position_in(order: Seq<i64>, id: i64) -> Option<int>
    decreases order.len(),
{
    if order.len() == 0 {
        None
    } else {
        match position_in(order.drop_last(), id) {
            Some(k) => Some(k),
            None => if order.last() == id {
                Some(order.len() - 1)
            } else {
                None
            },
        }
    }
}

impl DictionaryRegistry {
    /// Ids are unique, positive and below the next id.
    pub open spec fn wf(&self) -> bool {
        &&& 1 <= self.next_id
        &&& forall|k: int|
            0 <= k < self.entries@.len() ==> 1 <= #[trigger] self.entries@[k].id < self.next_id
        &&& forall|k: int, q: int|
            0 <= k < q < self.entries@.len() ==> #[trigger] self.entries@[k].id
                != #[trigger] self.entries@[q].id
    }

    pub fn new() -> (r: DictionaryRegistry)
        ensures
            r.wf(),
            r.entries@.len() == 0,
            r.next_id == 1,
    {
        DictionaryRegistry { entries: Vec::new(), next_id: 1 }
    }

    fn find(&self, id: i64) -> (r: Option<usize>)
        ensures
            match r {
                Some(k) => k < self.entries@.len() && self.entries@[k as int].id == id,
                None => forall|k: int| 0 <= k < self.entries@.len() ==> self.entries@[k].id != id,
            },
    {
        let mut k: usize = 0;
        while k < self.entries.len()
            invariant
                k <= self.entries@.len(),
                forall|q: int| 0 <= q < k ==> self.entries@[q].id != id,
            decreases self.entries@.len() - k,
        {
            if self.entries[k].id == id {
                return Some(k);
            }
            k = k + 1;
        }
        None
    }

    /// Registers a dictionary, enabled and at priority 0, under the next
    /// id, which then advances; none when the ids are exhausted.
    pub fn register(&mut self, name: String) -> (r: Option<i64>)
        requires
            old(self).wf(),
        ensures
            final(self).wf(),
            old(self).next_id == i64::MAX <==> r is None,
            r is None ==> *final(self) == *old(self),
            r matches Some(id) ==> {
                &&& id == old(self).next_id
                &&& final(self).next_id == id + 1
                &&& final(self).entries@.len() == old(self).entries@.len() + 1
                &&& final(self).entries@.subrange(0, old(self).entries@.len() as int)
                    == old(self).entries@
                &&& final(self).entries@.last().id == id
                &&& final(self).entries@.last().name@ == name@
                &&& final(self).entries@.last().priority == 0
                &&& final(self).entries@.last().enabled
            },
    {
        if self.next_id == i64::MAX {
            return None;
        }
        let id = self.next_id;
        self.entries.push(DictionaryRecord { id, name, priority: 0, enabled: true });
        self.next_id = id + 1;
        proof {
            assert(self.entries@.subrange(0, old(self).entries@.len() as int) =~= old(self).entries@);
        }
        Some(id)
    }

    /// Sets whether dictionary `id` takes part in lookups; false when it is
    /// not registered.
    pub fn toggle(&mut self, id: i64, enabled: bool) -> (r: bool)
        requires
            old(self).wf(),
        ensures
            final(self).wf(),
            final(self).next_id == old(self).next_id,
            final(self).entries@.len() == old(self).entries@.len(),
            r == exists|k: int| 0 <= k < old(self).entries@.len() && old(self).entries@[k].id == id,
            forall|k: int|
                0 <= k < old(self).entries@.len() ==> {
                    let (a, b) = (old(self).entries@[k], #[trigger] final(self).entries@[k]);
                    &&& b.id == a.id
                    &&& b.name@ == a.name@
                    &&& b.priority == a.priority
                    &&& b.enabled == if a.id == id {
                        enabled
                    } else {
                        a.enabled
                    }
                },
    {
        match self.find(id) {
            None => false,
            Some(k) => {
                let mut e = self.entries.remove(k);
                e.enabled = enabled;
                self.entries.insert(k, e);
                proof {
                    assert forall|q: int| 0 <= q < old(self).entries@.len() && q != k implies #[trigger] self.entries@[q]
                        == old(self).entries@[q] by {
                    }
                    assert forall|q: int| 0 <= q < old(self).entries@.len() && q != k implies old(self).entries@[q].id != id by {
                    }
                }
                true
            },
        }
    }

    /// Removes dictionary `id`; false when it is not registered. The others
    /// keep their order.
    pub fn delete(&mut self, id: i64) -> (r: bool)
        requires
            old(self).wf(),
        ensures
            final(self).wf(),
            final(self).next_id == old(self).next_id,
            r == exists|k: int| 0 <= k < old(self).entries@.len() && old(self).entries@[k].id == id,
            r ==> exists|k: int|
                0 <= k < old(self).entries@.len() && old(self).entries@[k].id == id
                    && final(self).entries@ == old(self).entries@.remove(k),
            !r ==> final(self).entries@ == old(self).entries@,
            forall|k: int| 0 <= k < final(self).entries@.len() ==> (#[trigger] final(self).entries@[k]).id != id,
    {
        match self.find(id) {
            None => false,
            Some(k) => {
                let _ = self.entries.remove(k);
                proof {
                    let o = old(self).entries@;
                    assert forall|q: int| 0 <= q < self.entries@.len() implies (#[trigger] self.entries@[q]).id != id by {
                        if q < k {
                            assert(self.entries@[q] == o[q]);
                        } else {
                            assert(self.entries@[q] == o[q + 1]);
                        }
                    }
                    assert forall|q: int, p: int| 0 <= q < p < self.entries@.len() implies #[trigger] self.entries@[q].id
                        != #[trigger] self.entries@[p].id by {
                        let qq = if q < k { q } else { q + 1 };
                        let pp = if p < k { p } else { p + 1 };
                        assert(self.entries@[q] == o[qq]);
                        assert(self.entries@[p] == o[pp]);
                    }
                    assert forall|q: int| 0 <= q < self.entries@.len() implies 1 <= #[trigger] self.entries@[q].id < self.next_id by {
                        if q < k {
                            assert(self.entries@[q] == o[q]);
                        } else {
                            assert(self.entries@[q] == o[q + 1]);
                        }
                    }
                }
                true
            },
        }
    }

    /// Sets each listed dictionary's priority to its position in `order`
    /// (its first one, when listed twice); unlisted ones keep theirs.
    pub fn reorder(&mut self, order: &Vec<i64>)
        requires
            old(self).wf(),
            order@.len() <= i64::MAX,
        ensures
            final(self).wf(),
            final(self).next_id == old(self).next_id,
            final(self).entries@.len() == old(self).entries@.len(),
            forall|k: int|
                0 <= k < old(self).entries@.len() ==> {
                    let (a, b) = (old(self).entries@[k], #[trigger] final(self).entries@[k]);
                    &&& b.id == a.id
                    &&& b.name@ == a.name@
                    &&& b.enabled == a.enabled
                    &&& b.priority == match position_in(order@, a.id) {
                        Some(p) => p,
                        None => a.priority as int,
                    }
                },
    {
        let mut k: usize = 0;
        while k < self.entries.len()
            invariant
                self.next_id == old(self).next_id,
                self.entries@.len() == old(self).entries@.len(),
                k <= self.entries@.len(),
                order@.len() <= i64::MAX,
                forall|q: int|
                    0 <= q < old(self).entries@.len() ==> {
                        let (a, b) = (old(self).entries@[q], #[trigger] self.entries@[q]);
                        &&& b.id == a.id
                        &&& b.name@ == a.name@
                        &&& b.enabled == a.enabled
                        &&& b.priority == if q < k {
                            match position_in(order@, a.id) {
                                Some(p) => p,
                                None => a.priority as int,
                            }
                        } else {
                            a.priority as int
                        }
                    },
            decreases self.entries@.len() - k,
        {
            let id = self.entries[k].id;
            match position_of(order, id) {
                Some(p) => {
                    let ghost prev = self.entries@;
                    let mut e = self.entries.remove(k);
                    e.priority = p as i64;
                    self.entries.insert(k, e);
                    proof {
                        assert forall|q: int| 0 <= q < prev.len() && q != k implies #[trigger] self.entries@[q]
                            == prev[q] by {}
                        assert(self.entries@[k as int].priority == p);
                    }
                },
                None => {},
            }
            k = k + 1;
        }
        proof {
            let o = old(self).entries@;
            assert forall|q: int| 0 <= q < self.entries@.len() implies 1 <= #[trigger] self.entries@[q].id < self.next_id by {
                assert(self.entries@[q].id == o[q].id);
            }
            assert forall|q: int, p: int| 0 <= q < p < self.entries@.len() implies #[trigger] self.entries@[q].id
                != #[trigger] self.entries@[p].id by {
                assert(self.entries@[q].id == o[q].id);
                assert(self.entries@[p].id == o[p].id);
            }
        }
    }

    /// Each dictionary's id and name, in registration order.
    pub fn names(&self) -> (r: Vec<(i64, String)>)
        ensures
            r@.len() == self.entries@.len(),
            forall|k: int|
                0 <= k < r@.len() ==> (#[trigger] r@[k]).0 == self.entries@[k].id && r@[k].1@
                    == self.entries@[k].name@,
    {
        let mut out: Vec<(i64, String)> = Vec::new();
        let mut k: usize = 0;
        while k < self.entries.len()
            invariant
                k <= self.entries@.len(),
                out@.len() == k,
                forall|q: int|
                    0 <= q < k ==> (#[trigger] out@[q]).0 == self.entries@[q].id && out@[q].1@
                        == self.entries@[q].name@,
            decreases self.entries@.len() - k,
        {
            out.push((self.entries[k].id, self.entries[k].name.clone()));
            k = k + 1;
        }
        out
    }
}

fn position_of(order: &Vec<i64>, id: i64) -> (r: Option<usize>)
    ensures
        match r {
            Some(p) => p < order@.len() && position_in(order@, id) == Some(p as int),
            None => position_in(order@, id) is None,
        },
{
    let mut p: usize = 0;
    while p < order.len()
        invariant
            p <= order@.len(),
            position_in(order@.subrange(0, p as int), id) is None,
        decreases order@.len() - p,
    {
        proof {
            assert(order@.subrange(0, p + 1).drop_last() =~= order@.subrange(0, p as int));
        }
        if order[p] == id {
            proof {
                lemma_position_prefix(order@, p + 1, id);
            }
            return Some(p);
        }
        p = p + 1;
    }
    proof {
        assert(order@.subrange(0, p as int) =~= order@);
    }
    None
}

proof fn lemma_position_prefix(order: Seq<i64>, n: int, id: i64)
    requires
        0 <= n <= order.len(),
        position_in(order.subrange(0, n), id) is Some,
    ensures
        position_in(order, id) == position_in(order.subrange(0, n), id),
    decreases order.len() - n,
{
    if n < order.len() {
        assert(order.subrange(0, n + 1).drop_last() =~= order.subrange(0, n));
        lemma_position_prefix(order, n + 1, id);
    } else {
        assert(order.subrange(0, n) =~= order);
    }
}

} // verus!
