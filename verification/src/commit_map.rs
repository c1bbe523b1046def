//! A table keyed by commit identity in which the last write for a key wins.

use vstd::prelude::*;
use crate::commit_id::CommitId;

verus! {

/// Whether no identity occurs twice among the keys of `entries`.
pub open spec fn distinct_keys<V>(entries: Seq<(CommitId, V)>) -> bool {
    forall|i: int, j: int| 0 <= i < j < entries.len() ==> entries[i].0 != entries[j].0
}

/// Whether some entry of `entries` has the key `id`.
pub open spec fn has_key<V>(entries: Seq<(CommitId, V)>, id: CommitId) -> bool {
    exists|i: int| 0 <= i < entries.len() && (#[trigger] entries[i]).0 == id
}

/// The position of an entry with the key `id`.
pub open spec fn position_of<V>(entries: Seq<(CommitId, V)>, id: CommitId) -> int {
    choose|i: int| 0 <= i < entries.len() && (#[trigger] entries[i]).0 == id
}

/// The mapping that `entries` stand for.
pub open spec fn entries_map<V>(entries: Seq<(CommitId, V)>) -> Map<CommitId, V> {
    Map::new(|id: CommitId| has_key(entries, id), |id: CommitId| entries[position_of(entries, id)].1)
}

/// With distinct keys, the mapping holds each entry under its key.
pub proof fn lemma_entry_in_map<V>(entries: Seq<(CommitId, V)>, i: int)
    requires
        distinct_keys(entries),
        0 <= i < entries.len(),
    ensures
        entries_map(entries).contains_key(entries[i].0),
        entries_map(entries)[entries[i].0] == entries[i].1,
        position_of(entries, entries[i].0) == i,
{
    let id = entries[i].0;
    assert(has_key(entries, id));
    let j = position_of(entries, id);
    assert(0 <= j < entries.len() && entries[j].0 == id);
    if j < i {
        assert(entries[j].0 != entries[i].0);
    } else if i < j {
        assert(entries[i].0 != entries[j].0);
    }
}

/// A finite mapping from commit identities to values of type `V`.
pub struct CommitMap<V> {
    entries: Vec<(CommitId, V)>,
}

impl<V> View for CommitMap<V> {
    type V = Map<CommitId, V>;

    closed spec fn view(&self) -> Map<CommitId, V> {
        entries_map(self.entries@)
    }
}

impl<V: Copy> CommitMap<V> {
    /// The invariant of the table: no key is stored twice.
    pub closed spec fn wf(self) -> bool {
        &&& distinct_keys(self.entries@)
        &&& self@.dom().finite()
        &&& self@.dom().len() == self.entries@.len()
    }

    /// A well-formed table has as many keys as its mapping has.
    pub proof fn lemma_count(self)
        requires
            self.wf(),
        ensures
            self@.dom().finite(),
            self.count() == self@.dom().len(),
    {
    }


    /// The number of keys.
    pub closed spec fn count(self) -> nat {
        self.entries@.len()
    }

    /// The keys in the order in which they were first written.
    pub closed spec fn keys(self) -> Seq<CommitId> {
        Seq::new(self.entries@.len(), |i: int| self.entries@[i].0)
    }

    /// The empty mapping.
    pub fn new() -> (m: Self)
        ensures
            m.wf(),
            m@ == Map::<CommitId, V>::empty(),
            m.count() == 0,
    {
        let m = CommitMap { entries: Vec::new() };
        assert(m@ =~= Map::<CommitId, V>::empty());
        m
    }

    /// The position of the entry with the key `id`.
    fn find(&self, id: CommitId) -> (r: Option<usize>)
        ensures
            match r {
                Some(i) => i < self.entries@.len() && self.entries@[i as int].0 == id,
                None => !has_key(self.entries@, id),
            },
    {
        let mut i: usize = 0;
        while i < self.entries.len()
            invariant
                i <= self.entries.len(),
                forall|j: int| 0 <= j < i ==> (#[trigger] self.entries@[j]).0 != id,
            decreases self.entries.len() - i,
        {
            if self.entries[i].0 == id {
                return Some(i);
            }
            i += 1;
        }
        None
    }

    /// The value stored under `id`, if there is one.
    pub fn get(&self, id: CommitId) -> (r: Option<V>)
        requires
            self.wf(),
        ensures
            r == (if self@.contains_key(id) {
                Some(self@[id])
            } else {
                None
            }),
    {
        match self.find(id) {
            Some(i) => {
                proof {
                    lemma_entry_in_map(self.entries@, i as int);
                }
                Some(self.entries[i].1)
            },
            None => None,
        }
    }

    /// Whether a value is stored under `id`.
    pub fn contains(&self, id: CommitId) -> (r: bool)
        ensures
            r == self@.contains_key(id),
    {
        self.find(id).is_some()
    }

    /// Stores `value` under `id`, replacing what was there.
    pub fn insert(&mut self, id: CommitId, value: V)
        requires
            old(self).wf(),
        ensures
            final(self).wf(),
            final(self)@ == old(self)@.insert(id, value),
            final(self).count() == old(self).count() + (if old(self)@.contains_key(id) {
                0nat
            } else {
                1nat
            }),
    {
        let ghost before = self.entries@;
        match self.find(id) {
            Some(i) => {
                self.entries[i] = (id, value);
                proof {
                    let after = self.entries@;
                    assert(after == before.update(i as int, (id, value)));
                    assert(distinct_keys(after)) by {
                        assert forall|a: int, b: int| 0 <= a < b < after.len() implies after[a].0
                            != after[b].0 by {
                            assert(after[a].0 == before[a].0);
                            assert(after[b].0 == before[b].0);
                        }
                    }
                    assert forall|q: CommitId| has_key(after, q) == has_key(before, q) by {
                        if has_key(after, q) {
                            let j = position_of(after, q);
                            assert(before[j].0 == q);
                        }
                        if has_key(before, q) {
                            let j = position_of(before, q);
                            assert(after[j].0 == q);
                        }
                    }
                    assert(has_key(before, id));
                    assert forall|q: CommitId| has_key(after, q) implies entries_map(after)[q]
                        == entries_map(before).insert(id, value)[q] by {
                        let j = position_of(after, q);
                        lemma_entry_in_map(after, j);
                        assert(before[j].0 == q);
                        lemma_entry_in_map(before, j);
                        if q == id {
                            lemma_entry_in_map(after, i as int);
                        }
                    }
                    assert(entries_map(after) =~= entries_map(before).insert(id, value));
                }
            },
            None => {
                self.entries.push((id, value));
                proof {
                    let after = self.entries@;
                    assert(after == before.push((id, value)));
                    assert(distinct_keys(after)) by {
                        assert forall|a: int, b: int| 0 <= a < b < after.len() implies after[a].0
                            != after[b].0 by {
                            if b < before.len() {
                                assert(after[a] == before[a]);
                                assert(after[b] == before[b]);
                            } else {
                                assert(after[a] == before[a]);
                                assert(before[a].0 != id);
                            }
                        }
                    }
                    assert forall|q: CommitId| has_key(after, q) == (q == id || has_key(
                        before,
                        q,
                    )) by {
                        if has_key(after, q) {
                            let j = position_of(after, q);
                            if j < before.len() {
                                assert(before[j].0 == q);
                            }
                        }
                        if has_key(before, q) {
                            let j = position_of(before, q);
                            assert(after[j].0 == q);
                        }
                        if q == id {
                            assert(after[before.len() as int].0 == q);
                        }
                    }
                    assert forall|q: CommitId| has_key(after, q) implies entries_map(after)[q]
                        == entries_map(before).insert(id, value)[q] by {
                        let j = position_of(after, q);
                        lemma_entry_in_map(after, j);
                        if j < before.len() {
                            assert(before[j] == after[j]);
                            lemma_entry_in_map(before, j);
                        }
                    }
                    assert(entries_map(after) =~= entries_map(before).insert(id, value));
                }
            },
        }
    }

    /// The keys, each once, in the order in which they were first written.
    pub fn key_list(&self) -> (list: Vec<CommitId>)
        requires
            self.wf(),
        ensures
            list@ == self.keys(),
            forall|id: CommitId| list@.contains(id) <==> self@.contains_key(id),
            forall|i: int, j: int| 0 <= i < j < list@.len() ==> list@[i] != list@[j],
    {
        let mut list: Vec<CommitId> = Vec::new();
        let mut i: usize = 0;
        while i < self.entries.len()
            invariant
                i <= self.entries@.len(),
                list@.len() == i,
                forall|k: int| 0 <= k < i ==> list@[k] == self.entries@[k].0,
            decreases self.entries.len() - i,
        {
            list.push(self.entries[i].0);
            i += 1;
        }
        proof {
            assert(list@ =~= self.keys());
            assert forall|id: CommitId| list@.contains(id) <==> self@.contains_key(id) by {
                if list@.contains(id) {
                    let k = choose|k: int| 0 <= k < list@.len() && list@[k] == id;
                    lemma_entry_in_map(self.entries@, k);
                }
                if self@.contains_key(id) {
                    let k = position_of(self.entries@, id);
                    assert(list@[k] == id);
                }
            }
        }
        list
    }

    /// The number of keys.
    pub fn len(&self) -> (n: usize)
        ensures
            n == self.count(),
    {
        self.entries.len()
    }

    /// The `i`-th key in the order of first writing.
    pub fn key_at(&self, i: usize) -> (id: CommitId)
        requires
            self.wf(),
            i < self.count(),
        ensures
            id == self.keys()[i as int],
            self@.contains_key(id),
    {
        proof {
            lemma_entry_in_map(self.entries@, i as int);
        }
        self.entries[i].0
    }
}

} // verus!
