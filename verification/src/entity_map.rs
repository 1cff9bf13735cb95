//! A small map keyed by entity.
use vstd::prelude::*;
use crate::entity::EntityId;

verus! {

/// A small map keyed by entity, kept as a list of unique keys.
#[derive(Debug, Clone)]
pub struct EntityMap<V> {
    entries: Vec<(EntityId, V)>,
}

/// The entries as a map.
pub open spec fn entries_map<V>(entries: Seq<(EntityId, V)>) -> Map<EntityId, V>
    decreases entries.len(),
{
    if entries.len() == 0 {
        Map::empty()
    } else {
        entries_map(entries.drop_last()).insert(entries.last().0, entries.last().1)
    }
}

pub open spec fn keys_unique<V>(entries: Seq<(EntityId, V)>) -> bool {
    forall|i: int, j: int|
        0 <= i < entries.len() && 0 <= j < entries.len() && i != j ==> #[trigger] entries[i].0
            != #[trigger] entries[j].0
}

impl<V> View for EntityMap<V> {
    type V = Map<EntityId, V>;

    closed spec fn view(&self) -> Map<EntityId, V> {
        entries_map(self.entries@)
    }
}

proof fn lemma_entries_map_lookup<V>(entries: Seq<(EntityId, V)>, k: EntityId)
    requires
        keys_unique(entries),
    ensures
        entries_map(entries).contains_key(k) <==> exists|i: int| 0 <= i < entries.len() && #[trigger] entries[i].0 == k,
        forall|i: int| 0 <= i < entries.len() && #[trigger] entries[i].0 == k ==> entries_map(entries)[k] == entries[i].1,
    decreases entries.len(),
{
    if entries.len() > 0 {
        let init = entries.drop_last();
        assert(keys_unique(init)) by {
            assert forall|i: int, j: int|
                0 <= i < init.len() && 0 <= j < init.len() && i != j implies #[trigger] init[i].0
                != #[trigger] init[j].0 by {
                assert(init[i] == entries[i]);
                assert(init[j] == entries[j]);
            }
        }
        lemma_entries_map_lookup(init, k);
        if entries_map(entries).contains_key(k) && entries.last().0 != k {
            let i = choose|i: int| 0 <= i < init.len() && #[trigger] init[i].0 == k;
            assert(entries[i].0 == k);
        }
        assert forall|i: int| 0 <= i < entries.len() && #[trigger] entries[i].0 == k implies entries_map(
            entries,
        )[k] == entries[i].1 by {
            if i < init.len() {
                assert(init[i] == entries[i]);
            }
        }
        if exists|i: int| 0 <= i < entries.len() && #[trigger] entries[i].0 == k {
            let i = choose|i: int| 0 <= i < entries.len() && #[trigger] entries[i].0 == k;
            if i < init.len() {
                assert(init[i] == entries[i]);
            }
        }
    }
}

impl<V: Copy> EntityMap<V> {
    pub closed spec fn wf(&self) -> bool {
        keys_unique(self.entries@)
    }

    pub fn new() -> (r: Self)
        ensures
            r@ == Map::<EntityId, V>::empty(),
            r.wf(),
    {
        EntityMap { entries: Vec::new() }
    }

    fn find(&self, k: EntityId) -> (r: Option<usize>)
        requires
            self.wf(),
        ensures
            match r {
                Some(i) => i < self.entries@.len() && self.entries@[i as int].0 == k,
                None => forall|i: int| 0 <= i < self.entries@.len() ==> #[trigger] self.entries@[i].0 != k,
            },
    {
        let mut i: usize = 0;
        while i < self.entries.len()
            invariant
                i <= self.entries@.len(),
                forall|j: int| 0 <= j < i ==> #[trigger] self.entries@[j].0 != k,
            decreases self.entries@.len() - i,
        {
            if self.entries[i].0 == k {
                return Some(i);
            }
            i += 1;
        }
        None
    }

    pub fn get(&self, k: EntityId) -> (r: Option<V>)
        requires
            self.wf(),
        ensures
            r == (if self@.contains_key(k) { Some(self@[k]) } else { None::<V> }),
    {
        proof {
            lemma_entries_map_lookup(self.entries@, k);
        }
        match self.find(k) {
            Some(i) => Some(self.entries[i].1),
            None => None,
        }
    }

    pub fn insert(&mut self, k: EntityId, v: V)
        requires
            old(self).wf(),
        ensures
            final(self).wf(),
            final(self)@ == old(self)@.insert(k, v),
    {
        proof {
            lemma_entries_map_lookup(self.entries@, k);
        }
        match self.find(k) {
            Some(i) => {
                let ghost before = self.entries@;
                self.entries.set(i, (k, v));
                proof {
                    assert(keys_unique(self.entries@)) by {
                        assert forall|a: int, b: int|
                            0 <= a < self.entries@.len() && 0 <= b < self.entries@.len() && a != b
                            implies #[trigger] self.entries@[a].0 != #[trigger] self.entries@[b].0 by {
                            assert(before[a].0 == self.entries@[a].0);
                            assert(before[b].0 == self.entries@[b].0);
                        }
                    }
                    assert forall|q: EntityId| #[trigger] entries_map(self.entries@).contains_key(q) <==> old(self)@.insert(k, v).contains_key(q) by {
                        lemma_entries_map_lookup(self.entries@, q);
                        lemma_entries_map_lookup(before, q);
                        assert(self.entries@[i as int].0 == k);
                        assert(before[i as int].0 == k);
                        if old(self)@.insert(k, v).contains_key(q) && q != k {
                            assert(old(self)@.contains_key(q));
                            let j = choose|j: int| 0 <= j < before.len() && #[trigger] before[j].0 == q;
                            assert(j != i);
                            assert(self.entries@[j] == before[j]);
                            assert(self.entries@[j].0 == q);
                        }
                        if entries_map(self.entries@).contains_key(q) {
                            let j = choose|j: int| 0 <= j < self.entries@.len() && #[trigger] self.entries@[j].0 == q;
                            if j != i {
                                assert(before[j].0 == q);
                            }
                        }
                    }
                    assert forall|q: EntityId| #[trigger] entries_map(self.entries@).contains_key(q) implies entries_map(self.entries@)[q] == old(self)@.insert(k, v)[q] by {
                        lemma_entries_map_lookup(self.entries@, q);
                        lemma_entries_map_lookup(before, q);
                        let j = choose|j: int| 0 <= j < self.entries@.len() && #[trigger] self.entries@[j].0 == q;
                        if j != i {
                            assert(before[j] == self.entries@[j]);
                        }
                    }
                    assert(self@ =~= old(self)@.insert(k, v));
                }
            },
            None => {
                self.entries.push((k, v));
                proof {
                    let e = self.entries@;
                    assert(e.drop_last() =~= old(self).entries@);
                    assert(keys_unique(e)) by {
                        assert forall|a: int, b: int|
                            0 <= a < e.len() && 0 <= b < e.len() && a != b implies #[trigger] e[a].0
                            != #[trigger] e[b].0 by {
                            if a < e.len() - 1 && b < e.len() - 1 {
                                assert(e[a] == old(self).entries@[a]);
                                assert(e[b] == old(self).entries@[b]);
                            } else if a < e.len() - 1 {
                                assert(e[a] == old(self).entries@[a]);
                            } else if b < e.len() - 1 {
                                assert(e[b] == old(self).entries@[b]);
                            }
                        }
                    }
                }
            },
        }
    }

    pub fn clear(&mut self)
        ensures
            final(self)@ == Map::<EntityId, V>::empty(),
            final(self).wf(),
    {
        self.entries.clear();
        proof {
            assert(self.entries@ =~= Seq::<(EntityId, V)>::empty());
        }
    }

    pub fn remove(&mut self, k: EntityId)
        requires
            old(self).wf(),
        ensures
            final(self).wf(),
            final(self)@ == old(self)@.remove(k),
    {
        proof {
            lemma_entries_map_lookup(self.entries@, k);
        }
        match self.find(k) {
            Some(i) => {
                let ghost before = self.entries@;
                self.entries.remove(i);
                proof {
                    let after = self.entries@;
                    assert forall|a: int| 0 <= a < after.len() implies #[trigger] after[a] == (if a < i { before[a] } else { before[a + 1] }) by {}
                    assert(keys_unique(after)) by {
                        assert forall|a: int, b: int|
                            0 <= a < after.len() && 0 <= b < after.len() && a != b implies #[trigger] after[a].0
                            != #[trigger] after[b].0 by {
                            let a2 = if a < i { a } else { a + 1 };
                            let b2 = if b < i { b } else { b + 1 };
                            assert(after[a] == before[a2]);
                            assert(after[b] == before[b2]);
                        }
                    }
                    assert forall|q: EntityId| #[trigger] entries_map(after).contains_key(q) <==> old(self)@.remove(k).contains_key(q) by {
                        lemma_entries_map_lookup(after, q);
                        lemma_entries_map_lookup(before, q);
                        if old(self)@.remove(k).contains_key(q) {
                            let j = choose|j: int| 0 <= j < before.len() && #[trigger] before[j].0 == q;
                            assert(j != i);
                            let j2 = if j < i { j } else { j - 1 };
                            assert(after[j2] == before[j]);
                        }
                        if entries_map(after).contains_key(q) {
                            let j = choose|j: int| 0 <= j < after.len() && #[trigger] after[j].0 == q;
                            let j2 = if j < i { j } else { j + 1 };
                            assert(before[j2] == after[j]);
                        }
                    }
                    assert forall|q: EntityId| #[trigger] entries_map(after).contains_key(q) implies entries_map(after)[q] == old(self)@.remove(k)[q] by {
                        lemma_entries_map_lookup(after, q);
                        lemma_entries_map_lookup(before, q);
                        let j = choose|j: int| 0 <= j < after.len() && #[trigger] after[j].0 == q;
                        let j2 = if j < i { j } else { j + 1 };
                        assert(before[j2] == after[j]);
                    }
                    assert(self@ =~= old(self)@.remove(k));
                }
            },
            None => {
                proof {
                    assert(old(self)@.remove(k) =~= old(self)@);
                }
            },
        }
    }
}

} // verus!
