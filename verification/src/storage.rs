//! Dense per-type component storage, indexed directly by entity index.
use vstd::prelude::*;
use crate::entity::EntityId;

verus! {

/// Length the slot array reaches when it must cover `index`: start from
/// `max(n, 1)` and double until the length exceeds `index`.
pub open spec fn grown_len(n: nat, index: nat) -> nat
    decreases (if n > index { 0int } else { index + 1 - n }),
{
    if n > index {
        n
    } else if n == 0 {
        grown_len(1, index)
    } else {
        grown_len(2 * n, index)
    }
}

/// The grown length covers `index`, never shrinks, and stays within twice `index`.
pub proof fn lemma_grown_len(n: nat, index: nat)
    ensures
        grown_len(n, index) > index,
        grown_len(n, index) >= n,
        n <= index ==> grown_len(n, index) <= 2 * index + 1,
    decreases (if n > index { 0int } else { index + 1 - n }),
{
    if n > index {
    } else if n == 0 {
        lemma_grown_len(1, index);
    } else {
        lemma_grown_len(2 * n, index);
    }
}

/// The abstract content of a [`ComponentStorage`]: one optional component and
/// one generation per slot, plus the freed indices in the order they were freed.
pub struct StorageModel<T> {
    pub slots: Seq<Option<T>>,
    pub gens: Seq<u32>,
    pub free: Seq<u32>,
}

/// The entity that a slot answers to: its index and its current generation.
pub open spec fn slot_entity(index: int, generation: u32) -> EntityId {
    EntityId { index: index as u32, generation }
}

impl<T> StorageModel<T> {
    pub open spec fn wf(self) -> bool {
        &&& self.slots.len() == self.gens.len()
        &&& forall|i: int|
            0 <= i < self.slots.len() && #[trigger] self.slots[i] is Some ==> i <= u32::MAX
    }

    pub open spec fn empty() -> Self {
        StorageModel { slots: Seq::empty(), gens: Seq::empty(), free: Seq::empty() }
    }

    /// Whether `e` names a live slot whose generation matches.
    pub open spec fn matches(self, e: EntityId) -> bool {
        e.index < self.slots.len() && self.gens[e.index as int] == e.generation
    }

    /// The component stored for `e`, if the generation matches.
    pub open spec fn lookup(self, e: EntityId) -> Option<T> {
        if self.matches(e) {
            self.slots[e.index as int]
        } else {
            None
        }
    }

    pub open spec fn contains(self, e: EntityId) -> bool {
        self.lookup(e) is Some
    }

    /// The storage after making room for slot `index`: new slots are empty
    /// and start at generation 0.
    pub open spec fn grow(self, index: nat) -> Self {
        if index < self.slots.len() {
            self
        } else {
            let n = grown_len(self.slots.len(), index);
            StorageModel {
                slots: self.slots + Seq::new((n - self.slots.len()) as nat, |i: int| None),
                gens: self.gens + Seq::new((n - self.gens.len()) as nat, |i: int| 0u32),
                free: self.free,
            }
        }
    }

    /// Inserting grows the storage first; it succeeds only when the slot's
    /// generation matches and the slot is empty.
    pub open spec fn insert(self, e: EntityId, c: T) -> (Self, bool) {
        let g = self.grow(e.index as nat);
        if g.gens[e.index as int] != e.generation || g.slots[e.index as int] is Some {
            (g, false)
        } else {
            (StorageModel { slots: g.slots.update(e.index as int, Some(c)), ..g }, true)
        }
    }

    /// Removing takes the component out of a matching slot.
    pub open spec fn remove(self, e: EntityId) -> (Self, Option<T>) {
        if self.matches(e) {
            (
                StorageModel { slots: self.slots.update(e.index as int, None), ..self },
                self.slots[e.index as int],
            )
        } else {
            (self, None)
        }
    }

    /// Marking a slot removed bumps its generation (wrapping) and records
    /// the index as free.
    pub open spec fn mark_removed(self, e: EntityId) -> Self {
        if e.index < self.gens.len() {
            StorageModel {
                gens: self.gens.update(
                    e.index as int,
                    if self.gens[e.index as int] == u32::MAX {
                        0u32
                    } else {
                        (self.gens[e.index as int] + 1) as u32
                    },
                ),
                free: self.free.push(e.index),
                ..self
            }
        } else {
            self
        }
    }

    /// Occupied slots below `n`, in index order, each with the entity it answers to.
    pub open spec fn entries_upto(self, n: nat) -> Seq<(EntityId, T)>
        decreases n,
    {
        if n == 0 {
            Seq::empty()
        } else {
            let prev = self.entries_upto((n - 1) as nat);
            match self.slots[n - 1] {
                Some(c) => prev.push((slot_entity(n - 1, self.gens[n - 1]), c)),
                None => prev,
            }
        }
    }

    /// Every occupied slot, in index order.
    pub open spec fn entries(self) -> Seq<(EntityId, T)> {
        self.entries_upto(self.slots.len())
    }

    pub open spec fn count(self) -> nat {
        self.entries().len()
    }
}

/// `b` has a component in exactly the slots where `a` has one, under the
/// same generations and free list.
pub open spec fn same_occupancy<T>(a: StorageModel<T>, b: StorageModel<T>) -> bool {
    &&& b.gens == a.gens
    &&& b.free == a.free
    &&& b.slots.len() == a.slots.len()
    &&& forall|k: int| 0 <= k < a.slots.len() ==> (#[trigger] b.slots[k] is Some) == (a.slots[k] is Some)
}

/// A successful insert makes the component readable under that entity and
/// leaves what every other slot answers unchanged.
pub proof fn law_insert_then_lookup<T>(m: StorageModel<T>, e: EntityId, c: T, other: EntityId)
    requires
        m.wf(),
    ensures
        m.insert(e, c).1 ==> m.insert(e, c).0.lookup(e) == Some(c),
        other.index != e.index ==> m.insert(e, c).0.lookup(other) == m.lookup(other),
        m.insert(e, c).0.wf(),
{
    lemma_grown_len(m.slots.len(), e.index as nat);
    let g = m.grow(e.index as nat);
    if other.index < m.slots.len() {
        assert(g.slots[other.index as int] == m.slots[other.index as int]);
        assert(g.gens[other.index as int] == m.gens[other.index as int]);
    } else if other.index < g.slots.len() {
        assert(g.slots[other.index as int] is None);
    }
    let r = m.insert(e, c).0;
    assert forall|i: int| 0 <= i < r.slots.len() && #[trigger] r.slots[i] is Some implies i <= u32::MAX by {
        if i != e.index && i >= m.slots.len() {
            assert(g.slots[i] is None);
        }
    }
}

/// An entity that already has a component cannot receive a second one.
pub proof fn law_insert_occupied_fails<T>(m: StorageModel<T>, e: EntityId, c: T)
    requires
        m.wf(),
        m.contains(e),
    ensures
        !m.insert(e, c).1,
        m.insert(e, c).0 == m,
{
}

/// Removing hands back exactly what a lookup saw, after which the entity
/// has no component in this storage.
/// The slot keeps its generation, so the same entity can receive a new
/// component there; a second removal finds nothing; other slots read as before.
pub proof fn law_remove_then_lookup<T>(m: StorageModel<T>, e: EntityId, c2: T, other: EntityId)
    ensures
        m.remove(e).1 == m.lookup(e),
        !m.remove(e).0.contains(e),
        m.matches(e) ==> m.remove(e).0.insert(e, c2).1,
        m.remove(e).0.remove(e).1 is None,
        other.index != e.index ==> m.remove(e).0.lookup(other) == m.lookup(other),
{
}

/// The entries below `n` are empty exactly when every slot below `n` is.
proof fn lemma_entries_empty<T>(m: StorageModel<T>, n: nat)
    requires
        n <= m.slots.len(),
    ensures
        (m.entries_upto(n).len() == 0) <==> (forall|i: int| 0 <= i < n ==> #[trigger] m.slots[i] is None),
    decreases n,
{
    if n > 0 {
        lemma_entries_empty(m, (n - 1) as nat);
        let prev = m.entries_upto((n - 1) as nat);
        if m.slots[n - 1] is Some {
            assert(m.entries_upto(n).len() == prev.len() + 1);
        }
    }
}

/// A storage is empty (every slot free) exactly when it counts no component,
/// and exactly when no entity has a component in it.
pub proof fn law_empty_iff_no_entity<T>(m: StorageModel<T>)
    requires
        m.wf(),
    ensures
        (forall|i: int| 0 <= i < m.slots.len() ==> #[trigger] m.slots[i] is None) <==> m.count() == 0,
        (forall|i: int| 0 <= i < m.slots.len() ==> #[trigger] m.slots[i] is None) <==> (forall|e: EntityId|
            !#[trigger] m.contains(e)),
{
    lemma_entries_empty(m, m.slots.len());
    if exists|e: EntityId| #[trigger] m.contains(e) {
        let e = choose|e: EntityId| #[trigger] m.contains(e);
        assert(m.slots[e.index as int] is Some);
    }
    if exists|i: int| 0 <= i < m.slots.len() && #[trigger] m.slots[i] is Some {
        let i = choose|i: int| 0 <= i < m.slots.len() && #[trigger] m.slots[i] is Some;
        let e = slot_entity(i, m.gens[i]);
        assert(e.index == i);
        assert(m.contains(e));
    }
}

/// Once a slot is marked removed, no identifier of the old generation reaches it.
pub proof fn law_mark_removed_invalidates<T>(m: StorageModel<T>, e: EntityId)
    requires
        m.wf(),
        m.matches(e),
    ensures
        !m.mark_removed(e).contains(e),
        m.mark_removed(e).free.last() == e.index,
{
}

/// Every listed entry is what a lookup of its entity yields.
pub proof fn lemma_entries_lookup<T>(m: StorageModel<T>, n: nat)
    requires
        m.wf(),
        n <= m.slots.len(),
    ensures
        forall|k: int| 0 <= k < m.entries_upto(n).len() ==> m.lookup((#[trigger] m.entries_upto(n)[k]).0) == Some(
            m.entries_upto(n)[k].1,
        ),
        forall|k: int| 0 <= k < m.entries_upto(n).len() ==> (#[trigger] m.entries_upto(n)[k]).0.index < n,
    decreases n,
{
    if n > 0 {
        lemma_entries_lookup(m, (n - 1) as nat);
        let prev = m.entries_upto((n - 1) as nat);
        let cur = m.entries_upto(n);
        assert forall|k: int| 0 <= k < cur.len() implies m.lookup((#[trigger] cur[k]).0) == Some(cur[k].1) && cur[k].0.index < n by {
            if k < prev.len() {
                assert(cur[k] == prev[k]);
            } else {
                let i = n - 1;
                assert(m.slots[i] is Some);
                assert(i <= u32::MAX);
            }
        }
    }
}

/// Dense array of components indexed directly by entity index; a slot is
/// only reachable through an identifier of the slot's current generation.
pub struct ComponentStorage<T> {
    components: Vec<Option<T>>,
    generations: Vec<u32>,
    free_indices: Vec<u32>,
}

impl<T> View for ComponentStorage<T> {
    type V = StorageModel<T>;

    closed spec fn view(&self) -> StorageModel<T> {
        StorageModel { slots: self.components@, gens: self.generations@, free: self.free_indices@ }
    }
}

impl<T> ComponentStorage<T> {
    /// Number of slots (occupied or not).
    pub(crate) fn capacity(&self) -> (r: usize)
        ensures
            r == self@.slots.len(),
    {
        self.components.len()
    }

    /// The component in slot `i`, with the entity that slot answers to.
    pub(crate) fn entry_at(&self, i: usize) -> (r: Option<(EntityId, &T)>)
        requires
            self@.wf(),
            i < self@.slots.len(),
        ensures
            match r {
                Some(p) => self@.slots[i as int] == Some(*p.1) && p.0 == slot_entity(i as int, self@.gens[i as int]),
                None => self@.slots[i as int] is None,
            },
    {
        match &self.components[i] {
            Some(c) => Some((EntityId::new(i as u32, self.generations[i]), c)),
            None => None,
        }
    }

    pub fn new() -> (r: Self)
        ensures
            r@ == StorageModel::<T>::empty(),
            r@.wf(),
    {
        ComponentStorage { components: Vec::new(), generations: Vec::new(), free_indices: Vec::new() }
    }

    /// Grow the slot arrays, doubling, until they cover `index`.
    fn ensure_capacity(&mut self, index: usize)
        requires
            old(self)@.wf(),
            index <= u32::MAX,
            index * 2 <= usize::MAX,
        ensures
            final(self)@ == old(self)@.grow(index as nat),
            final(self)@.wf(),
    {
        let current_len = self.components.len();
        if index >= current_len {
            let mut new_len: usize = if current_len > 1 { current_len } else { 1 };
            while new_len <= index
                invariant
                    new_len >= 1,
                    index * 2 <= usize::MAX,
                    current_len <= index,
                    grown_len(new_len as nat, index as nat) == grown_len(current_len as nat, index as nat),
                decreases usize::MAX - new_len,
            {
                new_len = new_len * 2;
            }
            proof {
                assert(grown_len(new_len as nat, index as nat) == new_len);
            }
            let ghost old_slots = self.components@;
            let ghost old_gens = self.generations@;
            let ghost old_free = self.free_indices@;
            assert(self.components@.subrange(0, current_len as int) =~= old_slots);
            while self.components.len() < new_len
                invariant
                    self.generations@ == old_gens,
                    self.free_indices@ == old_free,
                    current_len <= self.components.len() <= new_len,
                    self.components@.subrange(0, current_len as int) == old_slots,
                    forall|i: int|
                        current_len <= i < self.components.len() ==> #[trigger] self.components@[i]
                            is None,
                    old_slots.len() == current_len,
                decreases new_len - self.components.len(),
            {
                self.components.push(None);
            }
            assert(self.generations@.subrange(0, current_len as int) =~= old_gens);
            while self.generations.len() < new_len
                invariant
                    self.free_indices@ == old_free,
                    self.components@.len() == new_len,
                    self.components@.subrange(0, current_len as int) == old_slots,
                    forall|i: int|
                        current_len <= i < self.components.len() ==> #[trigger] self.components@[i]
                            is None,
                    old_gens.len() == current_len,
                    current_len <= self.generations.len() <= new_len,
                    self.generations@.subrange(0, current_len as int) == old_gens,
                    forall|i: int|
                        current_len <= i < self.generations.len() ==> #[trigger] self.generations@[i]
                            == 0u32,
                decreases new_len - self.generations.len(),
            {
                self.generations.push(0);
            }
            proof {
                let g = old(self)@.grow(index as nat);
                assert(g.slots.len() == new_len);
                assert(self.components@ =~= g.slots);
                assert(self.generations@ =~= g.gens);
                assert(self.free_indices@ == g.free);
                assert(self@ == g);
            }
        }
    }

    /// Store `component` for `entity`; false when the slot's generation does
    /// not match or the slot is already occupied (the storage still grows).
    pub fn insert(&mut self, entity: EntityId, component: T) -> (r: bool)
        requires
            old(self)@.wf(),
            entity.index * 2 <= usize::MAX,
        ensures
            (final(self)@, r) == old(self)@.insert(entity, component),
            final(self)@.wf(),
    {
        let index = entity.index as usize;
        self.ensure_capacity(index);
        proof { lemma_grown_len(old(self)@.slots.len(), index as nat); }
        if self.generations[index] != entity.generation {
            return false;
        }
        if self.components[index].is_some() {
            return false;
        }
        self.components.set(index, Some(component));
        true
    }

    pub fn get(&self, entity: EntityId) -> (r: Option<&T>)
        requires
            self@.wf(),
        ensures
            match r {
                Some(c) => self@.lookup(entity) == Some(*c),
                None => self@.lookup(entity) is None,
            },
    {
        let index = entity.index as usize;
        if index >= self.components.len() {
            return None;
        }
        if self.generations[index] != entity.generation {
            return None;
        }
        self.components[index].as_ref()
    }

    pub fn get_mut(&mut self, entity: EntityId) -> (r: Option<&mut T>)
        requires
            old(self)@.wf(),
        ensures
            match r {
                Some(c) => {
                    &&& old(self)@.lookup(entity) == Some(*c)
                    &&& final(self)@.gens == old(self)@.gens
                    &&& final(self)@.free == old(self)@.free
                    &&& final(self)@.slots == old(self)@.slots.update(entity.index as int, Some(*final(c)))
                },
                None => old(self)@.lookup(entity) is None && final(self)@ == old(self)@,
            },
    {
        let index = entity.index as usize;
        if index >= self.components.len() {
            return None;
        }
        if self.generations[index] != entity.generation {
            return None;
        }
        if self.components[index].is_none() {
            return None;
        }
        self.components[index].as_mut()
    }

    pub fn remove(&mut self, entity: EntityId) -> (r: Option<T>)
        requires
            old(self)@.wf(),
        ensures
            (final(self)@, r) == old(self)@.remove(entity),
    {
        let index = entity.index as usize;
        if index >= self.components.len() {
            return None;
        }
        if self.generations[index] != entity.generation {
            return None;
        }
        let mut taken: Option<T> = None;
        std::mem::swap(&mut taken, &mut self.components[index]);
        proof {
            assert(self.components@ =~= old(self)@.slots.update(entity.index as int, None));
        }
        taken
    }

    /// Hand every occupied slot, in index order and with the entity it
    /// answers to, to `f`, which may change the component in place.
    pub fn for_each_mut<F: FnMut(EntityId, &mut T)>(&mut self, mut f: F)
        requires
            old(self)@.wf(),
            forall|e: EntityId, c: &mut T| f.requires((e, c)),
        ensures
            same_occupancy(old(self)@, final(self)@),
            final(self)@.wf(),
            forall|k: int| 0 <= k < old(self)@.slots.len() && #[trigger] old(self)@.slots[k] is Some ==> exists|r: &mut T|
                *r == old(self)@.slots[k].unwrap() && *final(r) == final(self)@.slots[k].unwrap()
                    && #[trigger] f.ensures((slot_entity(k, old(self)@.gens[k]), r), ()),
    {
        broadcast use vstd::function::group_function_axioms;
        let ghost f0 = f;
        let mut i: usize = 0;
        while i < self.components.len()
            invariant
                f == f0,
                forall|e: EntityId, c: &mut T| f.requires((e, c)),
                i <= self.components@.len(),
                self@.gens == old(self)@.gens,
                self@.free == old(self)@.free,
                self@.slots.len() == old(self)@.slots.len(),
                forall|k: int| 0 <= k < self@.slots.len() ==> (#[trigger] self@.slots[k] is Some) == (old(self)@.slots[k] is Some),
                forall|k: int| i <= k < self@.slots.len() ==> #[trigger] self@.slots[k] == old(self)@.slots[k],
                forall|k: int| 0 <= k < i && #[trigger] old(self)@.slots[k] is Some ==> exists|r: &mut T|
                    *r == old(self)@.slots[k].unwrap() && *final(r) == self@.slots[k].unwrap()
                        && #[trigger] f0.ensures((slot_entity(k, old(self)@.gens[k]), r), ()),
                old(self)@.wf(),
            decreases self.components@.len() - i,
        {
            let mut slot: Option<T> = None;
            std::mem::swap(&mut slot, &mut self.components[i]);
            match slot {
                Some(c) => {
                    assert(old(self)@.slots[i as int] is Some);
                    let mut c = c;
                    let ghost before = c;
                    let e = EntityId::new(i as u32, self.generations[i]);
                    f(e, &mut c);
                    assert(slot_entity(i as int, old(self)@.gens[i as int]) == e);
                    assert(exists|r: &mut T| *r == before && *final(r) == c && #[trigger] f0.ensures((e, r), ()));
                    self.components.set(i, Some(c));
                },
                None => {},
            }
            i += 1;
        }
    }

    /// Every occupied slot in index order, with the entity it answers to.
    pub fn iter(&self) -> (r: Vec<(EntityId, &T)>)
        requires
            self@.wf(),
        ensures
            r@.map_values(|p: (EntityId, &T)| (p.0, *p.1)) == self@.entries(),
    {
        let mut out: Vec<(EntityId, &T)> = Vec::new();
        let mut i: usize = 0;
        while i < self.components.len()
            invariant
                self@.wf(),
                i <= self.components.len(),
                out@.map_values(|p: (EntityId, &T)| (p.0, *p.1)) == self@.entries_upto(i as nat),
            decreases self.components.len() - i,
        {
            match &self.components[i] {
                Some(c) => {
                    assert(self@.slots[i as int] is Some);
                    let e = EntityId::new(i as u32, self.generations[i]);
                    out.push((e, c));
                    proof {
                        assert(out@.map_values(|p: (EntityId, &T)| (p.0, *p.1)) =~= self@.entries_upto(
                            i as nat,
                        ).push((slot_entity(i as int, self@.gens[i as int]), *c)));
                    }
                },
                None => {},
            }
            i += 1;
        }
        out
    }

    /// Number of occupied slots.
    pub fn len(&self) -> (r: usize)
        requires
            self@.wf(),
        ensures
            r == self@.count(),
    {
        let mut n: usize = 0;
        let mut i: usize = 0;
        while i < self.components.len()
            invariant
                self@.wf(),
                i <= self.components.len(),
                n == self@.entries_upto(i as nat).len(),
                n <= i,
            decreases self.components.len() - i,
        {
            if self.components[i].is_some() {
                n += 1;
            }
            i += 1;
        }
        n
    }

    /// True when no slot is occupied.
    pub fn is_empty(&self) -> (r: bool)
        ensures
            r == (forall|i: int| 0 <= i < self@.slots.len() ==> #[trigger] self@.slots[i] is None),
            r == (self@.count() == 0),
    {
        proof {
            lemma_entries_empty(self@, self@.slots.len());
        }
        let mut i: usize = 0;
        while i < self.components.len()
            invariant
                i <= self.components.len(),
                forall|j: int| 0 <= j < i ==> #[trigger] self@.slots[j] is None,
            decreases self.components.len() - i,
        {
            if self.components[i].is_some() {
                proof {
                    lemma_entries_empty(self@, self@.slots.len());
                    assert(self@.slots[i as int] is Some);
                }
                return false;
            }
            i += 1;
        }
        true
    }

    pub fn clear(&mut self)
        ensures
            final(self)@ == StorageModel::<T>::empty(),
            final(self)@.wf(),
    {
        self.components.clear();
        self.generations.clear();
        self.free_indices.clear();
        proof {
            assert(self@.slots =~= Seq::<Option<T>>::empty());
            assert(self@.gens =~= Seq::<u32>::empty());
            assert(self@.free =~= Seq::<u32>::empty());
        }
    }

    /// Invalidate every identifier of the entity's slot by bumping its
    /// generation, and remember the index as free.
    pub fn mark_entity_removed(&mut self, entity: EntityId)
        requires
            old(self)@.wf(),
        ensures
            final(self)@ == old(self)@.mark_removed(entity),
            final(self)@.wf(),
    {
        let index = entity.index as usize;
        if index < self.generations.len() {
            let g = self.generations[index];
            self.generations.set(index, g.wrapping_add(1));
            self.free_indices.push(entity.index);
        }
    }

    /// Whether a component is stored for exactly this entity.
    pub fn has_entity(&self, entity: EntityId) -> (r: bool)
        requires
            self@.wf(),
        ensures
            r == self@.contains(entity),
    {
        let index = entity.index as usize;
        index < self.components.len() && self.generations[index] == entity.generation
            && self.components[index].is_some()
    }
}

} // verus!
