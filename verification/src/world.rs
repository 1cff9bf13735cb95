//! The world: live entities, their components and the shared resources.
use vstd::prelude::*;
use crate::components::{EcsComponent, EcsComponents, IdentityComponent};
use crate::entity::{AppEvent, ComponentType, EntityId};
use crate::resources::{
    EcsResource, EcsResources, EntryExitAnimationStateResource, EventSenderResource,
    NamedRefsResource, RenderGroupsResource, RenderOrderResource, RequestReLayoutResource,
};

verus! {

/// Logic that runs over the whole world once per frame.
pub trait EcsSystem {
    /// What the world must provide for this system to run (the resources
    /// and components it relies on).
    spec fn runnable(&self, world: World) -> bool;

    /// What one run does: `after` is the world a run leaves behind when it
    /// starts from `before`.
    spec fn effect(&self, before: World, after: World) -> bool;

    fn run(&mut self, world: &mut World)
        requires
            old(world).wf(),
            old(self).runnable(*old(world)),
        ensures
            final(world).wf(),
            old(self).effect(*old(world), *final(world)),
    ;

    /// A run keeps the identifier bookkeeping consistent.
    proof fn lemma_effect_keeps_ids(&self, before: World, after: World)
        requires
            self.effect(before, after),
            before.ids_wf(),
        ensures
            after.ids_wf(),
    ;
}

/// Creation and reset of the resources that are rebuilt whenever the world is reset.
pub trait ResourceManager {
    fn initialize_resettable_resources(&mut self);

    fn reset_resettable_resources(&mut self);
}

pub struct World {
    /// Live entities, in creation order.
    pub entities: Vec<EntityId>,
    /// The index a new entity gets when no freed index is waiting.
    pub next_entity_index: u32,
    /// Freed indices; the last one is reused first.
    pub free_entity_indices: Vec<u32>,
    /// Current generation of every index handed out so far.
    pub entity_generations: Vec<u32>,
    pub components: EcsComponents,
    pub resources: EcsResources,
}

/// `gens` extended with zero generations so that it covers `index`.
pub open spec fn gens_covering(gens: Seq<u32>, index: nat) -> Seq<u32> {
    if index < gens.len() {
        gens
    } else {
        gens + Seq::new((index + 1 - gens.len()) as nat, |i: int| 0u32)
    }
}

/// The generation that follows `g`, wrapping around.
pub open spec fn next_generation(g: u32) -> u32 {
    if g == u32::MAX {
        0u32
    } else {
        (g + 1) as u32
    }
}

/// Whether one of the identities carries `name`.
pub open spec fn name_in(ids: Seq<(EntityId, IdentityComponent)>, name: Seq<char>) -> bool {
    exists|k: int| 0 <= k < ids.len() && (#[trigger] ids[k]).1.debug_name@ == name
}

/// The identifier handed out next: the most recently freed index if there
/// is one, else `next`, under the index's current generation (0 when new).
pub open spec fn next_id(free: Seq<u32>, next: u32, gens: Seq<u32>) -> EntityId {
    let idx = if free.len() > 0 {
        free.last()
    } else {
        next
    };
    EntityId { index: idx, generation: if idx < gens.len() { gens[idx as int] } else { 0u32 } }
}

/// Removing an entity and creating another hands the removed index straight
/// back, under the following generation: an identifier kept from before the
/// removal never names the new entity.
pub proof fn law_recycled_index_new_generation(free: Seq<u32>, next: u32, gens: Seq<u32>, e: EntityId)
    requires
        e.index < gens.len(),
        gens[e.index as int] == e.generation,
    ensures
        next_id(free.push(e.index), next, gens.update(e.index as int, next_generation(e.generation)))
            == (EntityId { index: e.index, generation: next_generation(e.generation) }),
        next_id(free.push(e.index), next, gens.update(e.index as int, next_generation(e.generation))) != e,
{
}

/// Creating an entity keeps the identifier bookkeeping consistent: the new
/// identifier was not alive, and its identity can be stored.
proof fn lemma_ids_after_create(w0: World, w1: World, r: EntityId, c: IdentityComponent)
    requires
        w0.ids_wf(),
        w0.components.wf(),
        w0.free_entity_indices@.len() > 0 || w0.next_entity_index < u32::MAX,
        r == w0.spec_next_id(),
        w1.entities@ == w0.entities@.push(r),
        w0.free_entity_indices@.len() > 0 ==> w1.free_entity_indices@ == w0.free_entity_indices@.drop_last()
            && w1.next_entity_index == w0.next_entity_index,
        w0.free_entity_indices@.len() == 0 ==> w1.free_entity_indices@ == w0.free_entity_indices@
            && w1.next_entity_index == w0.next_entity_index + 1,
        w1.entity_generations@ == gens_covering(w0.entity_generations@, r.index as nat),
        w1.components.model::<IdentityComponent>() == w0.components.model::<IdentityComponent>().insert(r, c).0,
    ensures
        !w0.entities@.contains(r),
        w0.components.model::<IdentityComponent>().insert(r, c).1,
        w1.components.lookup::<IdentityComponent>(r) == Some(c),
        w1.ids_wf(),
{
    let id0 = w0.components.model::<IdentityComponent>();
    let id1 = w1.components.model::<IdentityComponent>();
    let idx = r.index;
    let gens0 = w0.entity_generations@;
    let gens1 = w1.entity_generations@;
    let free0 = w0.free_entity_indices@;
    let free1 = w1.free_entity_indices@;
    let next0 = w0.next_entity_index;
    let next1 = w1.next_entity_index;
    crate::storage::lemma_grown_len(id0.slots.len(), idx as nat);
    let g = id0.grow(idx as nat);
    assert forall|x: int| 0 <= x < id0.slots.len() implies g.slots[x] == id0.slots[x] && g.gens[x] == id0.gens[x] by {}
    assert forall|x: int| id0.slots.len() <= x < g.slots.len() implies g.slots[x] is None && g.gens[x] == 0u32 by {}
    if free0.len() > 0 {
        assert(free0[free0.len() - 1] == idx);
        assert(idx < next0);
        assert(gens1 == gens0);
    } else {
        assert(idx == next0);
        assert(gens1 =~= gens0.push(0u32));
    }
    assert(r.generation == gens1[idx as int]);
    assert(g.gens[idx as int] == r.generation && g.slots[idx as int] is None);
    assert(id0.insert(r, c).1);
    assert(id1.slots == g.slots.update(idx as int, Some(c)));
    assert(id1.gens == g.gens);
    assert(id1.lookup(r) == Some(c));
    if w0.entities@.contains(r) {
        assert(id0.contains(r));
        assert(false);
    }
    assert forall|e: EntityId| #[trigger] w1.entities@.contains(e) implies e.index < next1
        && gens1[e.index as int] == e.generation && id1.contains(e) by {
        if e != r {
            assert(w0.entities@.contains(e)) by {
                let i = choose|i: int| 0 <= i < w1.entities@.len() && w1.entities@[i] == e;
                assert(w0.entities@[i] == e);
            }
            assert(id0.contains(e));
            assert(e.index != idx);
        } else {
            assert(w1.entities@[w0.entities@.len() as int] == r);
        }
    }
    assert forall|e1: EntityId, e2: EntityId|
        #[trigger] w1.entities@.contains(e1) && #[trigger] w1.entities@.contains(e2) && e1.index == e2.index
        implies e1 == e2 by {
        if e1 != r {
            let i = choose|i: int| 0 <= i < w1.entities@.len() && w1.entities@[i] == e1;
            assert(w0.entities@[i] == e1);
            assert(w0.entities@.contains(e1));
            assert(id0.contains(e1));
        }
        if e2 != r {
            let i = choose|i: int| 0 <= i < w1.entities@.len() && w1.entities@[i] == e2;
            assert(w0.entities@[i] == e2);
            assert(w0.entities@.contains(e2));
            assert(id0.contains(e2));
        }
    }
    assert forall|k: int| 0 <= k < free1.len() implies {
        &&& #[trigger] free1[k] < next1
        &&& free1[k] < id1.slots.len()
        &&& id1.slots[free1[k] as int] is None
        &&& id1.gens[free1[k] as int] == gens1[free1[k] as int]
    } by {
        assert(free1[k] == free0[k]);
        assert(free0[k] != idx);
    }
    assert forall|k: int, l: int| 0 <= k < free1.len() && 0 <= l < free1.len() && k != l
        implies #[trigger] free1[k] != #[trigger] free1[l] by {
        assert(free1[k] == free0[k] && free1[l] == free0[l]);
    }
    assert forall|x: int| next1 <= x < id1.slots.len() implies #[trigger] id1.slots[x] is None && id1.gens[x] == 0u32 by {
        assert(x != idx);
    }
}

/// Removing a live entity keeps the identifier bookkeeping consistent.
proof fn lemma_ids_after_remove(w0: World, w1: World, e: EntityId)
    requires
        w0.ids_wf(),
        w0.components.wf(),
        w0.entities@.contains(e),
        forall|y: EntityId| #[trigger] w1.entities@.contains(y) <==> (w0.entities@.contains(y) && y != e),
        crate::components::slot_entity_removed(w0.components.identities, w1.components.identities, e),
        w1.entity_generations@ == w0.entity_generations@.update(
            e.index as int,
            next_generation(w0.entity_generations@[e.index as int]),
        ),
        w1.free_entity_indices@ == w0.free_entity_indices@.push(e.index),
        w1.next_entity_index == w0.next_entity_index,
    ensures
        w1.ids_wf(),
        w1.spec_next_id() == (EntityId { index: e.index, generation: next_generation(e.generation) }),
{
    let id0 = w0.components.model::<IdentityComponent>();
    let id1 = w1.components.model::<IdentityComponent>();
    let idx = e.index;
    let gens0 = w0.entity_generations@;
    let gens1 = w1.entity_generations@;
    let free0 = w0.free_entity_indices@;
    let free1 = w1.free_entity_indices@;
    assert(id0.contains(e));
    assert(w0.components.identities is Some);
    assert(id1.slots == id0.slots.update(idx as int, None));
    assert(id1.gens == id0.gens.update(idx as int, next_generation(id0.gens[idx as int])));
    assert forall|y: EntityId| #[trigger] w1.entities@.contains(y) implies y.index < w1.next_entity_index
        && gens1[y.index as int] == y.generation && id1.contains(y) by {
        assert(w0.entities@.contains(y));
        assert(y.index != idx);
    }
    assert forall|k: int| 0 <= k < free1.len() implies {
        &&& #[trigger] free1[k] < w1.next_entity_index
        &&& free1[k] < id1.slots.len()
        &&& id1.slots[free1[k] as int] is None
        &&& id1.gens[free1[k] as int] == gens1[free1[k] as int]
    } by {
        if k < free0.len() {
            assert(free1[k] == free0[k]);
            assert(free0[k] != idx);
        }
    }
    assert forall|k: int, l: int| 0 <= k < free1.len() && 0 <= l < free1.len() && k != l
        implies #[trigger] free1[k] != #[trigger] free1[l] by {
        if k < free0.len() {
            assert(free1[k] == free0[k]);
            assert(free0[k] != idx);
        }
        if l < free0.len() {
            assert(free1[l] == free0[l]);
            assert(free0[l] != idx);
        }
    }
    assert forall|x: int| w1.next_entity_index <= x < id1.slots.len() implies #[trigger] id1.slots[x] is None
        && id1.gens[x] == 0u32 by {
        assert(x != idx);
    }
}

/// Work that leaves the entity bookkeeping and the identity storage alone
/// (changing other component types, or resources) keeps the identifier
/// bookkeeping consistent.
pub proof fn law_ids_kept_without_identity_changes(w0: World, w1: World)
    requires
        w0.ids_wf(),
        w1.entities@ == w0.entities@,
        w1.next_entity_index == w0.next_entity_index,
        w1.free_entity_indices@ == w0.free_entity_indices@,
        w1.entity_generations@ == w0.entity_generations@,
        w1.components.identities == w0.components.identities,
    ensures
        w1.ids_wf(),
{
    assert(w1.components.model::<IdentityComponent>() == w0.components.model::<IdentityComponent>());
}

impl Default for World {
    fn default() -> (r: Self)
        ensures
            r.entity_list() == Seq::<EntityId>::empty(),
            r.next_index() == 0,
            r.free_list() == Seq::<u32>::empty(),
            r.generation_list() == Seq::<u32>::empty(),
            r.components == EcsComponents::spec_empty(),
            r.resources == EcsResources::spec_empty(),
            r.wf(),
            r.ids_wf(),
    {
        World::new()
    }
}

impl World {
    /// Live entities, in creation order.
    pub open spec fn entity_list(&self) -> Seq<EntityId> {
        self.entities@
    }

    /// The index a new entity gets when no freed index is waiting.
    pub open spec fn next_index(&self) -> u32 {
        self.next_entity_index
    }

    /// Freed indices; the last one is reused first.
    pub open spec fn free_list(&self) -> Seq<u32> {
        self.free_entity_indices@
    }

    /// Current generation of every index handed out so far.
    pub open spec fn generation_list(&self) -> Seq<u32> {
        self.entity_generations@
    }

    pub open spec fn wf(&self) -> bool {
        self.components.wf() && self.resources.wf()
    }


    /// The identifier bookkeeping agrees with itself and with the identity
    /// storage: one generation per index handed out; every live entity has
    /// an index handed out, under that index's current generation, and its
    /// identity stored; no two live entities share an index; every freed
    /// index was handed out, is listed once, and its identity slot is empty
    /// under the same generation; identity slots past the indices handed out
    /// are empty at generation 0.
    pub open spec fn ids_wf(&self) -> bool {
        let gens = self.entity_generations@;
        let next = self.next_entity_index;
        let free = self.free_entity_indices@;
        let id = self.components.model::<IdentityComponent>();
        &&& gens.len() == next
        &&& forall|e: EntityId| #[trigger] self.entities@.contains(e) ==> {
            &&& e.index < next
            &&& gens[e.index as int] == e.generation
            &&& id.contains(e)
        }
        &&& forall|e1: EntityId, e2: EntityId|
            #[trigger] self.entities@.contains(e1) && #[trigger] self.entities@.contains(e2) && e1.index == e2.index
                ==> e1 == e2
        &&& forall|k: int| 0 <= k < free.len() ==> {
            &&& #[trigger] free[k] < next
            &&& free[k] < id.slots.len()
            &&& id.slots[free[k] as int] is None
            &&& id.gens[free[k] as int] == gens[free[k] as int]
        }
        &&& forall|k: int, l: int| 0 <= k < free.len() && 0 <= l < free.len() && k != l ==> #[trigger] free[k] != #[trigger] free[l]
        &&& forall|x: int| next <= x < id.slots.len() ==> #[trigger] id.slots[x] is None && id.gens[x] == 0u32
    }

    /// The identifier the next `create_entity` hands out.
    pub open spec fn spec_next_id(&self) -> EntityId {
        next_id(self.free_list(), self.next_index(), self.generation_list())
    }

    /// Whether some entity already carries this debug name.
    pub open spec fn name_taken(&self, name: Seq<char>) -> bool {
        name_in(self.components.model::<IdentityComponent>().entries(), name)
    }


    pub fn new() -> (r: Self)
        ensures
            r.entity_list() == Seq::<EntityId>::empty(),
            r.next_index() == 0,
            r.free_list() == Seq::<u32>::empty(),
            r.generation_list() == Seq::<u32>::empty(),
            r.components == EcsComponents::spec_empty(),
            r.resources == EcsResources::spec_empty(),
            r.wf(),
            r.ids_wf(),
    {
        World {
            entities: Vec::new(),
            next_entity_index: 0,
            free_entity_indices: Vec::new(),
            entity_generations: Vec::new(),
            components: EcsComponents::new(),
            resources: EcsResources::new(),
        }
    }

    /// Queue `event` for the application loop.
    pub fn queue_event(&mut self, event: AppEvent)
        requires
            old(self).resources.event_sender is Some,
        ensures
            final(self).resources.event_sender is Some,
            final(self).resources.event_sender.unwrap().pending@ == old(
                self,
            ).resources.event_sender.unwrap().pending@.push(event),
            final(self).resources == (EcsResources {
                event_sender: final(self).resources.event_sender,
                ..old(self).resources
            }),
            final(self).components == old(self).components,
            final(self).entity_list() == old(self).entity_list(),
            final(self).next_index() == old(self).next_index(),
            final(self).free_list() == old(self).free_list(),
            final(self).generation_list() == old(self).generation_list(),
    {
        match &mut self.resources.event_sender {
            Some(sender) => sender.pending.push(event),
            None => {},
        }
    }

    pub fn is_empty(&self) -> (r: bool)
        ensures
            r == (self.entity_list().len() == 0),
    {
        self.entities.len() == 0
    }

    /// Identifiers of every entity that has a `T`, in index order.
    pub fn get_entities_with_component<T: EcsComponent>(&self) -> (r: Vec<EntityId>)
        requires
            self.wf(),
        ensures
            r@ == self.components.model::<T>().entries().map_values(|p: (EntityId, T)| p.0),
    {
        let mut out: Vec<EntityId> = Vec::new();
        match self.components.get_storage_ref::<T>() {
            Some(st) => {
                proof {
                    T::lemma_slot(self.components, None);
                }
                let items = st.iter();
                let ghost full = st@.entries();
                let mut i: usize = 0;
                while i < items.len()
                    invariant
                        i <= items@.len(),
                        items@.map_values(|p: (EntityId, &T)| (p.0, *p.1)) == full,
                        out@ == full.take(i as int).map_values(|p: (EntityId, T)| p.0),
                    decreases items@.len() - i,
                {
                    let e = items[i].0;
                    out.push(e);
                    proof {
                        assert(full[i as int].0 == e);
                        assert(full.take(i + 1).map_values(|p: (EntityId, T)| p.0) =~= full.take(
                            i as int,
                        ).map_values(|p: (EntityId, T)| p.0).push(e));
                    }
                    i += 1;
                }
                proof {
                    assert(full.take(i as int) =~= full);
                }
            },
            None => {
                proof {
                    assert(self.components.model::<T>().entries() =~= Seq::<(EntityId, T)>::empty());
                    assert(out@ =~= self.components.model::<T>().entries().map_values(|p: (EntityId, T)| p.0));
                }
            },
        }
        out
    }

    /// Whether no entity carries `debug_name` yet (entity names must be unique).
    pub fn validate_unique_debug_name(&self, debug_name: &str) -> (r: bool)
        requires
            self.wf(),
        ensures
            r == !self.name_taken(debug_name@),
    {
        proof {
            IdentityComponent::lemma_slot(self.components, None);
        }
        let wanted = debug_name.to_owned();
        match self.components.get_storage_ref::<IdentityComponent>() {
            Some(st) => {
                let items = st.iter();
                let ghost full = st@.entries();
                assert(full == self.components.model::<IdentityComponent>().entries());
                let mut i: usize = 0;
                while i < items.len()
                    invariant
                        full == self.components.model::<IdentityComponent>().entries(),
                        wanted@ == debug_name@,
                        i <= items@.len(),
                        items@.map_values(|p: (EntityId, &IdentityComponent)| (p.0, *p.1)) == full,
                        forall|k: int| 0 <= k < i ==> (#[trigger] full[k]).1.debug_name@ != debug_name@,
                    decreases items@.len() - i,
                {
                    let c = items[i].1;
                    assert(full[i as int].1 == *c);
                    if c.debug_name == wanted {
                        assert(full[i as int].1.debug_name@ == debug_name@);
                        return false;
                    }
                    i += 1;
                }
                assert(items@.map_values(|p: (EntityId, &IdentityComponent)| (p.0, *p.1)).len() == items@.len());
                true
            },
            None => {
                proof {
                    assert(self.components.model::<IdentityComponent>().entries() =~= Seq::<(EntityId, IdentityComponent)>::empty());
                }
                true
            },
        }
    }

    /// Create an entity, reusing the most recently freed index if there is
    /// one, and give it its identity component.
    pub fn create_entity(&mut self, debug_name: String, component_type: ComponentType) -> (r: EntityId)
        requires
            old(self).wf(),
            !old(self).name_taken(debug_name@),
            old(self).ids_wf(),
            old(self).free_entity_indices@.len() > 0 || old(self).next_entity_index < u32::MAX,
            old(self).spec_next_id().index * 2 <= usize::MAX,
        ensures
            final(self).wf(),
            final(self).ids_wf(),
            r == old(self).spec_next_id(),
            !old(self).entities@.contains(r),
            final(self).components.lookup::<IdentityComponent>(r) == Some(
                IdentityComponent { debug_name, component_type },
            ),
            final(self).entities@ == old(self).entities@.push(r),
            old(self).free_entity_indices@.len() > 0 ==> {
                &&& final(self).free_entity_indices@ == old(self).free_entity_indices@.drop_last()
                &&& final(self).next_entity_index == old(self).next_entity_index
            },
            old(self).free_entity_indices@.len() == 0 ==> {
                &&& final(self).free_entity_indices@ == old(self).free_entity_indices@
                &&& final(self).next_entity_index == old(self).next_entity_index + 1
            },
            final(self).entity_generations@ == gens_covering(old(self).entity_generations@, r.index as nat),
            old(self).components.changes_only::<IdentityComponent>(final(self).components),
            final(self).components.model::<IdentityComponent>() == old(self).components.model::<IdentityComponent>().insert(
                r,
                IdentityComponent { debug_name, component_type },
            ).0,
            final(self).resources == old(self).resources,
    {
        let index: u32 = match self.free_entity_indices.pop() {
            Some(free_index) => free_index,
            None => {
                let index = self.next_entity_index;
                self.next_entity_index = self.next_entity_index + 1;
                index
            },
        };
        let ghost g0 = self.entity_generations@;
        let ghost pre = *self;
        if index as usize >= self.entity_generations.len() {
            while self.entity_generations.len() <= index as usize
                invariant
                    self.entities == pre.entities,
                    self.free_entity_indices == pre.free_entity_indices,
                    self.next_entity_index == pre.next_entity_index,
                    self.components == pre.components,
                    self.resources == pre.resources,
                    self.entity_generations@.len() <= index + 1,
                    self.entity_generations@.len() >= g0.len(),
                    self.entity_generations@.subrange(0, g0.len() as int) == g0,
                    forall|i: int| g0.len() <= i < self.entity_generations@.len() ==> #[trigger] self.entity_generations@[i] == 0u32,
                    index * 2 <= usize::MAX,
                decreases index + 1 - self.entity_generations@.len(),
            {
                self.entity_generations.push(0);
            }
            proof {
                assert(self.entity_generations@ =~= gens_covering(g0, index as nat));
            }
        }
        let generation = self.entity_generations[index as usize];
        let entity_id = EntityId::new(index, generation);
        self.entities.push(entity_id);
        let ghost identity = IdentityComponent { debug_name, component_type };
        self.components.add_component(entity_id, IdentityComponent { debug_name, component_type });
        proof {
            lemma_ids_after_create(*old(self), *self, entity_id, identity);
        }
        entity_id
    }

    /// Add `component` to the live entity `entity_id`, which must not have
    /// a `T` yet (the storage may still refuse it when the generations of
    /// the storage and the world disagree).
    pub fn add_component<T: EcsComponent>(&mut self, entity_id: EntityId, component: T)
        requires
            old(self).wf(),
            old(self).entities@.contains(entity_id),
            !old(self).components.has::<T>(entity_id),
            entity_id.index * 2 <= usize::MAX,
        ensures
            final(self).wf(),
            old(self).components.changes_only::<T>(final(self).components),
            T::spec_slot(final(self).components) is Some,
            final(self).components.model::<T>() == old(self).components.model::<T>().insert(entity_id, component).0,
            final(self).entities == old(self).entities,
            final(self).next_entity_index == old(self).next_entity_index,
            final(self).free_entity_indices == old(self).free_entity_indices,
            final(self).entity_generations == old(self).entity_generations,
            final(self).resources == old(self).resources,
            old(self).ids_wf() ==> final(self).ids_wf(),
    {
        self.components.add_component(entity_id, component);
        proof {
            let c0 = old(self).components;
            let c1 = self.components;
            T::lemma_slot_id(c0, c1, T::spec_slot(c1), entity_id);
            IdentityComponent::lemma_slot_id(c1, c0, None, entity_id);
            if old(self).ids_wf() && T::slot_id() != 0 {
                assert(crate::components::same_field(T::spec_with_slot(c0, T::spec_slot(c1)), c0, 0));
                assert(c1.identities == c0.identities);
            }
        }
    }

    /// Remove the live entity `entity_id` and all its components; its index
    /// becomes free and its generation moves on. An identifier that is not
    /// alive (never handed out, or already removed) changes nothing.
    pub fn remove_entity(&mut self, entity_id: EntityId)
        requires
            old(self).wf(),
        ensures
            final(self).wf(),
            !old(self).entities@.contains(entity_id) ==> *final(self) == *old(self),
            old(self).entities@.contains(entity_id) ==> {
                &&& final(self).entities@ == old(self).entities@.filter(|x: EntityId| x != entity_id)
                &&& crate::components::entity_removed(old(self).components, final(self).components, entity_id)
                &&& final(self).next_entity_index == old(self).next_entity_index
                &&& final(self).resources == old(self).resources
                &&& entity_id.index < old(self).entity_generations@.len() ==> {
                    &&& final(self).entity_generations@ == old(self).entity_generations@.update(
                        entity_id.index as int,
                        next_generation(old(self).entity_generations@[entity_id.index as int]),
                    )
                    &&& final(self).free_entity_indices@ == old(self).free_entity_indices@.push(entity_id.index)
                }
                &&& entity_id.index >= old(self).entity_generations@.len() ==> {
                    &&& final(self).entity_generations@ == old(self).entity_generations@
                    &&& final(self).free_entity_indices@ == old(self).free_entity_indices@
                }
            },
            old(self).ids_wf() ==> final(self).ids_wf(),
            old(self).ids_wf() && old(self).entities@.contains(entity_id) ==> final(self).spec_next_id() == (EntityId {
                index: entity_id.index,
                generation: next_generation(entity_id.generation),
            }),
    {
        let mut kept: Vec<EntityId> = Vec::new();
        let mut found = false;
        let mut i: usize = 0;
        while i < self.entities.len()
            invariant
                i <= self.entities@.len(),
                self.entities@ == old(self).entities@,
                kept@ == self.entities@.take(i as int).filter(|x: EntityId| x != entity_id),
                found == self.entities@.take(i as int).contains(entity_id),
            decreases self.entities@.len() - i,
        {
            let e = self.entities[i];
            proof {
                let s = self.entities@;
                assert(s.take(i + 1).drop_last() =~= s.take(i as int));
                assert(s.take(i + 1).last() == e);
                reveal(Seq::filter);
                assert(s.take(i + 1) =~= s.take(i as int).push(e));
                assert(s.take(i + 1).contains(entity_id) == (s.take(i as int).contains(entity_id) || e == entity_id));
            }
            if e != entity_id {
                kept.push(e);
            } else {
                found = true;
            }
            i += 1;
        }
        proof {
            assert(self.entities@.take(i as int) =~= self.entities@);
        }
        if !found {
            return;
        }
        let ghost w0 = *self;
        self.entities = kept;
        self.components.remove_entity(entity_id);
        let index = entity_id.index as usize;
        if index < self.entity_generations.len() {
            let g = self.entity_generations[index];
            self.entity_generations.set(index, g.wrapping_add(1));
            self.free_entity_indices.push(entity_id.index);
        }
        proof {
            if w0.ids_wf() {
                broadcast use vstd::seq_lib::group_filter_ensures;
                assert forall|y: EntityId| #[trigger] self.entities@.contains(y) <==> (w0.entities@.contains(y) && y != entity_id) by {
                    if self.entities@.contains(y) {
                        w0.entities@.lemma_filter_contains_rev(|x: EntityId| x != entity_id, y);
                        let k = choose|k: int| 0 <= k < self.entities@.len() && self.entities@[k] == y;
                        assert(self.entities@[k] != entity_id);
                    }
                    if w0.entities@.contains(y) && y != entity_id {
                        let k = choose|k: int| 0 <= k < w0.entities@.len() && w0.entities@[k] == y;
                        assert(self.entities@.contains(w0.entities@[k]));
                    }
                }
                assert(entity_id.index < w0.entity_generations@.len());
                lemma_ids_after_remove(w0, *self, entity_id);
            }
        }
    }

    /// Install `resource`, replacing any earlier value of its type.
    pub fn add_resource<T: EcsResource>(&mut self, resource: T)
        requires
            old(self).wf(),
            T::spec_value_wf(resource),
        ensures
            final(self).wf(),
            final(self).resources == T::spec_with_slot(old(self).resources, Some(resource)),
            final(self).components == old(self).components,
            final(self).entities == old(self).entities,
            final(self).next_entity_index == old(self).next_entity_index,
            final(self).free_entity_indices == old(self).free_entity_indices,
            final(self).entity_generations == old(self).entity_generations,
            final(self).ids_wf() == old(self).ids_wf(),
    {
        let slot = T::slot_mut(&mut self.resources);
        *slot = Some(resource);
    }

    /// Run `system` once over this world.
    pub fn run_system<S: EcsSystem>(&mut self, system: S)
        requires
            old(self).wf(),
            system.runnable(*old(self)),
        ensures
            final(self).wf(),
            system.effect(*old(self), *final(self)),
            old(self).ids_wf() ==> final(self).ids_wf(),
    {
        let ghost s0 = system;
        let mut system = system;
        system.run(self);
        proof {
            if old(self).ids_wf() {
                s0.lemma_effect_keeps_ids(*old(self), *self);
            }
        }
    }

    /// Hand every `T`, in index order and with its entity, to `f`: each
    /// entity that has a `T`, with that component, is a call `f` made.
    pub fn for_each_component<T: EcsComponent, F: FnMut(EntityId, &T)>(&self, f: F)
        requires
            self.wf(),
            forall|e: EntityId, c: &T| f.requires((e, c)),
        ensures
            forall|i: int| 0 <= i < self.components.model::<T>().entries().len() ==> #[trigger] f.ensures(
                (self.components.model::<T>().entries()[i].0, &self.components.model::<T>().entries()[i].1),
                (),
            ),
    {
        self.components.for_each::<T, F>(f);
    }

    /// Hand every `T`, in index order and with its entity, to `f`, which may
    /// change it in place; each new value is what one call of `f` left.
    pub fn for_each_component_mut<T: EcsComponent, F: FnMut(EntityId, &mut T)>(&mut self, f: F)
        requires
            old(self).wf(),
            forall|e: EntityId, c: &mut T| f.requires((e, c)),
        ensures
            final(self).wf(),
            old(self).components.changes_only::<T>(final(self).components),
            T::spec_slot(final(self).components) is Some,
            crate::storage::same_occupancy(old(self).components.model::<T>(), final(self).components.model::<T>()),
            forall|k: int| 0 <= k < old(self).components.model::<T>().slots.len()
                && #[trigger] old(self).components.model::<T>().slots[k] is Some
                ==> exists|r: &mut T| *r == old(self).components.model::<T>().slots[k].unwrap()
                    && *final(r) == final(self).components.model::<T>().slots[k].unwrap()
                    && #[trigger] f.ensures(
                        (crate::storage::slot_entity(k, old(self).components.model::<T>().gens[k]), r),
                        (),
                    ),
            final(self).entities == old(self).entities,
            final(self).next_entity_index == old(self).next_entity_index,
            final(self).free_entity_indices == old(self).free_entity_indices,
            final(self).entity_generations == old(self).entity_generations,
            final(self).resources == old(self).resources,
    {
        self.components.for_each_mut::<T, F>(f);
    }

    /// Forget every entity and component and rebuild the resettable resources.
    pub fn reset(&mut self)
        requires
            old(self).wf(),
        ensures
            final(self).wf(),
            final(self).ids_wf(),
            world_reset(*old(self), *final(self)),
    {
        self.entities.clear();
        self.next_entity_index = 0;
        self.free_entity_indices.clear();
        self.entity_generations.clear();
        self.components.clear();
        self.reset_resettable_resources();
    }
}

/// `w1` is `w0` reset: no entity, no component, every resettable resource
/// fresh, and the event queue kept.
pub open spec fn world_reset(w0: World, w1: World) -> bool {
    &&& w1.entities@ == Seq::<EntityId>::empty()
    &&& w1.next_entity_index == 0
    &&& w1.free_entity_indices@ == Seq::<u32>::empty()
    &&& w1.entity_generations@ == Seq::<u32>::empty()
    &&& crate::components::cleared(w0.components.identities, w1.components.identities)
    &&& crate::components::cleared(w0.components.hierarchies, w1.components.hierarchies)
    &&& crate::components::cleared(w0.components.interactions, w1.components.interactions)
    &&& crate::components::cleared(w0.components.modals, w1.components.modals)
    &&& crate::components::cleared(w0.components.images, w1.components.images)
    &&& resettables_fresh(w1.resources)
    &&& w1.resources.event_sender == w0.resources.event_sender
}

/// The resettable resources all hold their default values.
pub open spec fn resettables_fresh(r: EcsResources) -> bool {
    &&& r.render_order matches Some(x) && x.render_order@.len() == 0
    &&& r.render_groups matches Some(x) && x.groups@.len() == 0
    &&& r.request_relayout matches Some(x) && !x.request_relayout
    &&& r.named_refs matches Some(x) && x@ == Map::<crate::entity::NamedRef, EntityId>::empty()
    &&& r.entry_exit_animation_state matches Some(x) && x.entry_animation_state@ == Map::<EntityId, bool>::empty()
        && x.exit_animation_state@ == Map::<EntityId, bool>::empty()
}

impl ResourceManager for World {
    fn initialize_resettable_resources(&mut self)
        ensures
            resettables_fresh(final(self).resources),
            final(self).resources.event_sender == old(self).resources.event_sender,
            final(self).components == old(self).components,
            final(self).entities == old(self).entities,
            final(self).next_entity_index == old(self).next_entity_index,
            final(self).free_entity_indices == old(self).free_entity_indices,
            final(self).entity_generations == old(self).entity_generations,
            old(self).wf() ==> final(self).wf(),
    {
        self.resources.render_order = Some(RenderOrderResource::default());
        self.resources.render_groups = Some(RenderGroupsResource::default());
        self.resources.request_relayout = Some(RequestReLayoutResource::default());
        self.resources.named_refs = Some(NamedRefsResource::default());
        self.resources.entry_exit_animation_state = Some(EntryExitAnimationStateResource::default());
    }

    fn reset_resettable_resources(&mut self)
        ensures
            resettables_fresh(final(self).resources),
            final(self).resources.event_sender == old(self).resources.event_sender,
            final(self).components == old(self).components,
            final(self).entities == old(self).entities,
            final(self).next_entity_index == old(self).next_entity_index,
            final(self).free_entity_indices == old(self).free_entity_indices,
            final(self).entity_generations == old(self).entity_generations,
            old(self).wf() ==> final(self).wf(),
    {
        self.resources.render_order = None;
        self.resources.render_groups = None;
        self.resources.request_relayout = None;
        self.resources.named_refs = None;
        self.resources.entry_exit_animation_state = None;
        self.initialize_resettable_resources();
    }
}

} // verus!
