//! Component types and the per-type storages that hold them.
use vstd::prelude::*;
use crate::entity::{AppEvent, ComponentType, EntityId};
use crate::storage::{ComponentStorage, StorageModel, slot_entity, law_insert_then_lookup};

verus! {

/// Debug name and kind of every entity.
#[derive(Debug, Clone)]
pub struct IdentityComponent {
    pub debug_name: String,
    pub component_type: ComponentType,
}

/// Parent and ordered children of an entity in the UI tree.
#[derive(Debug, Clone)]
pub struct HierarchyComponent {
    pub parent: Option<EntityId>,
    pub children: Vec<EntityId>,
}

/// Pointer interaction state of an entity.
#[derive(Debug, Clone)]
pub struct InteractionComponent {
    pub is_clickable: bool,
    pub is_draggable: bool,
    pub is_hoverable: bool,
    pub is_hovered: bool,
    pub click_event: Option<AppEvent>,
    pub drag_event: Option<AppEvent>,
    pub is_active: bool,
    pub is_just_activated: bool,
    pub is_just_deactivated: bool,
    pub is_event_bubble_boundary: bool,
}

/// Open/close state of a modal and the entities that belong to it.
#[derive(Debug, Clone)]
pub struct ModalComponent {
    pub renderable_children: Vec<EntityId>,
    pub non_renderable_children: Vec<EntityId>,
    pub is_open: bool,
    pub is_opening: bool,
    pub is_closing: bool,
    pub has_entry_animation: bool,
    pub has_exit_animation: bool,
}

/// How an image is fitted into its container.
#[derive(Debug, Clone, Copy, PartialEq, Eq, Structural)]
pub enum ScaleMode {
    Stretch,
    Contain,
    ContainNoCenter,
    Cover,
    Original,
}

/// Scaling mode and pixel size of an image entity.
#[derive(Debug, Clone)]
pub struct ImageComponent {
    pub scale_mode: ScaleMode,
    pub original_width: u32,
    pub original_height: u32,
}

/// One storage per component type; a storage exists only once something
/// has asked for it mutably.
pub struct EcsComponents {
    pub identities: Option<ComponentStorage<IdentityComponent>>,
    pub hierarchies: Option<ComponentStorage<HierarchyComponent>>,
    pub interactions: Option<ComponentStorage<InteractionComponent>>,
    pub modals: Option<ComponentStorage<ModalComponent>>,
    pub images: Option<ComponentStorage<ImageComponent>>,
}

/// The model of an optional storage: absent storages hold nothing.
pub open spec fn slot_model<T>(s: Option<ComponentStorage<T>>) -> StorageModel<T> {
    match s {
        Some(st) => st@,
        None => StorageModel::empty(),
    }
}

pub open spec fn slot_wf<T>(s: Option<ComponentStorage<T>>) -> bool {
    match s {
        Some(st) => st@.wf(),
        None => true,
    }
}

/// A type that can be stored as a component; each implementation names the
/// storage that holds values of that type.
pub trait EcsComponent: Sized {
    spec fn spec_slot(c: EcsComponents) -> Option<ComponentStorage<Self>>;

    spec fn spec_with_slot(c: EcsComponents, s: Option<ComponentStorage<Self>>) -> EcsComponents;

    fn slot(c: &EcsComponents) -> (r: &Option<ComponentStorage<Self>>)
        ensures
            *r == Self::spec_slot(*c),
    ;

    fn slot_mut(c: &mut EcsComponents) -> (r: &mut Option<ComponentStorage<Self>>)
        ensures
            *r == Self::spec_slot(*old(c)),
            *final(c) == Self::spec_with_slot(*old(c), *final(r)),
            Self::spec_slot(*final(c)) == *final(r),
            old(c).wf() && slot_wf(*final(r)) ==> final(c).wf(),
            old(c).wf() ==> slot_wf(*r),
    ;

    proof fn lemma_slot(c: EcsComponents, s: Option<ComponentStorage<Self>>)
        ensures
            Self::spec_slot(Self::spec_with_slot(c, s)) == s,
            Self::spec_slot(EcsComponents::spec_empty()) is None,
            c.wf() ==> slot_wf(Self::spec_slot(c)),
            c.wf() && slot_wf(s) ==> Self::spec_with_slot(c, s).wf(),
            Self::spec_with_slot(c, Self::spec_slot(c)) == c,
    ;

    /// Which storage of [`EcsComponents`] holds this type (0 to 4, in field order).
    spec fn slot_id() -> int;

    /// Each type owns one storage: this type's storage is read from its own
    /// field alone, replacing it leaves every other field as it was, and the
    /// type of field 0 answers for an entity exactly as the identities do.
    proof fn lemma_slot_id(c: EcsComponents, d: EcsComponents, s: Option<ComponentStorage<Self>>, e: EntityId)
        ensures
            0 <= Self::slot_id() < 5,
            same_field(c, d, Self::slot_id()) ==> Self::spec_slot(c) == Self::spec_slot(d),
            forall|j: int| j != Self::slot_id() ==> #[trigger] same_field(Self::spec_with_slot(c, s), c, j),
            Self::slot_id() == 0 ==> (slot_model(Self::spec_slot(c)).contains(e) <==> slot_model(c.identities).contains(e)),
    ;
}

/// Whether `a` and `b` hold the same storage in field `j` (in field order).
pub open spec fn same_field(a: EcsComponents, b: EcsComponents, j: int) -> bool {
    if j == 0 {
        a.identities == b.identities
    } else if j == 1 {
        a.hierarchies == b.hierarchies
    } else if j == 2 {
        a.interactions == b.interactions
    } else if j == 3 {
        a.modals == b.modals
    } else if j == 4 {
        a.images == b.images
    } else {
        true
    }
}

impl EcsComponent for IdentityComponent {
    open spec fn spec_slot(c: EcsComponents) -> Option<ComponentStorage<Self>> {
        c.identities
    }

    open spec fn spec_with_slot(c: EcsComponents, s: Option<ComponentStorage<Self>>) -> EcsComponents {
        EcsComponents { identities: s, ..c }
    }

    fn slot(c: &EcsComponents) -> (r: &Option<ComponentStorage<Self>>) {
        &c.identities
    }

    fn slot_mut(c: &mut EcsComponents) -> (r: &mut Option<ComponentStorage<Self>>) {
        &mut c.identities
    }

    proof fn lemma_slot(c: EcsComponents, s: Option<ComponentStorage<Self>>) {
    }

    open spec fn slot_id() -> int {
        0
    }

    proof fn lemma_slot_id(c: EcsComponents, d: EcsComponents, s: Option<ComponentStorage<Self>>, e: EntityId) {
    }
}

impl EcsComponent for HierarchyComponent {
    open spec fn spec_slot(c: EcsComponents) -> Option<ComponentStorage<Self>> {
        c.hierarchies
    }

    open spec fn spec_with_slot(c: EcsComponents, s: Option<ComponentStorage<Self>>) -> EcsComponents {
        EcsComponents { hierarchies: s, ..c }
    }

    fn slot(c: &EcsComponents) -> (r: &Option<ComponentStorage<Self>>) {
        &c.hierarchies
    }

    fn slot_mut(c: &mut EcsComponents) -> (r: &mut Option<ComponentStorage<Self>>) {
        &mut c.hierarchies
    }

    proof fn lemma_slot(c: EcsComponents, s: Option<ComponentStorage<Self>>) {
    }

    open spec fn slot_id() -> int {
        1
    }

    proof fn lemma_slot_id(c: EcsComponents, d: EcsComponents, s: Option<ComponentStorage<Self>>, e: EntityId) {
    }
}

impl EcsComponent for InteractionComponent {
    open spec fn spec_slot(c: EcsComponents) -> Option<ComponentStorage<Self>> {
        c.interactions
    }

    open spec fn spec_with_slot(c: EcsComponents, s: Option<ComponentStorage<Self>>) -> EcsComponents {
        EcsComponents { interactions: s, ..c }
    }

    fn slot(c: &EcsComponents) -> (r: &Option<ComponentStorage<Self>>) {
        &c.interactions
    }

    fn slot_mut(c: &mut EcsComponents) -> (r: &mut Option<ComponentStorage<Self>>) {
        &mut c.interactions
    }

    proof fn lemma_slot(c: EcsComponents, s: Option<ComponentStorage<Self>>) {
    }

    open spec fn slot_id() -> int {
        2
    }

    proof fn lemma_slot_id(c: EcsComponents, d: EcsComponents, s: Option<ComponentStorage<Self>>, e: EntityId) {
    }
}

impl EcsComponent for ModalComponent {
    open spec fn spec_slot(c: EcsComponents) -> Option<ComponentStorage<Self>> {
        c.modals
    }

    open spec fn spec_with_slot(c: EcsComponents, s: Option<ComponentStorage<Self>>) -> EcsComponents {
        EcsComponents { modals: s, ..c }
    }

    fn slot(c: &EcsComponents) -> (r: &Option<ComponentStorage<Self>>) {
        &c.modals
    }

    fn slot_mut(c: &mut EcsComponents) -> (r: &mut Option<ComponentStorage<Self>>) {
        &mut c.modals
    }

    proof fn lemma_slot(c: EcsComponents, s: Option<ComponentStorage<Self>>) {
    }

    open spec fn slot_id() -> int {
        3
    }

    proof fn lemma_slot_id(c: EcsComponents, d: EcsComponents, s: Option<ComponentStorage<Self>>, e: EntityId) {
    }
}

impl EcsComponent for ImageComponent {
    open spec fn spec_slot(c: EcsComponents) -> Option<ComponentStorage<Self>> {
        c.images
    }

    open spec fn spec_with_slot(c: EcsComponents, s: Option<ComponentStorage<Self>>) -> EcsComponents {
        EcsComponents { images: s, ..c }
    }

    fn slot(c: &EcsComponents) -> (r: &Option<ComponentStorage<Self>>) {
        &c.images
    }

    fn slot_mut(c: &mut EcsComponents) -> (r: &mut Option<ComponentStorage<Self>>) {
        &mut c.images
    }

    proof fn lemma_slot(c: EcsComponents, s: Option<ComponentStorage<Self>>) {
    }

    open spec fn slot_id() -> int {
        4
    }

    proof fn lemma_slot_id(c: EcsComponents, d: EcsComponents, s: Option<ComponentStorage<Self>>, e: EntityId) {
    }
}

impl EcsComponents {
    pub open spec fn spec_empty() -> EcsComponents {
        EcsComponents { identities: None, hierarchies: None, interactions: None, modals: None, images: None }
    }

    /// Every storage that exists is well formed.
    pub open spec fn wf(self) -> bool {
        &&& slot_wf(self.identities)
        &&& slot_wf(self.hierarchies)
        &&& slot_wf(self.interactions)
        &&& slot_wf(self.modals)
        &&& slot_wf(self.images)
    }

    /// What the storage of `T` holds (nothing when it does not exist yet).
    pub open spec fn model<T: EcsComponent>(self) -> StorageModel<T> {
        slot_model(T::spec_slot(self))
    }

    pub open spec fn lookup<T: EcsComponent>(self, e: EntityId) -> Option<T> {
        self.model::<T>().lookup(e)
    }

    pub open spec fn has<T: EcsComponent>(self, e: EntityId) -> bool {
        self.model::<T>().contains(e)
    }

    /// `next` differs from `self` at most in the storage of `T`.
    pub open spec fn changes_only<T: EcsComponent>(self, next: EcsComponents) -> bool {
        next == T::spec_with_slot(self, T::spec_slot(next))
    }

    pub fn new() -> (r: Self)
        ensures
            r == EcsComponents::spec_empty(),
            r.wf(),
    {
        EcsComponents { identities: None, hierarchies: None, interactions: None, modals: None, images: None }
    }

    /// Empty every storage that exists (storages stay created).
    pub fn clear(&mut self)
        ensures
            final(self).wf(),
            cleared(old(self).identities, final(self).identities),
            cleared(old(self).hierarchies, final(self).hierarchies),
            cleared(old(self).interactions, final(self).interactions),
            cleared(old(self).modals, final(self).modals),
            cleared(old(self).images, final(self).images),
    {
        clear_slot(&mut self.identities);
        clear_slot(&mut self.hierarchies);
        clear_slot(&mut self.interactions);
        clear_slot(&mut self.modals);
        clear_slot(&mut self.images);
    }

    /// The storage of `T`, created empty if it does not exist yet.
    pub fn get_storage<T: EcsComponent>(&mut self) -> (r: &mut ComponentStorage<T>)
        requires
            old(self).wf(),
        ensures
            r@ == old(self).model::<T>(),
            r@.wf(),
            *final(self) == T::spec_with_slot(*old(self), Some(*final(r))),
            T::spec_slot(*final(self)) == Some(*final(r)),
            final(r)@.wf() ==> final(self).wf(),
            old(self).changes_only::<T>(*final(self)),
    {
        let slot = T::slot_mut(self);
        if slot.is_none() {
            *slot = Some(ComponentStorage::new());
        }
        slot.as_mut().unwrap()
    }

    /// The storage of `T`, if it has been created.
    pub fn get_storage_ref<T: EcsComponent>(&self) -> (r: Option<&ComponentStorage<T>>)
        ensures
            match r {
                Some(st) => T::spec_slot(*self) == Some(*st),
                None => T::spec_slot(*self) is None,
            },
    {
        T::slot(self).as_ref()
    }

    /// Add `component` to `entity` in the storage of `T` (creating it);
    /// false when the storage refuses it.
    pub fn add_component<T: EcsComponent>(&mut self, entity: EntityId, component: T) -> (r: bool)
        requires
            old(self).wf(),
            entity.index * 2 <= usize::MAX,
        ensures
            final(self).wf(),
            old(self).changes_only::<T>(*final(self)),
            T::spec_slot(*final(self)) is Some,
            (final(self).model::<T>(), r) == old(self).model::<T>().insert(entity, component),
    {
        let st = self.get_storage::<T>();
        st.insert(entity, component)
    }

    pub fn get_component<T: EcsComponent>(&self, entity: EntityId) -> (r: Option<&T>)
        requires
            self.wf(),
        ensures
            match r {
                Some(c) => self.lookup::<T>(entity) == Some(*c),
                None => self.lookup::<T>(entity) is None,
            },
    {
        proof {
            T::lemma_slot(*self, None);
        }
        match T::slot(self) {
            Some(st) => st.get(entity),
            None => None,
        }
    }

    /// Mutable access to the component of `T` of `entity` (creating the
    /// storage of `T` if needed).
    pub fn get_component_mut<T: EcsComponent>(&mut self, entity: EntityId) -> (r: Option<&mut T>)
        requires
            old(self).wf(),
        ensures
            final(self).wf(),
            old(self).changes_only::<T>(*final(self)),
            T::spec_slot(*final(self)) is Some,
            match r {
                Some(c) => {
                    &&& old(self).lookup::<T>(entity) == Some(*c)
                    &&& final(self).model::<T>().slots == old(self).model::<T>().slots.update(
                        entity.index as int,
                        Some(*final(c)),
                    )
                    &&& final(self).model::<T>().gens == old(self).model::<T>().gens
                    &&& final(self).model::<T>().free == old(self).model::<T>().free
                },
                None => old(self).lookup::<T>(entity) is None && final(self).model::<T>()
                    == old(self).model::<T>(),
            },
    {
        let st = self.get_storage::<T>();
        st.get_mut(entity)
    }

    /// Take the component of `T` away from `entity` (creating the storage if needed).
    pub fn remove_component<T: EcsComponent>(&mut self, entity: EntityId) -> (r: Option<T>)
        requires
            old(self).wf(),
        ensures
            final(self).wf(),
            old(self).changes_only::<T>(*final(self)),
            T::spec_slot(*final(self)) is Some,
            (final(self).model::<T>(), r) == old(self).model::<T>().remove(entity),
    {
        let st = self.get_storage::<T>();
        st.remove(entity)
    }

    pub fn has_component<T: EcsComponent>(&self, entity: EntityId) -> (r: bool)
        requires
            self.wf(),
        ensures
            r == self.has::<T>(entity),
    {
        proof {
            T::lemma_slot(*self, None);
        }
        match T::slot(self) {
            Some(st) => st.has_entity(entity),
            None => false,
        }
    }

    /// Remove every component of `entity`; each storage that held one bumps
    /// the slot's generation.
    pub fn remove_entity(&mut self, entity: EntityId)
        requires
            old(self).wf(),
        ensures
            final(self).wf(),
            entity_removed(*old(self), *final(self), entity),
    {
        remove_from_slot(&mut self.identities, entity);
        remove_from_slot(&mut self.hierarchies, entity);
        remove_from_slot(&mut self.interactions, entity);
        remove_from_slot(&mut self.modals, entity);
        remove_from_slot(&mut self.images, entity);
    }

    /// Hand every `T`, in index order and with its entity, to `f`: each
    /// occupied slot's entity and component is a call `f` made.
    pub fn for_each<T: EcsComponent, F: FnMut(EntityId, &T)>(&self, mut f: F)
        requires
            self.wf(),
            forall|e: EntityId, c: &T| f.requires((e, c)),
        ensures
            forall|i: int| 0 <= i < self.model::<T>().entries().len() ==> #[trigger] f.ensures(
                (self.model::<T>().entries()[i].0, &self.model::<T>().entries()[i].1),
                (),
            ),
    {
        broadcast use vstd::function::group_function_axioms;
        proof {
            T::lemma_slot(*self, None);
        }
        let ghost f0 = f;
        match self.get_storage_ref::<T>() {
            Some(st) => {
                let items = st.iter();
                let ghost full = self.model::<T>().entries();
                assert(items@.map_values(|p: (EntityId, &T)| (p.0, *p.1)) == full);
                let mut i: usize = 0;
                while i < items.len()
                    invariant
                        f == f0,
                        forall|e: EntityId, c: &T| f.requires((e, c)),
                        i <= items@.len(),
                        items@.map_values(|p: (EntityId, &T)| (p.0, *p.1)) == full,
                        forall|j: int| 0 <= j < i ==> #[trigger] f0.ensures((full[j].0, &full[j].1), ()),
                    decreases items@.len() - i,
                {
                    let (e, c) = items[i];
                    assert(full[i as int] == (e, *c));
                    f(e, c);
                    assert(f0.ensures((full[i as int].0, &full[i as int].1), ()));
                    i += 1;
                }
                assert(items@.map_values(|p: (EntityId, &T)| (p.0, *p.1)).len() == items@.len());
            },
            None => {
                assert(self.model::<T>().entries() =~= Seq::<(EntityId, T)>::empty());
            },
        }
    }

    /// Hand every `T`, in index order and with its entity, to `f`, which may
    /// change it in place; the storage of `T` is created if missing. Each
    /// occupied slot's new value is what one call of `f` left in it.
    pub fn for_each_mut<T: EcsComponent, F: FnMut(EntityId, &mut T)>(&mut self, f: F)
        requires
            old(self).wf(),
            forall|e: EntityId, c: &mut T| f.requires((e, c)),
        ensures
            final(self).wf(),
            old(self).changes_only::<T>(*final(self)),
            T::spec_slot(*final(self)) is Some,
            crate::storage::same_occupancy(old(self).model::<T>(), final(self).model::<T>()),
            forall|k: int| 0 <= k < old(self).model::<T>().slots.len() && #[trigger] old(self).model::<T>().slots[k] is Some
                ==> exists|r: &mut T| *r == old(self).model::<T>().slots[k].unwrap()
                    && *final(r) == final(self).model::<T>().slots[k].unwrap()
                    && #[trigger] f.ensures((slot_entity(k, old(self).model::<T>().gens[k]), r), ()),
    {
        let st = self.get_storage::<T>();
        st.for_each_mut(f);
    }

    /// Entities that have both a `T` and a `U`, in index order, with both components.
    pub fn query_combined_2<T: EcsComponent, U: EcsComponent>(&self) -> (r: Vec<(EntityId, &T, &U)>)
        requires
            self.wf(),
        ensures
            r@.map_values(|p: (EntityId, &T, &U)| (p.0, *p.1, *p.2)) == join2(
                self.model::<T>(),
                self.model::<U>(),
            ),
    {
        proof {
            T::lemma_slot(*self, None);
            U::lemma_slot(*self, None);
        }
        let mut result: Vec<(EntityId, &T, &U)> = Vec::new();
        let st_opt = T::slot(self);
        let su_opt = U::slot(self);
        match (st_opt, su_opt) {
            (Some(st), Some(su)) => {
                let ghost mt = st@;
                let ghost mu = su@;
                if st.len() <= su.len() {
                    let n = st.capacity();
                    let mut i: usize = 0;
                    while i < n
                        invariant
                            mt == st@, mu == su@, mt.wf(), mu.wf(),
                            n == mt.slots.len(),
                            i <= n,
                            result@.map_values(|p: (EntityId, &T, &U)| (p.0, *p.1, *p.2))
                                == join2_upto(mt, mu, i as nat),
                        decreases n - i,
                    {
                        match st.entry_at(i) {
                            Some((e, tc)) => {
                                match su.get(e) {
                                    Some(uc) => {
                                        result.push((e, tc, uc));
                                    },
                                    None => {},
                                }
                            },
                            None => {},
                        }
                        proof {
                            assert(result@.map_values(|p: (EntityId, &T, &U)| (p.0, *p.1, *p.2))
                                =~= join2_upto(mt, mu, (i + 1) as nat));
                        }
                        i += 1;
                    }
                    proof {
                        lemma_join2_stable(mt, mu, n as nat);
                    }
                } else {
                    let n = su.capacity();
                    let mut i: usize = 0;
                    while i < n
                        invariant
                            mt == st@, mu == su@, mt.wf(), mu.wf(),
                            n == mu.slots.len(),
                            i <= n,
                            result@.map_values(|p: (EntityId, &T, &U)| (p.0, *p.1, *p.2))
                                == join2_upto(mt, mu, i as nat),
                        decreases n - i,
                    {
                        match su.entry_at(i) {
                            Some((e, uc)) => {
                                match st.get(e) {
                                    Some(tc) => {
                                        result.push((e, tc, uc));
                                    },
                                    None => {},
                                }
                            },
                            None => {},
                        }
                        proof {
                            assert(result@.map_values(|p: (EntityId, &T, &U)| (p.0, *p.1, *p.2))
                                =~= join2_upto(mt, mu, (i + 1) as nat));
                        }
                        i += 1;
                    }
                    proof {
                        lemma_join2_stable(mt, mu, n as nat);
                    }
                }
            },
            _ => {
                proof {
                    lemma_join2_empty(self.model::<T>(), self.model::<U>());
                    assert(result@.map_values(|p: (EntityId, &T, &U)| (p.0, *p.1, *p.2))
                        =~= Seq::<(EntityId, T, U)>::empty());
                }
            },
        }
        result
    }

    /// Entities that have a `T`, a `U` and a `V`, in index order, with all three components.
    pub fn query_combined_3<T: EcsComponent, U: EcsComponent, V: EcsComponent>(&self) -> (r: Vec<(EntityId, &T, &U, &V)>)
        requires
            self.wf(),
        ensures
            r@.map_values(|p: (EntityId, &T, &U, &V)| (p.0, *p.1, *p.2, *p.3)) == join3(
                self.model::<T>(),
                self.model::<U>(),
                self.model::<V>(),
            ),
    {
        proof {
            T::lemma_slot(*self, None);
            U::lemma_slot(*self, None);
            V::lemma_slot(*self, None);
        }
        let mut result: Vec<(EntityId, &T, &U, &V)> = Vec::new();
        match (T::slot(self), U::slot(self), V::slot(self)) {
            (Some(st), Some(su), Some(sv)) => {
                let ghost mt = st@;
                let ghost mu = su@;
                let ghost mv = sv@;
                let lt = st.len();
                let lu = su.len();
                let lv = sv.len();
                if lt <= lu && lt <= lv {
                    let n = st.capacity();
                    let mut i: usize = 0;
                    while i < n
                        invariant
                            mt == st@, mu == su@, mv == sv@, mt.wf(), mu.wf(), mv.wf(),
                            n == mt.slots.len(),
                            i <= n,
                            result@.map_values(|p: (EntityId, &T, &U, &V)| (p.0, *p.1, *p.2, *p.3))
                                == join3_upto(mt, mu, mv, i as nat),
                        decreases n - i,
                    {
                        match st.entry_at(i) {
                            Some((e, tc)) => {
                                match (su.get(e), sv.get(e)) {
                                    (Some(uc), Some(vc)) => {
                                        result.push((e, tc, uc, vc));
                                    },
                                    _ => {},
                                }
                            },
                            None => {},
                        }
                        proof {
                            assert(result@.map_values(|p: (EntityId, &T, &U, &V)| (p.0, *p.1, *p.2, *p.3))
                                =~= join3_upto(mt, mu, mv, (i + 1) as nat));
                        }
                        i += 1;
                    }
                    proof {
                        lemma_join3_stable(mt, mu, mv, n as nat);
                    }
                } else if lu <= lv {
                    let n = su.capacity();
                    let mut i: usize = 0;
                    while i < n
                        invariant
                            mt == st@, mu == su@, mv == sv@, mt.wf(), mu.wf(), mv.wf(),
                            n == mu.slots.len(),
                            i <= n,
                            result@.map_values(|p: (EntityId, &T, &U, &V)| (p.0, *p.1, *p.2, *p.3))
                                == join3_upto(mt, mu, mv, i as nat),
                        decreases n - i,
                    {
                        match su.entry_at(i) {
                            Some((e, uc)) => {
                                match (st.get(e), sv.get(e)) {
                                    (Some(tc), Some(vc)) => {
                                        result.push((e, tc, uc, vc));
                                    },
                                    _ => {},
                                }
                            },
                            None => {},
                        }
                        proof {
                            assert(result@.map_values(|p: (EntityId, &T, &U, &V)| (p.0, *p.1, *p.2, *p.3))
                                =~= join3_upto(mt, mu, mv, (i + 1) as nat));
                        }
                        i += 1;
                    }
                    proof {
                        lemma_join3_stable(mt, mu, mv, n as nat);
                    }
                } else {
                    let n = sv.capacity();
                    let mut i: usize = 0;
                    while i < n
                        invariant
                            mt == st@, mu == su@, mv == sv@, mt.wf(), mu.wf(), mv.wf(),
                            n == mv.slots.len(),
                            i <= n,
                            result@.map_values(|p: (EntityId, &T, &U, &V)| (p.0, *p.1, *p.2, *p.3))
                                == join3_upto(mt, mu, mv, i as nat),
                        decreases n - i,
                    {
                        match sv.entry_at(i) {
                            Some((e, vc)) => {
                                match (st.get(e), su.get(e)) {
                                    (Some(tc), Some(uc)) => {
                                        result.push((e, tc, uc, vc));
                                    },
                                    _ => {},
                                }
                            },
                            None => {},
                        }
                        proof {
                            assert(result@.map_values(|p: (EntityId, &T, &U, &V)| (p.0, *p.1, *p.2, *p.3))
                                =~= join3_upto(mt, mu, mv, (i + 1) as nat));
                        }
                        i += 1;
                    }
                    proof {
                        lemma_join3_stable(mt, mu, mv, n as nat);
                    }
                }
            },
            _ => {
                proof {
                    lemma_join3_empty(self.model::<T>(), self.model::<U>(), self.model::<V>());
                    assert(result@.map_values(|p: (EntityId, &T, &U, &V)| (p.0, *p.1, *p.2, *p.3))
                        =~= Seq::<(EntityId, T, U, V)>::empty());
                }
            },
        }
        result
    }
}

/// A cleared slot still exists when it existed, and then holds nothing.
pub open spec fn cleared<T>(before: Option<ComponentStorage<T>>, after: Option<ComponentStorage<T>>) -> bool {
    match before {
        Some(_) => after is Some && slot_model(after) == StorageModel::<T>::empty(),
        None => after is None,
    }
}

/// The slot after removing `e`: the component is taken out and, if there was
/// one, the slot is marked removed.
pub open spec fn slot_entity_removed<T>(
    before: Option<ComponentStorage<T>>,
    after: Option<ComponentStorage<T>>,
    e: EntityId,
) -> bool {
    match before {
        Some(b) => after is Some && slot_model(after) == ({
            let (m, taken) = b@.remove(e);
            if taken is Some { m.mark_removed(e) } else { m }
        }),
        None => after is None,
    }
}

/// `after` is `before` with every component of `e` taken out.
pub open spec fn entity_removed(before: EcsComponents, after: EcsComponents, e: EntityId) -> bool {
    &&& slot_entity_removed(before.identities, after.identities, e)
    &&& slot_entity_removed(before.hierarchies, after.hierarchies, e)
    &&& slot_entity_removed(before.interactions, after.interactions, e)
    &&& slot_entity_removed(before.modals, after.modals, e)
    &&& slot_entity_removed(before.images, after.images, e)
}

proof fn lemma_slot_entity_removed<T>(
    before: Option<ComponentStorage<T>>,
    after: Option<ComponentStorage<T>>,
    e: EntityId,
    other: EntityId,
)
    requires
        slot_wf(before),
        slot_entity_removed(before, after, e),
    ensures
        !slot_model(after).contains(e),
        other.index != e.index ==> slot_model(after).lookup(other) == slot_model(before).lookup(other),
{
}

/// Once an entity is removed, none of its components can be reached any
/// more, and every entity on another index reads exactly as before.
pub proof fn law_removed_entity_has_nothing(before: EcsComponents, after: EcsComponents, e: EntityId, other: EntityId)
    requires
        before.wf(),
        entity_removed(before, after, e),
    ensures
        !after.has::<IdentityComponent>(e),
        !after.has::<HierarchyComponent>(e),
        !after.has::<InteractionComponent>(e),
        !after.has::<ModalComponent>(e),
        !after.has::<ImageComponent>(e),
        other.index != e.index ==> {
            &&& after.lookup::<IdentityComponent>(other) == before.lookup::<IdentityComponent>(other)
            &&& after.lookup::<HierarchyComponent>(other) == before.lookup::<HierarchyComponent>(other)
            &&& after.lookup::<InteractionComponent>(other) == before.lookup::<InteractionComponent>(other)
            &&& after.lookup::<ModalComponent>(other) == before.lookup::<ModalComponent>(other)
            &&& after.lookup::<ImageComponent>(other) == before.lookup::<ImageComponent>(other)
        },
{
    lemma_slot_entity_removed(before.identities, after.identities, e, other);
    lemma_slot_entity_removed(before.hierarchies, after.hierarchies, e, other);
    lemma_slot_entity_removed(before.interactions, after.interactions, e, other);
    lemma_slot_entity_removed(before.modals, after.modals, e, other);
    lemma_slot_entity_removed(before.images, after.images, e, other);
}

/// Changing the storage of one component type leaves what every other
/// component type holds exactly as it was.
pub proof fn law_other_types_untouched<T: EcsComponent, U: EcsComponent>(c: EcsComponents, n: EcsComponents)
    requires
        c.changes_only::<T>(n),
        T::slot_id() != U::slot_id(),
    ensures
        n.model::<U>() == c.model::<U>(),
        forall|e: EntityId| n.lookup::<U>(e) == c.lookup::<U>(e),
{
    let e = EntityId { index: 0, generation: 0 };
    T::lemma_slot_id(c, n, T::spec_slot(n), e);
    assert(same_field(T::spec_with_slot(c, T::spec_slot(n)), c, U::slot_id()));
    U::lemma_slot_id(n, c, None, e);
}

/// After a successful add of `comp` for `e` in the storage of `T`, `e` has
/// that component, and every other component type answers for `e` as before.
pub proof fn law_add_then_get<T: EcsComponent, U: EcsComponent>(c: EcsComponents, n: EcsComponents, e: EntityId, comp: T)
    requires
        c.wf(),
        c.changes_only::<T>(n),
        n.model::<T>() == c.model::<T>().insert(e, comp).0,
        c.model::<T>().insert(e, comp).1,
        T::slot_id() != U::slot_id(),
    ensures
        n.lookup::<T>(e) == Some(comp),
        n.has::<T>(e),
        n.lookup::<U>(e) == c.lookup::<U>(e),
{
    T::lemma_slot(c, None);
    law_insert_then_lookup(c.model::<T>(), e, comp, e);
    law_other_types_untouched::<T, U>(c, n);
}

fn clear_slot<T>(slot: &mut Option<ComponentStorage<T>>)
    ensures
        cleared(*old(slot), *final(slot)),
        slot_wf(*final(slot)),
{
    match slot {
        Some(st) => st.clear(),
        None => {},
    }
}

fn remove_from_slot<T>(slot: &mut Option<ComponentStorage<T>>, entity: EntityId)
    requires
        slot_wf(*old(slot)),
    ensures
        slot_entity_removed(*old(slot), *final(slot), entity),
        slot_wf(*final(slot)),
{
    match slot {
        Some(st) => {
            let removed = st.remove(entity).is_some();
            if removed {
                st.mark_entity_removed(entity);
            }
        },
        None => {},
    }
}

/// Entities with both a `T` and a `U` among slots below `n`, in index order.
pub open spec fn join2_upto<T, U>(t: StorageModel<T>, u: StorageModel<U>, n: nat) -> Seq<(EntityId, T, U)>
    decreases n,
{
    if n == 0 {
        Seq::empty()
    } else {
        let i = n - 1;
        let prev = join2_upto(t, u, i as nat);
        if i < t.slots.len() && i < u.slots.len() && t.slots[i] is Some && u.slots[i] is Some
            && t.gens[i] == u.gens[i] {
            prev.push((slot_entity(i, t.gens[i]), t.slots[i].unwrap(), u.slots[i].unwrap()))
        } else {
            prev
        }
    }
}

/// Entities that have both a `T` and a `U`, in index order.
pub open spec fn join2<T, U>(t: StorageModel<T>, u: StorageModel<U>) -> Seq<(EntityId, T, U)> {
    join2_upto(t, u, if t.slots.len() >= u.slots.len() { t.slots.len() } else { u.slots.len() })
}

proof fn lemma_join2_stable<T, U>(t: StorageModel<T>, u: StorageModel<U>, n: nat)
    requires
        n >= t.slots.len() || n >= u.slots.len(),
    ensures
        join2_upto(t, u, n) == join2(t, u),
    decreases (if n < (if t.slots.len() >= u.slots.len() { t.slots.len() } else { u.slots.len() }) {
        (if t.slots.len() >= u.slots.len() { t.slots.len() } else { u.slots.len() }) - n
    } else {
        n - (if t.slots.len() >= u.slots.len() { t.slots.len() } else { u.slots.len() })
    }),
{
    let m = if t.slots.len() >= u.slots.len() { t.slots.len() } else { u.slots.len() };
    if n < m {
        lemma_join2_stable(t, u, n + 1);
    } else if n > m {
        lemma_join2_stable(t, u, (n - 1) as nat);
    }
}

/// Entities with a `T`, a `U` and a `V` among slots below `n`, in index order.
pub open spec fn join3_upto<T, U, V>(
    t: StorageModel<T>,
    u: StorageModel<U>,
    v: StorageModel<V>,
    n: nat,
) -> Seq<(EntityId, T, U, V)>
    decreases n,
{
    if n == 0 {
        Seq::empty()
    } else {
        let i = n - 1;
        let prev = join3_upto(t, u, v, i as nat);
        if i < t.slots.len() && i < u.slots.len() && i < v.slots.len() && t.slots[i] is Some
            && u.slots[i] is Some && v.slots[i] is Some && t.gens[i] == u.gens[i] && t.gens[i]
            == v.gens[i] {
            prev.push(
                (
                    slot_entity(i, t.gens[i]),
                    t.slots[i].unwrap(),
                    u.slots[i].unwrap(),
                    v.slots[i].unwrap(),
                ),
            )
        } else {
            prev
        }
    }
}

pub open spec fn max3(a: nat, b: nat, c: nat) -> nat {
    if a >= b && a >= c {
        a
    } else if b >= c {
        b
    } else {
        c
    }
}

/// Entities that have a `T`, a `U` and a `V`, in index order.
pub open spec fn join3<T, U, V>(t: StorageModel<T>, u: StorageModel<U>, v: StorageModel<V>) -> Seq<
    (EntityId, T, U, V),
> {
    join3_upto(t, u, v, max3(t.slots.len(), u.slots.len(), v.slots.len()))
}

proof fn lemma_join3_stable<T, U, V>(t: StorageModel<T>, u: StorageModel<U>, v: StorageModel<V>, n: nat)
    requires
        n >= t.slots.len() || n >= u.slots.len() || n >= v.slots.len(),
    ensures
        join3_upto(t, u, v, n) == join3(t, u, v),
    decreases (if n < max3(t.slots.len(), u.slots.len(), v.slots.len()) {
        max3(t.slots.len(), u.slots.len(), v.slots.len()) - n
    } else {
        n - max3(t.slots.len(), u.slots.len(), v.slots.len())
    }),
{
    let m = max3(t.slots.len(), u.slots.len(), v.slots.len());
    if n < m {
        lemma_join3_stable(t, u, v, n + 1);
    } else if n > m {
        lemma_join3_stable(t, u, v, (n - 1) as nat);
    }
}

proof fn lemma_join3_empty<T, U, V>(t: StorageModel<T>, u: StorageModel<U>, v: StorageModel<V>)
    requires
        t.slots.len() == 0 || u.slots.len() == 0 || v.slots.len() == 0,
    ensures
        join3(t, u, v) == Seq::<(EntityId, T, U, V)>::empty(),
{
    lemma_join3_stable(t, u, v, 0);
}

proof fn lemma_join2_empty<T, U>(t: StorageModel<T>, u: StorageModel<U>)
    requires
        t.slots.len() == 0 || u.slots.len() == 0,
    ensures
        join2(t, u) == Seq::<(EntityId, T, U)>::empty(),
{
    lemma_join2_stable(t, u, 0);
}

} // verus!
