//! The structural side of the layout context: the world, the z-index
//! manager and the component tree they both describe, and the requests to
//! open and close modals.
use vstd::prelude::*;
use crate::components::{EcsComponent, HierarchyComponent, InteractionComponent, ModalComponent};
use crate::entity::{EntityId, NamedRef};
use crate::layout::Size;
use crate::systems::{modal_toggled, toggle_runnable, ModalToggleSystem};
use crate::world::{world_reset, EcsSystem, World};
use crate::storage::StorageModel;
use crate::zindex::{lemma_pos_in, ZIndexManager, ZModel, ZTree};

verus! {

/// The world, the z-index manager and the root of the component tree.
pub struct LayoutContext {
    pub world: World,
    pub root_component_id: Option<EntityId>,
    pub viewport_size: Size<u32>,
    pub z_index_manager: ZIndexManager,
}

/// The entities among `entries` that have no parent, in order.
pub open spec fn roots(entries: Seq<(EntityId, HierarchyComponent)>) -> Seq<EntityId>
    decreases entries.len(),
{
    if entries.len() == 0 {
        Seq::empty()
    } else {
        let prev = roots(entries.drop_last());
        if entries.last().1.parent is None {
            prev.push(entries.last().0)
        } else {
            prev
        }
    }
}

/// The modal a named reference points at, in `w`.
pub open spec fn modal_of(w: World, named_ref: NamedRef) -> ModalComponent {
    w.components.lookup::<ModalComponent>(w.resources.named_refs.unwrap()@[named_ref]).unwrap()
}

/// A modal can be opened when it is closed and not in a transition.
pub open spec fn can_open(mc: ModalComponent) -> bool {
    !mc.is_open && !mc.is_opening && !mc.is_closing
}

/// A modal can be closed when it is open and not already closing.
pub open spec fn can_close(mc: ModalComponent) -> bool {
    mc.is_open && !mc.is_closing
}

/// The named reference points at an entity with a modal component.
pub open spec fn names_modal(w: World, named_ref: NamedRef) -> bool {
    &&& w.resources.named_refs matches Some(nr) && nr@.contains_key(named_ref)
    &&& w.components.has::<ModalComponent>(w.resources.named_refs.unwrap()@[named_ref])
}

impl Default for LayoutContext {
    fn default() -> (r: Self)
        ensures
            r.wf(),
            r.world.entities@ == Seq::<EntityId>::empty(),
            r.world.components == crate::components::EcsComponents::spec_empty(),
            r.world.resources == crate::resources::EcsResources::spec_empty(),
            r.root_component_id is None,
            r.viewport_size == (Size { width: 0u32, height: 0u32 }),
            r.z_index_manager@.ids == Seq::<EntityId>::empty(),
            r.z_index_manager@.root is None,
    {
        LayoutContext {
            world: World::new(),
            root_component_id: None,
            viewport_size: Size { width: 0, height: 0 },
            z_index_manager: ZIndexManager::new(),
        }
    }
}

impl LayoutContext {
    pub open spec fn wf(&self) -> bool {
        self.world.wf() && self.z_index_manager.wf()
    }

    /// Reset the world and forget every z-index registration.
    pub fn clear(&mut self)
        requires
            old(self).wf(),
        ensures
            final(self).wf(),
            world_reset(old(self).world, final(self).world),
            final(self).z_index_manager@ == (ZModel {
                ids: Seq::empty(),
                parents: Seq::empty(),
                adjustments: Map::empty(),
                computed: Map::empty(),
                level_increment: old(self).z_index_manager@.level_increment,
                dirty: true,
                root: None,
            }),
            final(self).root_component_id == old(self).root_component_id,
            final(self).viewport_size == old(self).viewport_size,
    {
        self.world.reset();
        self.z_index_manager.clear();
    }

    /// Make the single entity without a parent the root of the tree and of
    /// the z-index ordering.
    pub fn find_root_component(&mut self)
        requires
            old(self).wf(),
            roots(old(self).world.components.model::<HierarchyComponent>().entries()).len() == 1,
        ensures
            final(self).wf(),
            final(self).root_component_id == Some(
                roots(old(self).world.components.model::<HierarchyComponent>().entries())[0],
            ),
            final(self).z_index_manager@ == (ZModel {
                root: final(self).root_component_id,
                ..old(self).z_index_manager@
            }),
            final(self).world == old(self).world,
            final(self).viewport_size == old(self).viewport_size,
    {
        let ghost full = self.world.components.model::<HierarchyComponent>().entries();
        let mut found: Vec<EntityId> = Vec::new();
        proof {
            HierarchyComponent::lemma_slot(self.world.components, None);
        }
        match self.world.components.get_storage_ref::<HierarchyComponent>() {
            Some(st) => {
                let items = st.iter();
                let mut i: usize = 0;
                proof {
                    assert(full.take(0) =~= Seq::<(EntityId, HierarchyComponent)>::empty());
                }
                while i < items.len()
                    invariant
                        i <= items@.len(),
                        items@.map_values(|p: (EntityId, &HierarchyComponent)| (p.0, *p.1)) == full,
                        found@ == roots(full.take(i as int)),
                    decreases items@.len() - i,
                {
                    let (e, h) = items[i];
                    proof {
                        assert(full[i as int] == (e, *h));
                        assert(full.take(i + 1).drop_last() =~= full.take(i as int));
                        assert(full.take(i + 1).last() == (e, *h));
                    }
                    if h.parent.is_none() {
                        found.push(e);
                    }
                    i += 1;
                }
                proof {
                    assert(items@.map_values(|p: (EntityId, &HierarchyComponent)| (p.0, *p.1)).len() == items@.len());
                    assert(full.take(i as int) =~= full);
                }
            },
            None => {},
        }
        let root = found[0];
        self.root_component_id = Some(root);
        self.z_index_manager.set_root_id(root);
    }

    /// Hang `child_id` below `parent_id`: the child records its parent, the
    /// parent lists the child last, the child is deactivated when the parent
    /// is inactive, and the z-index manager registers it under the parent.
    pub fn add_child_to_parent(&mut self, parent_id: EntityId, child_id: EntityId)
        requires
            old(self).wf(),
            parent_id != child_id,
            old(self).world.components.has::<InteractionComponent>(parent_id),
            !old(self).world.components.lookup::<InteractionComponent>(parent_id).unwrap().is_active
                ==> old(self).world.components.has::<InteractionComponent>(child_id),
            old(self).world.components.has::<HierarchyComponent>(child_id),
            old(self).world.components.has::<HierarchyComponent>(parent_id),
            !old(self).z_index_manager@.tree().registered(child_id),
            !old(self).z_index_manager@.tree().chain_hits(parent_id, child_id),
            old(self).z_index_manager@.ids.len() + 2 < usize::MAX,
        ensures
            final(self).wf(),
            ({
                let h0 = old(self).world.components.model::<HierarchyComponent>();
                let h1 = final(self).world.components.model::<HierarchyComponent>();
                let c = h0.lookup(child_id).unwrap();
                let p = h0.lookup(parent_id).unwrap();
                &&& h1.lookup(child_id) == Some(HierarchyComponent { parent: Some(parent_id), ..c })
                &&& h1.lookup(parent_id) is Some
                &&& h1.lookup(parent_id).unwrap().parent == p.parent
                &&& h1.lookup(parent_id).unwrap().children@ == p.children@.push(child_id)
                &&& h1.gens == h0.gens
                &&& h1.free == h0.free
                &&& forall|e: EntityId| e.index != child_id.index && e.index != parent_id.index
                    ==> #[trigger] h1.lookup(e) == h0.lookup(e)
            }),
            ({
                let i0 = old(self).world.components.model::<InteractionComponent>();
                let i1 = final(self).world.components.model::<InteractionComponent>();
                let parent_active = i0.lookup(parent_id).unwrap().is_active;
                &&& parent_active ==> i1 == i0
                &&& !parent_active ==> i1.lookup(child_id) == Some(
                    InteractionComponent { is_active: false, ..i0.lookup(child_id).unwrap() },
                )
                &&& i1.gens == i0.gens
                &&& i1.free == i0.free
                &&& forall|e: EntityId| e.index != child_id.index ==> #[trigger] i1.lookup(e) == i0.lookup(e)
            }),
            final(self).world.components.identities == old(self).world.components.identities,
            final(self).world.components.modals == old(self).world.components.modals,
            final(self).world.components.images == old(self).world.components.images,
            final(self).world.resources == old(self).world.resources,
            final(self).world.entities == old(self).world.entities,
            final(self).z_index_manager@ == (ZModel {
                ids: old(self).z_index_manager@.ids.push(child_id),
                parents: old(self).z_index_manager@.parents.push(Some(parent_id)),
                dirty: true,
                ..old(self).z_index_manager@
            }),
            final(self).root_component_id == old(self).root_component_id,
            final(self).viewport_size == old(self).viewport_size,
    {
        let ghost w0 = self.world;
        let is_parent_active = self.world.components.get_component::<InteractionComponent>(parent_id).unwrap().is_active;
        if !is_parent_active {
            match self.world.components.get_component_mut::<InteractionComponent>(child_id) {
                Some(ic) => {
                    ic.is_active = false;
                },
                None => {},
            }
        }
        let ghost w1 = self.world;
        proof {
            InteractionComponent::lemma_slot(w0.components, InteractionComponent::spec_slot(w1.components));
        }
        match self.world.components.get_component_mut::<HierarchyComponent>(child_id) {
            Some(h) => {
                h.parent = Some(parent_id);
            },
            None => {},
        }
        let ghost w2 = self.world;
        proof {
            HierarchyComponent::lemma_slot(w1.components, HierarchyComponent::spec_slot(w2.components));
        }
        match self.world.components.get_component_mut::<HierarchyComponent>(parent_id) {
            Some(h) => {
                h.children.push(child_id);
            },
            None => {},
        }
        let ghost w3 = self.world;
        proof {
            HierarchyComponent::lemma_slot(w2.components, HierarchyComponent::spec_slot(w3.components));
        }
        self.z_index_manager.register_component(child_id, Some(parent_id));
    }

    /// Open the modal a named reference points at, unless it is already
    /// open or in a transition.
    pub fn open_modal(&mut self, modal_named_ref: NamedRef)
        requires
            old(self).wf(),
            names_modal(old(self).world, modal_named_ref),
            can_open(modal_of(old(self).world, modal_named_ref)) ==> toggle_runnable(
                ModalToggleSystem { activate: true, named_ref: modal_named_ref },
                old(self).world,
            ),
        ensures
            final(self).wf(),
            can_open(modal_of(old(self).world, modal_named_ref)) ==> modal_toggled(
                old(self).world,
                final(self).world,
                ModalToggleSystem { activate: true, named_ref: modal_named_ref },
            ),
            !can_open(modal_of(old(self).world, modal_named_ref)) ==> final(self).world == old(self).world,
            final(self).z_index_manager == old(self).z_index_manager,
            final(self).root_component_id == old(self).root_component_id,
            final(self).viewport_size == old(self).viewport_size,
    {
        if self.modal_state_allows(modal_named_ref, true) {
            let mut system = ModalToggleSystem { activate: true, named_ref: modal_named_ref };
            system.run(&mut self.world);
        }
    }

    /// Close the modal a named reference points at, unless it is already
    /// closed or closing.
    pub fn close_modal(&mut self, modal_named_ref: NamedRef)
        requires
            old(self).wf(),
            names_modal(old(self).world, modal_named_ref),
            can_close(modal_of(old(self).world, modal_named_ref)) ==> toggle_runnable(
                ModalToggleSystem { activate: false, named_ref: modal_named_ref },
                old(self).world,
            ),
        ensures
            final(self).wf(),
            can_close(modal_of(old(self).world, modal_named_ref)) ==> modal_toggled(
                old(self).world,
                final(self).world,
                ModalToggleSystem { activate: false, named_ref: modal_named_ref },
            ),
            !can_close(modal_of(old(self).world, modal_named_ref)) ==> final(self).world == old(self).world,
            final(self).z_index_manager == old(self).z_index_manager,
            final(self).root_component_id == old(self).root_component_id,
            final(self).viewport_size == old(self).viewport_size,
    {
        if self.modal_state_allows(modal_named_ref, false) {
            let mut system = ModalToggleSystem { activate: false, named_ref: modal_named_ref };
            system.run(&mut self.world);
        }
    }

    /// Whether the modal's state allows opening it (`open`) or closing it.
    fn modal_state_allows(&self, modal_named_ref: NamedRef, open: bool) -> (r: bool)
        requires
            self.wf(),
            names_modal(self.world, modal_named_ref),
        ensures
            r == if open {
                can_open(modal_of(self.world, modal_named_ref))
            } else {
                can_close(modal_of(self.world, modal_named_ref))
            },
    {
        let id = match &self.world.resources.named_refs {
            Some(nr) => nr.get_entity_id(&modal_named_ref).unwrap(),
            None => {
                return false;
            },
        };
        let mc = self.world.components.get_component::<ModalComponent>(id).unwrap();
        if open {
            !mc.is_open && !mc.is_opening && !mc.is_closing
        } else {
            mc.is_open && !mc.is_closing
        }
    }
}

/// Every component registered for z-ordering has a hierarchy component
/// that names the same parent.
pub open spec fn trees_agree(h: StorageModel<HierarchyComponent>, t: ZTree) -> bool {
    forall|x: EntityId| #[trigger] t.registered(x) ==> h.lookup(x) is Some && h.lookup(x).unwrap().parent == t.parent(x)
}

/// Hanging a child below a parent keeps the hierarchy components and the
/// z-index registrations agreeing on every component's parent.
pub proof fn law_add_child_keeps_trees_agreeing(
    h0: StorageModel<HierarchyComponent>,
    h1: StorageModel<HierarchyComponent>,
    t0: ZTree,
    parent_id: EntityId,
    child_id: EntityId,
)
    requires
        t0.shape_wf(),
        trees_agree(h0, t0),
        parent_id != child_id,
        h0.contains(child_id),
        h0.contains(parent_id),
        !t0.registered(child_id),
        h1.lookup(child_id) == Some(HierarchyComponent { parent: Some(parent_id), ..h0.lookup(child_id).unwrap() }),
        h1.lookup(parent_id) is Some,
        h1.lookup(parent_id).unwrap().parent == h0.lookup(parent_id).unwrap().parent,
        forall|e: EntityId| e.index != child_id.index && e.index != parent_id.index ==> #[trigger] h1.lookup(e) == h0.lookup(e),
    ensures
        trees_agree(
            h1,
            ZTree { ids: t0.ids.push(child_id), parents: t0.parents.push(Some(parent_id)), ..t0 },
        ),
{
    let t1 = ZTree { ids: t0.ids.push(child_id), parents: t0.parents.push(Some(parent_id)), ..t0 };
    assert forall|x: EntityId| #[trigger] t1.registered(x) implies h1.lookup(x) is Some && h1.lookup(x).unwrap().parent == t1.parent(x) by {
        assert(t1.ids.drop_last() =~= t0.ids);
        lemma_pos_in(t1.ids, x);
        lemma_pos_in(t0.ids, x);
        if x == child_id {
            assert(t1.ids.last() == child_id);
        } else {
            assert(t1.pos(x) == t0.pos(x));
            assert(t0.registered(x));
            assert(t1.parents[t0.pos(x)] == t0.parents[t0.pos(x)]);
        }
    }
}

} // verus!
