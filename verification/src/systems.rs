//! The systems that decide modal state, hover reset and render grouping.
use vstd::prelude::*;
use crate::components::{EcsComponent, IdentityComponent, InteractionComponent, ModalComponent};
use crate::entity::{ComponentType, EntityId, NamedRef};
use crate::hierarchy::{InteractionChange, change_all, change_interaction, change_interaction_all, lemma_change_all_prepend};
use crate::resources::{EntryExitAnimationStateResource, RenderGroup, RenderGroupsResource, RequestReLayoutResource};
use crate::entity_map::EntityMap;
use crate::storage::lemma_entries_lookup;
use crate::storage::StorageModel;
use crate::world::{EcsSystem, World};

verus! {

/// Every entity of a modal: the drawable ones, then the others.
pub open spec fn modal_children(mc: ModalComponent) -> Seq<EntityId> {
    mc.renderable_children@ + mc.non_renderable_children@
}

/// The modal state after a request to open (`activate`) or close it.
pub open spec fn toggled_modal(mc: ModalComponent, activate: bool) -> ModalComponent {
    if activate {
        ModalComponent { is_open: true, is_closing: false, is_opening: mc.has_entry_animation, ..mc }
    } else if mc.has_exit_animation {
        ModalComponent { is_closing: true, is_opening: false, ..mc }
    } else {
        ModalComponent { is_open: false, is_closing: false, is_opening: false, ..mc }
    }
}

/// How opening or closing a modal changes the interaction flags of its entities.
pub open spec fn toggle_change(mc: ModalComponent, activate: bool) -> InteractionChange {
    if activate {
        if mc.has_entry_animation {
            InteractionChange::PrepareEntry
        } else {
            InteractionChange::Activate
        }
    } else if mc.has_exit_animation {
        InteractionChange::PrepareExit
    } else {
        InteractionChange::Deactivate
    }
}

/// Opens or closes the modal that a named reference points at.
pub struct ModalToggleSystem {
    pub activate: bool,
    pub named_ref: NamedRef,
}

impl ModalToggleSystem {
    /// The modal entity this toggle acts on.
    pub open spec fn target(&self, w: World) -> EntityId {
        w.resources.named_refs.unwrap()@[self.named_ref]
    }

    /// Activate the modal and its entities and mark them just activated, so
    /// that their entry animations play.
    pub fn prepare_entities_for_entry_animation(world: &mut World, modal_parent_id: EntityId, children: &[EntityId])
        requires
            old(world).wf(),
        ensures
            final(world).wf(),
            old(world).components.changes_only::<InteractionComponent>(final(world).components),
            final(world).components.model::<InteractionComponent>() == change_all(
                old(world).components.model::<InteractionComponent>(),
                seq![modal_parent_id] + children@,
                InteractionChange::PrepareEntry,
            ),
            final(world).resources == old(world).resources,
            final(world).entities == old(world).entities,
            final(world).next_entity_index == old(world).next_entity_index,
            final(world).free_entity_indices == old(world).free_entity_indices,
            final(world).entity_generations == old(world).entity_generations,
    {
        Self::apply_to_modal(world, modal_parent_id, children, InteractionChange::PrepareEntry);
    }

    /// Mark the modal and its entities just deactivated, keeping them
    /// active so that their exit animations can play.
    pub fn prepare_entities_for_exit_animation(world: &mut World, modal_parent_id: EntityId, children: &[EntityId])
        requires
            old(world).wf(),
        ensures
            final(world).wf(),
            old(world).components.changes_only::<InteractionComponent>(final(world).components),
            final(world).components.model::<InteractionComponent>() == change_all(
                old(world).components.model::<InteractionComponent>(),
                seq![modal_parent_id] + children@,
                InteractionChange::PrepareExit,
            ),
            final(world).resources == old(world).resources,
            final(world).entities == old(world).entities,
            final(world).next_entity_index == old(world).next_entity_index,
            final(world).free_entity_indices == old(world).free_entity_indices,
            final(world).entity_generations == old(world).entity_generations,
    {
        Self::apply_to_modal(world, modal_parent_id, children, InteractionChange::PrepareExit);
    }

    /// Activate the modal and its entities at once (no animation).
    pub fn activate_modal_entities(world: &mut World, modal_parent_id: EntityId, children: &[EntityId])
        requires
            old(world).wf(),
        ensures
            final(world).wf(),
            old(world).components.changes_only::<InteractionComponent>(final(world).components),
            final(world).components.model::<InteractionComponent>() == change_all(
                old(world).components.model::<InteractionComponent>(),
                seq![modal_parent_id] + children@,
                InteractionChange::Activate,
            ),
            final(world).resources == old(world).resources,
            final(world).entities == old(world).entities,
            final(world).next_entity_index == old(world).next_entity_index,
            final(world).free_entity_indices == old(world).free_entity_indices,
            final(world).entity_generations == old(world).entity_generations,
    {
        Self::apply_to_modal(world, modal_parent_id, children, InteractionChange::Activate);
    }

    /// Deactivate the modal and its entities at once (no animation); each
    /// of them must have an interaction component.
    pub fn deactivate_modal_entities(world: &mut World, modal_parent_id: EntityId, children: &[EntityId])
        requires
            old(world).wf(),
            old(world).components.has::<InteractionComponent>(modal_parent_id),
            forall|i: int| 0 <= i < children@.len() ==> old(world).components.has::<InteractionComponent>(#[trigger] children@[i]),
        ensures
            final(world).wf(),
            old(world).components.changes_only::<InteractionComponent>(final(world).components),
            final(world).components.model::<InteractionComponent>() == change_all(
                old(world).components.model::<InteractionComponent>(),
                seq![modal_parent_id] + children@,
                InteractionChange::Deactivate,
            ),
            final(world).resources == old(world).resources,
            final(world).entities == old(world).entities,
            final(world).next_entity_index == old(world).next_entity_index,
            final(world).free_entity_indices == old(world).free_entity_indices,
            final(world).entity_generations == old(world).entity_generations,
    {
        Self::apply_to_modal(world, modal_parent_id, children, InteractionChange::Deactivate);
    }

    fn apply_to_modal(world: &mut World, modal_parent_id: EntityId, children: &[EntityId], op: InteractionChange)
        requires
            old(world).wf(),
        ensures
            final(world).wf(),
            old(world).components.changes_only::<InteractionComponent>(final(world).components),
            final(world).components.model::<InteractionComponent>() == change_all(
                old(world).components.model::<InteractionComponent>(),
                seq![modal_parent_id] + children@,
                op,
            ),
            final(world).resources == old(world).resources,
            final(world).entities == old(world).entities,
            final(world).next_entity_index == old(world).next_entity_index,
            final(world).free_entity_indices == old(world).free_entity_indices,
            final(world).entity_generations == old(world).entity_generations,
    {
        change_interaction(world, modal_parent_id, op);
        let ghost mid = world.components;
        change_interaction_all(world, children, op);
        proof {
            lemma_change_all_prepend(old(world).components.model::<InteractionComponent>(), modal_parent_id, children@, op);
            InteractionComponent::lemma_slot(old(world).components, InteractionComponent::spec_slot(world.components));
        }
    }
}

/// `ModalToggleSystem` needs the named reference to point at a modal and a
/// relayout flag to raise; closing a modal without exit animation needs an
/// interaction component on the modal and on each of its entities.
pub open spec fn toggle_runnable(s: ModalToggleSystem, w: World) -> bool {
    &&& w.resources.named_refs matches Some(nr) && nr@.contains_key(s.named_ref)
    &&& w.components.has::<ModalComponent>(s.target(w))
    &&& w.resources.request_relayout is Some
    &&& {
        let mc = w.components.lookup::<ModalComponent>(s.target(w)).unwrap();
        (!s.activate && !mc.has_exit_animation) ==> {
            &&& w.components.has::<InteractionComponent>(s.target(w))
            &&& forall|i: int| 0 <= i < modal_children(mc).len() ==> w.components.has::<InteractionComponent>(
                #[trigger] modal_children(mc)[i],
            )
        }
    }
}

/// `w1` is `w0` after `s` opened or closed its modal: the modal's state
/// toggled, the interaction flags of the modal and its entities changed
/// accordingly, a relayout requested, and nothing else touched.
pub open spec fn modal_toggled(w0: World, w1: World, s: ModalToggleSystem) -> bool {
    ({
        let id = s.target(w0);
        let mc = w0.components.lookup::<ModalComponent>(id).unwrap();
        let m_modal = w0.components.model::<ModalComponent>();
        &&& w1.components.model::<ModalComponent>().slots == m_modal.slots.update(
            id.index as int,
            Some(toggled_modal(mc, s.activate)),
        )
        &&& w1.components.model::<ModalComponent>().gens == m_modal.gens
        &&& w1.components.model::<ModalComponent>().free == m_modal.free
        &&& w1.components.model::<InteractionComponent>() == change_all(
            w0.components.model::<InteractionComponent>(),
            seq![id] + modal_children(mc),
            toggle_change(mc, s.activate),
        )
        &&& w1.components.identities == w0.components.identities
        &&& w1.components.hierarchies == w0.components.hierarchies
        &&& w1.components.images == w0.components.images
        &&& w1.resources.request_relayout == Some(RequestReLayoutResource { request_relayout: true })
        &&& w1.resources.named_refs == w0.resources.named_refs
        &&& w1.resources.render_order == w0.resources.render_order
        &&& w1.resources.render_groups == w0.resources.render_groups
        &&& w1.resources.event_sender == w0.resources.event_sender
        &&& w1.resources.entry_exit_animation_state == w0.resources.entry_exit_animation_state
        &&& w1.entities == w0.entities
        &&& w1.next_entity_index == w0.next_entity_index
        &&& w1.free_entity_indices == w0.free_entity_indices
        &&& w1.entity_generations == w0.entity_generations
    })
}

/// Changing the listed entities keeps every entity's interaction component,
/// and a listed entity ends with the change applied to some earlier state.
proof fn lemma_change_all_reaches(
    m: crate::storage::StorageModel<InteractionComponent>,
    es: Seq<EntityId>,
    op: InteractionChange,
    e: EntityId,
)
    requires
        m.contains(e),
    ensures
        change_all(m, es, op).contains(e),
        es.contains(e) ==> exists|c: InteractionComponent| change_all(m, es, op).lookup(e) == Some(
            #[trigger] crate::hierarchy::apply_change(op, c),
        ),
    decreases es.len(),
{
    if es.len() > 0 {
        let init = es.drop_last();
        let last = es.last();
        lemma_change_all_reaches(m, init, op, e);
        let prev = change_all(m, init, op);
        if es.contains(e) {
            if last == e {
                let c = prev.lookup(e).unwrap();
                assert(change_all(m, es, op).lookup(e) == Some(crate::hierarchy::apply_change(op, c)));
            } else {
                let k = choose|k: int| 0 <= k < es.len() && es[k] == e;
                assert(k != es.len() - 1);
                assert(init[k] == e);
                assert(init.contains(e));
                let c = choose|c: InteractionComponent| prev.lookup(e) == Some(#[trigger] crate::hierarchy::apply_change(op, c));
                assert(change_all(m, es, op).lookup(e) == Some(crate::hierarchy::apply_change(op, c)));
            }
        }
    }
}

/// Closing a modal that has no exit animation closes it at once, whether or
/// not it has an entry animation: the modal is neither open, opening nor
/// closing, and the modal entity and every one of its entities is inactive
/// with no transition pending.
pub proof fn law_close_without_exit_animation(w0: World, w1: World, s: ModalToggleSystem, e: EntityId)
    requires
        toggle_runnable(s, w0),
        modal_toggled(w0, w1, s),
        !s.activate,
        !w0.components.lookup::<ModalComponent>(s.target(w0)).unwrap().has_exit_animation,
        (seq![s.target(w0)] + modal_children(w0.components.lookup::<ModalComponent>(s.target(w0)).unwrap())).contains(e),
    ensures
        w1.components.lookup::<ModalComponent>(s.target(w0)) matches Some(m) && !m.is_open && !m.is_opening
            && !m.is_closing,
        w1.components.lookup::<InteractionComponent>(e) matches Some(c) && !c.is_active && !c.is_just_activated
            && !c.is_just_deactivated,
{
    let id = s.target(w0);
    let mc = w0.components.lookup::<ModalComponent>(id).unwrap();
    let es = seq![id] + modal_children(mc);
    let m0 = w0.components.model::<InteractionComponent>();
    let k = choose|k: int| 0 <= k < es.len() && es[k] == e;
    if k == 0 {
        assert(m0.contains(id));
    } else {
        assert(modal_children(mc)[k - 1] == e);
        assert(m0.contains(modal_children(mc)[k - 1]));
    }
    lemma_change_all_reaches(m0, es, InteractionChange::Deactivate, e);
}

/// What a toggle does to the modal and to each of its entities that has an
/// interaction component. Opening: the modal is open and not closing, and
/// opening (still animating) exactly when it has an entry animation; its
/// entities are active, marked just activated exactly when there is an entry
/// animation. Closing with an exit animation: the modal is closing and not
/// opening, and its entities are marked just deactivated so the animation
/// can run. Closing without one: see `law_close_without_exit_animation`.
pub proof fn law_toggle_outcome(w0: World, w1: World, s: ModalToggleSystem, e: EntityId)
    requires
        toggle_runnable(s, w0),
        modal_toggled(w0, w1, s),
        s.activate || w0.components.lookup::<ModalComponent>(s.target(w0)).unwrap().has_exit_animation,
        (seq![s.target(w0)] + modal_children(w0.components.lookup::<ModalComponent>(s.target(w0)).unwrap())).contains(e),
        w0.components.has::<InteractionComponent>(e),
    ensures
        ({
            let mc = w0.components.lookup::<ModalComponent>(s.target(w0)).unwrap();
            &&& w1.components.lookup::<ModalComponent>(s.target(w0)) matches Some(m) && (if s.activate {
                m.is_open && !m.is_closing && m.is_opening == mc.has_entry_animation
            } else {
                m.is_closing && !m.is_opening && m.is_open == mc.is_open
            })
            &&& w1.components.lookup::<InteractionComponent>(e) matches Some(c) && (if s.activate {
                c.is_active && c.is_just_activated == mc.has_entry_animation && !c.is_just_deactivated
            } else {
                c.is_just_deactivated && !c.is_just_activated
            })
        }),
{
    let id = s.target(w0);
    let mc = w0.components.lookup::<ModalComponent>(id).unwrap();
    let es = seq![id] + modal_children(mc);
    let m0 = w0.components.model::<InteractionComponent>();
    lemma_change_all_reaches(m0, es, toggle_change(mc, s.activate), e);
}

impl EcsSystem for ModalToggleSystem {
    proof fn lemma_effect_keeps_ids(&self, before: World, after: World) {
        crate::world::law_ids_kept_without_identity_changes(before, after);
    }

    open spec fn runnable(&self, world: World) -> bool {
        toggle_runnable(*self, world)
    }

    /// Open or close the modal: update its state, then its entities'
    /// interaction flags, and ask for a relayout.
    open spec fn effect(&self, before: World, after: World) -> bool {
        modal_toggled(before, after, *self)
    }

    fn run(&mut self, world: &mut World) {
        let modal_parent_id = match &world.resources.named_refs {
            Some(nr) => nr.get_entity_id(&self.named_ref).unwrap(),
            None => {
                return;
            },
        };
        let ghost w0 = *world;
        let (has_entry_animation, has_exit_animation, children) = {
            let modal_component = world.components.get_component::<ModalComponent>(modal_parent_id).unwrap();
            let mut all_children: Vec<EntityId> = Vec::new();
            let mut i: usize = 0;
            while i < modal_component.renderable_children.len()
                invariant
                    i <= modal_component.renderable_children@.len(),
                    all_children@ == modal_component.renderable_children@.take(i as int),
                decreases modal_component.renderable_children@.len() - i,
            {
                all_children.push(modal_component.renderable_children[i]);
                proof {
                    assert(modal_component.renderable_children@.take(i + 1) =~= modal_component.renderable_children@.take(i as int).push(modal_component.renderable_children@[i as int]));
                }
                i += 1;
            }
            let mut j: usize = 0;
            while j < modal_component.non_renderable_children.len()
                invariant
                    i == modal_component.renderable_children@.len(),
                    j <= modal_component.non_renderable_children@.len(),
                    all_children@ == modal_component.renderable_children@ + modal_component.non_renderable_children@.take(j as int),
                decreases modal_component.non_renderable_children@.len() - j,
            {
                all_children.push(modal_component.non_renderable_children[j]);
                proof {
                    assert(modal_component.non_renderable_children@.take(j + 1) =~= modal_component.non_renderable_children@.take(j as int).push(modal_component.non_renderable_children@[j as int]));
                    assert(all_children@ =~= modal_component.renderable_children@ + modal_component.non_renderable_children@.take(j + 1));
                }
                j += 1;
            }
            proof {
                assert(modal_component.renderable_children@.take(i as int) =~= modal_component.renderable_children@);
                assert(modal_component.non_renderable_children@.take(j as int) =~= modal_component.non_renderable_children@);
            }
            (modal_component.has_entry_animation, modal_component.has_exit_animation, all_children)
        };
        let ghost mc0 = w0.components.lookup::<ModalComponent>(modal_parent_id).unwrap();
        assert(children@ == modal_children(mc0));
        match world.components.get_component_mut::<ModalComponent>(modal_parent_id) {
            Some(modal_component) => {
                if self.activate {
                    modal_component.is_open = true;
                    modal_component.is_closing = false;
                    modal_component.is_opening = has_entry_animation;
                } else {
                    if has_exit_animation {
                        modal_component.is_closing = true;
                        modal_component.is_opening = false;
                    } else {
                        modal_component.is_open = false;
                        modal_component.is_closing = false;
                        modal_component.is_opening = false;
                    }
                }
            },
            None => {},
        }
        let ghost w1 = *world;
        proof {
            ModalComponent::lemma_slot(w0.components, ModalComponent::spec_slot(w1.components));
            assert(w1.components.interactions == w0.components.interactions);
        }
        if self.activate {
            if has_entry_animation {
                Self::prepare_entities_for_entry_animation(world, modal_parent_id, children.as_slice());
            } else {
                Self::activate_modal_entities(world, modal_parent_id, children.as_slice());
            }
        } else if has_exit_animation {
            Self::prepare_entities_for_exit_animation(world, modal_parent_id, children.as_slice());
        } else {
            Self::deactivate_modal_entities(world, modal_parent_id, children.as_slice());
        }
        proof {
            InteractionComponent::lemma_slot(w1.components, InteractionComponent::spec_slot(world.components));
        }
        world.resources.request_relayout = Some(RequestReLayoutResource { request_relayout: true });
    }
}

/// Modals that are open, in index order.
pub open spec fn open_modals(m: StorageModel<ModalComponent>) -> Seq<EntityId> {
    m.entries().filter(|p: (EntityId, ModalComponent)| p.1.is_open).map_values(|p: (EntityId, ModalComponent)| p.0)
}

/// Every one of `cs` is marked finished in `flags`.
pub open spec fn all_finished(flags: Map<EntityId, bool>, cs: Seq<EntityId>) -> bool {
    forall|i: int| 0 <= i < cs.len() ==> flags.contains_key(#[trigger] cs[i]) && flags[cs[i]]
}

/// `flags` without the entries of `cs`.
pub open spec fn without(flags: Map<EntityId, bool>, cs: Seq<EntityId>) -> Map<EntityId, bool>
    decreases cs.len(),
{
    if cs.len() == 0 {
        flags
    } else {
        without(flags, cs.drop_last()).remove(cs.last())
    }
}

/// The observer's state: modal storage, entry flags, exit flags.
pub type ObserverState = (StorageModel<ModalComponent>, Map<EntityId, bool>, Map<EntityId, bool>);

/// One open modal: an opening modal whose drawable entities have all
/// finished their entry animation becomes fully open, and a closing modal
/// whose drawable entities have all finished their exit animation becomes
/// closed; the finished flags of those entities are then dropped.
pub open spec fn observe_one(st: ObserverState, id: EntityId) -> ObserverState {
    let (mm, entry, exit) = st;
    let mc = mm.lookup(id).unwrap();
    let kids = mc.renderable_children@;
    if mc.is_opening {
        if all_finished(entry, kids) {
            (
                StorageModel {
                    slots: mm.slots.update(
                        id.index as int,
                        Some(ModalComponent { is_opening: false, is_open: true, is_closing: false, ..mc }),
                    ),
                    ..mm
                },
                without(entry, kids),
                exit,
            )
        } else {
            st
        }
    } else if mc.is_closing {
        if all_finished(exit, kids) {
            (
                StorageModel {
                    slots: mm.slots.update(id.index as int, Some(ModalComponent { is_closing: false, is_open: false, ..mc })),
                    ..mm
                },
                entry,
                without(exit, kids),
            )
        } else {
            st
        }
    } else {
        st
    }
}

proof fn lemma_without(flags: Map<EntityId, bool>, cs: Seq<EntityId>, k: EntityId)
    ensures
        without(flags, cs).contains_key(k) <==> (flags.contains_key(k) && !cs.contains(k)),
    decreases cs.len(),
{
    if cs.len() > 0 {
        let init = cs.drop_last();
        lemma_without(flags, init, k);
        if cs.contains(k) && cs.last() != k {
            let i = choose|i: int| 0 <= i < cs.len() && cs[i] == k;
            assert(init[i] == k);
        }
        if init.contains(k) {
            let i = choose|i: int| 0 <= i < init.len() && init[i] == k;
            assert(cs[i] == k);
        }
        assert(cs[cs.len() - 1] == cs.last());
    }
}

/// A modal that was opened finishes opening once all its drawable entities
/// have played their entry animation: it is then open, neither opening nor
/// closing, and the finished flags of those entities are gone.
pub proof fn law_opened_modal_settles(st: ObserverState, id: EntityId, mc: ModalComponent)
    requires
        st.0.lookup(id) == Some(toggled_modal(mc, true)),
        all_finished(st.1, mc.renderable_children@),
    ensures
        observe_one(st, id).0.lookup(id) == Some(ModalComponent { is_open: true, is_opening: false, is_closing: false, ..mc }),
        mc.has_entry_animation ==> forall|i: int| 0 <= i < mc.renderable_children@.len()
            ==> !observe_one(st, id).1.contains_key(#[trigger] mc.renderable_children@[i]),
{
    if mc.has_entry_animation {
        assert forall|i: int| 0 <= i < mc.renderable_children@.len()
            implies !observe_one(st, id).1.contains_key(#[trigger] mc.renderable_children@[i]) by {
            lemma_without(st.1, mc.renderable_children@, mc.renderable_children@[i]);
        }
    }
}

/// A modal that was closed with an exit animation finishes closing once all
/// its drawable entities have played it: it is then closed, neither opening
/// nor closing, and the finished flags of those entities are gone.
pub proof fn law_closed_modal_settles(st: ObserverState, id: EntityId, mc: ModalComponent)
    requires
        mc.has_exit_animation,
        st.0.lookup(id) == Some(toggled_modal(mc, false)),
        all_finished(st.2, mc.renderable_children@),
    ensures
        observe_one(st, id).0.lookup(id) == Some(ModalComponent { is_open: false, is_opening: false, is_closing: false, ..mc }),
        forall|i: int| 0 <= i < mc.renderable_children@.len()
            ==> !observe_one(st, id).2.contains_key(#[trigger] mc.renderable_children@[i]),
{
    assert forall|i: int| 0 <= i < mc.renderable_children@.len()
        implies !observe_one(st, id).2.contains_key(#[trigger] mc.renderable_children@[i]) by {
        lemma_without(st.2, mc.renderable_children@, mc.renderable_children@[i]);
    }
}

pub open spec fn observe_all(st: ObserverState, ids: Seq<EntityId>) -> ObserverState
    decreases ids.len(),
{
    if ids.len() == 0 {
        st
    } else {
        observe_one(observe_all(st, ids.drop_last()), ids.last())
    }
}

/// Finishes opening and closing transitions of modals once the animations
/// of their entities are done.
pub struct ModalAnimationObserverSystem;

/// Open modals in index order.
fn collect_open_modals(world: &World) -> (r: Vec<EntityId>)
    requires
        world.wf(),
    ensures
        r@ == open_modals(world.components.model::<ModalComponent>()),
{
    let mut out: Vec<EntityId> = Vec::new();
    proof {
        ModalComponent::lemma_slot(world.components, None);
    }
    match world.components.get_storage_ref::<ModalComponent>() {
        Some(st) => {
            let items = st.iter();
            let ghost full = st@.entries();
            let ghost f = |p: (EntityId, ModalComponent)| p.1.is_open;
            let ghost g = |p: (EntityId, ModalComponent)| p.0;
            let mut i: usize = 0;
            while i < items.len()
                invariant
                    i <= items@.len(),
                    items@.map_values(|p: (EntityId, &ModalComponent)| (p.0, *p.1)) == full,
                    full == world.components.model::<ModalComponent>().entries(),
                    f == (|p: (EntityId, ModalComponent)| p.1.is_open),
                    g == (|p: (EntityId, ModalComponent)| p.0),
                    out@ == full.take(i as int).filter(f).map_values(g),
                decreases items@.len() - i,
            {
                let (e, mc) = items[i];
                proof {
                    assert(full[i as int] == (e, *mc));
                    assert(full.take(i + 1).drop_last() =~= full.take(i as int));
                    reveal(Seq::filter);
                }
                if mc.is_open {
                    out.push(e);
                    proof {
                        assert(full.take(i + 1).filter(f) == full.take(i as int).filter(f).push(full[i as int]));
                        assert(out@ =~= full.take(i + 1).filter(f).map_values(g));
                    }
                } else {
                    proof {
                        assert(full.take(i + 1).filter(f) == full.take(i as int).filter(f));
                    }
                }
                i += 1;
            }
            proof {
                assert(items@.map_values(|p: (EntityId, &ModalComponent)| (p.0, *p.1)).len() == items@.len());
                assert(full.take(i as int) =~= full);
            }
        },
        None => {
            proof {
                assert(world.components.model::<ModalComponent>().entries() =~= Seq::<(EntityId, ModalComponent)>::empty());
                assert(out@ =~= open_modals(world.components.model::<ModalComponent>()));
            }
        },
    }
    out
}

/// Whether every one of `kids` is marked finished in `flags`.
fn all_flagged(flags: &EntityMap<bool>, kids: &Vec<EntityId>) -> (r: bool)
    requires
        flags.wf(),
    ensures
        r == all_finished(flags@, kids@),
{
    let mut i: usize = 0;
    while i < kids.len()
        invariant
            flags.wf(),
            i <= kids@.len(),
            forall|j: int| 0 <= j < i ==> flags@.contains_key(#[trigger] kids@[j]) && flags@[kids@[j]],
        decreases kids@.len() - i,
    {
        match flags.get(kids[i]) {
            Some(true) => {},
            _ => {
                return false;
            },
        }
        i += 1;
    }
    true
}

/// Drop the flags of every one of `kids`.
fn remove_flags(flags: &mut EntityMap<bool>, kids: &Vec<EntityId>)
    requires
        old(flags).wf(),
    ensures
        final(flags).wf(),
        final(flags)@ == without(old(flags)@, kids@),
{
    let mut i: usize = 0;
    while i < kids.len()
        invariant
            flags.wf(),
            i <= kids@.len(),
            flags@ == without(old(flags)@, kids@.take(i as int)),
        decreases kids@.len() - i,
    {
        flags.remove(kids[i]);
        proof {
            assert(kids@.take(i + 1).drop_last() =~= kids@.take(i as int));
            assert(kids@.take(i + 1).last() == kids@[i as int]);
        }
        i += 1;
    }
    proof {
        assert(kids@.take(i as int) =~= kids@);
    }
}

impl EcsSystem for ModalAnimationObserverSystem {
    proof fn lemma_effect_keeps_ids(&self, before: World, after: World) {
        crate::world::law_ids_kept_without_identity_changes(before, after);
    }

    /// The animation-state resource must exist whenever some modal is open.
    open spec fn runnable(&self, world: World) -> bool {
        open_modals(world.components.model::<ModalComponent>()).len() > 0 ==> world.resources.entry_exit_animation_state is Some
    }

    open spec fn effect(&self, before: World, after: World) -> bool {
        &&& open_modals(before.components.model::<ModalComponent>()).len() == 0 ==> after == before
        &&& open_modals(before.components.model::<ModalComponent>()).len() > 0 ==> {
                let st = before.resources.entry_exit_animation_state.unwrap();
                let res = observe_all(
                    (before.components.model::<ModalComponent>(), st.entry_animation_state@, st.exit_animation_state@),
                    open_modals(before.components.model::<ModalComponent>()),
                );
                &&& after.components.model::<ModalComponent>() == res.0
                &&& after.resources.entry_exit_animation_state matches Some(fs) && fs.entry_animation_state@ == res.1
                    && fs.exit_animation_state@ == res.2
                &&& before.components.changes_only::<ModalComponent>(after.components)
                &&& after.resources == (crate::resources::EcsResources {
                    entry_exit_animation_state: after.resources.entry_exit_animation_state,
                    ..before.resources
                })
                &&& after.entities == before.entities
                &&& after.next_entity_index == before.next_entity_index
                &&& after.free_entity_indices == before.free_entity_indices
                &&& after.entity_generations == before.entity_generations
            }
    }

    fn run(&mut self, world: &mut World) {
        let active_modals = collect_open_modals(world);
        if active_modals.len() == 0 {
            return;
        }
        let ghost w0 = *world;
        let ghost ids = active_modals@;
        let ghost m0 = w0.components.model::<ModalComponent>();
        proof {
            ModalComponent::lemma_slot(w0.components, None);
            lemma_entries_lookup(m0, m0.slots.len() as nat);
            assert forall|k: int| 0 <= k < ids.len() implies m0.contains(#[trigger] ids[k]) by {
                let f = |p: (EntityId, ModalComponent)| p.1.is_open;
                let fl = m0.entries().filter(f);
                assert(ids[k] == fl[k].0);
                assert(fl.contains(fl[k]));
                m0.entries().lemma_filter_contains_rev(f, fl[k]);
                let j = choose|j: int| 0 <= j < m0.entries().len() && m0.entries()[j] == fl[k];
                assert(m0.lookup(m0.entries()[j].0) == Some(m0.entries()[j].1));
            }
        }
        let mut taken: Option<EntryExitAnimationStateResource> = None;
        std::mem::swap(&mut taken, &mut world.resources.entry_exit_animation_state);
        let mut state = match taken {
            Some(st) => st,
            None => {
                return;
            },
        };
        let ghost s0 = state;
        proof {
            assert(state.entry_animation_state.wf() && state.exit_animation_state.wf());
            assert(ids.take(0) =~= Seq::<EntityId>::empty());
        }
        let mut i: usize = 0;
        while i < active_modals.len()
            invariant
                i <= ids.len(),
                ids == active_modals@,
                world.components.wf(),
                world.resources == (crate::resources::EcsResources { entry_exit_animation_state: None, ..w0.resources }),
                world.entities == w0.entities,
                world.next_entity_index == w0.next_entity_index,
                world.free_entity_indices == w0.free_entity_indices,
                world.entity_generations == w0.entity_generations,
                state.entry_animation_state.wf(),
                state.exit_animation_state.wf(),
                w0.components.changes_only::<ModalComponent>(world.components),
                forall|k: int| 0 <= k < ids.len() ==> world.components.model::<ModalComponent>().contains(#[trigger] ids[k]),
                world.components.model::<ModalComponent>().wf(),
                ModalComponent::spec_slot(world.components) is Some,
                (world.components.model::<ModalComponent>(), state.entry_animation_state@, state.exit_animation_state@)
                    == observe_all((m0, s0.entry_animation_state@, s0.exit_animation_state@), ids.take(i as int)),
            decreases ids.len() - i,
        {
            let modal_parent_id = active_modals[i];
            let ghost before = world.components;
            let ghost mm = before.model::<ModalComponent>();
            let ghost st_before = (mm, state.entry_animation_state@, state.exit_animation_state@);
            proof {
                assert(ids.take(i + 1).drop_last() =~= ids.take(i as int));
                assert(ids.take(i + 1).last() == modal_parent_id);
                assert(mm.contains(ids[i as int]));
            }
            let modal_comp = world.components.get_component_mut::<ModalComponent>(modal_parent_id).unwrap();
            let ghost mc0 = *modal_comp;
            let ghost entry0 = state.entry_animation_state@;
            let ghost exit0 = state.exit_animation_state@;
            if modal_comp.is_opening {
                if all_flagged(&state.entry_animation_state, &modal_comp.renderable_children) {
                    modal_comp.is_opening = false;
                    modal_comp.is_open = true;
                    modal_comp.is_closing = false;
                    remove_flags(&mut state.entry_animation_state, &modal_comp.renderable_children);
                }
            } else if modal_comp.is_closing {
                if all_flagged(&state.exit_animation_state, &modal_comp.renderable_children) {
                    modal_comp.is_closing = false;
                    modal_comp.is_open = false;
                    remove_flags(&mut state.exit_animation_state, &modal_comp.renderable_children);
                }
            }
            proof {
                ModalComponent::lemma_slot(w0.components, ModalComponent::spec_slot(world.components));
                ModalComponent::lemma_slot(before, ModalComponent::spec_slot(world.components));
                let now = world.components.model::<ModalComponent>();
                assert forall|k: int| 0 <= k < ids.len() implies now.contains(#[trigger] ids[k]) by {
                    assert(mm.contains(ids[k]));
                    if ids[k].index == modal_parent_id.index {
                        assert(now.slots[ids[k].index as int] is Some);
                    }
                }
                assert(mm.lookup(modal_parent_id) == Some(mc0));
                let kids = mc0.renderable_children@;
                let expected = observe_one(st_before, modal_parent_id);
                if mc0.is_opening && all_finished(entry0, kids) {
                    assert(now.slots =~= expected.0.slots);
                } else if !mc0.is_opening && mc0.is_closing && all_finished(exit0, kids) {
                    assert(now.slots =~= expected.0.slots);
                } else {
                    assert(now.slots =~= mm.slots);
                }
                assert(now == expected.0);
            }
            i += 1;
        }
        world.resources.entry_exit_animation_state = Some(state);
        proof {
            assert(ids.take(i as int) =~= ids);
            assert(world.resources.entry_exit_animation_state matches Some(fs) && fs.entry_animation_state@ == state.entry_animation_state@
                && fs.exit_animation_state@ == state.exit_animation_state@);
        }
    }
}

/// Entities of the render order that produce pixels and are active, each
/// with whether it is frosted glass.
pub open spec fn drawable(w: World, order: Seq<EntityId>) -> Seq<(EntityId, bool)>
    decreases order.len(),
{
    if order.len() == 0 {
        Seq::empty()
    } else {
        let prev = drawable(w, order.drop_last());
        let e = order.last();
        let ty = w.components.lookup::<IdentityComponent>(e).unwrap().component_type;
        let active = w.components.lookup::<InteractionComponent>(e).unwrap().is_active;
        if ty != ComponentType::Container && active {
            prev.push((e, ty == ComponentType::FrostedGlass))
        } else {
            prev
        }
    }
}

/// Maximal runs of consecutive items that share the frosted-glass flag.
pub open spec fn runs(items: Seq<(EntityId, bool)>) -> Seq<(Seq<EntityId>, bool)>
    decreases items.len(),
{
    if items.len() == 0 {
        Seq::empty()
    } else {
        let g = runs(items.drop_last());
        let (e, f) = items.last();
        if g.len() > 0 && g.last().1 == f {
            g.update(g.len() - 1, (g.last().0.push(e), f))
        } else {
            g.push((seq![e], f))
        }
    }
}

/// The items of a group, each with the group's flag.
pub open spec fn tagged(g: (Seq<EntityId>, bool)) -> Seq<(EntityId, bool)> {
    g.0.map_values(|e: EntityId| (e, g.1))
}

/// The items of consecutive groups, one group after the other.
pub open spec fn joined(gs: Seq<(Seq<EntityId>, bool)>) -> Seq<(EntityId, bool)>
    decreases gs.len(),
{
    if gs.len() == 0 {
        Seq::empty()
    } else {
        joined(gs.drop_last()) + tagged(gs.last())
    }
}

/// Grouping loses, adds and reorders nothing: the groups, read one after
/// the other, give back every item in order and each item lands in a group
/// of its own flag; no group is empty and neighbouring groups differ in flag.
pub proof fn law_groups_partition_items(items: Seq<(EntityId, bool)>)
    ensures
        joined(runs(items)) == items,
        forall|i: int| 0 <= i < runs(items).len() ==> (#[trigger] runs(items)[i]).0.len() > 0,
        forall|i: int| 0 <= i < runs(items).len() - 1 ==> (#[trigger] runs(items)[i]).1 != runs(items)[i + 1].1,
    decreases items.len(),
{
    if items.len() > 0 {
        let init = items.drop_last();
        law_groups_partition_items(init);
        let g = runs(init);
        let (e, f) = items.last();
        let r = runs(items);
        if g.len() > 0 && g.last().1 == f {
            assert(r.drop_last() =~= g.drop_last());
            assert(tagged(r.last()) =~= tagged(g.last()).push((e, f)));
            assert(joined(g) == joined(g.drop_last()) + tagged(g.last()));
            assert(joined(r) =~= joined(g).push((e, f)));
            assert forall|i: int| 0 <= i < r.len() - 1 implies (#[trigger] r[i]).1 != r[i + 1].1 by {
                assert(r[i] == g[i]);
                if i + 1 < r.len() - 1 {
                    assert(r[i + 1] == g[i + 1]);
                }
            }
        } else {
            assert(r.drop_last() =~= g);
            assert(tagged(r.last()) =~= seq![(e, f)]);
            assert(joined(r) =~= joined(g).push((e, f)));
            assert forall|i: int| 0 <= i < r.len() - 1 implies (#[trigger] r[i]).1 != r[i + 1].1 by {
                assert(r[i] == g[i]);
                if i + 1 < r.len() - 1 {
                    assert(r[i + 1] == g[i + 1]);
                }
            }
        }
        assert(items =~= init.push((e, f)));
    }
}

/// Whether `e` is drawn: it is active and its kind is not a container.
pub open spec fn shows(w: World, e: EntityId) -> bool {
    &&& w.components.lookup::<IdentityComponent>(e).unwrap().component_type != ComponentType::Container
    &&& w.components.lookup::<InteractionComponent>(e).unwrap().is_active
}

proof fn lemma_drawable_filter(w: World, order: Seq<EntityId>)
    ensures
        drawable(w, order) == order.filter(|e: EntityId| shows(w, e)).map_values(
            |e: EntityId| (e, w.components.lookup::<IdentityComponent>(e).unwrap().component_type == ComponentType::FrostedGlass),
        ),
    decreases order.len(),
{
    reveal(Seq::filter);
    if order.len() > 0 {
        lemma_drawable_filter(w, order.drop_last());
        let sub = order.drop_last().filter(|e: EntityId| shows(w, e));
        assert(order.filter(|e: EntityId| shows(w, e)) == (if shows(w, order.last()) {
            sub.push(order.last())
        } else {
            sub
        }));
        assert(drawable(w, order) =~= order.filter(|e: EntityId| shows(w, e)).map_values(
            |e: EntityId| (e, w.components.lookup::<IdentityComponent>(e).unwrap().component_type == ComponentType::FrostedGlass),
        ));
    } else {
        assert(order.filter(|e: EntityId| shows(w, e)) =~= Seq::<EntityId>::empty());
    }
}

/// The render groups, read one after the other, hold exactly the entities
/// of the render order that are active and are not containers (every other
/// kind, colour backgrounds included, is drawn), in render order, each in a
/// group whose flag says whether it is frosted glass.
pub proof fn law_render_groups_hold_drawn_entities(w: World, order: Seq<EntityId>)
    ensures
        joined(runs(drawable(w, order))) == order.filter(|e: EntityId| shows(w, e)).map_values(
            |e: EntityId| (e, w.components.lookup::<IdentityComponent>(e).unwrap().component_type == ComponentType::FrostedGlass),
        ),
{
    lemma_drawable_filter(w, order);
    law_groups_partition_items(drawable(w, order));
}

pub open spec fn group_view(g: RenderGroup) -> (Seq<EntityId>, bool) {
    (g.entity_ids@, g.is_frosted_glass)
}

/// Splits the render order into groups drawn with the same pipeline.
pub struct RenderPrepareSystem;

/// Render order and render groups must exist, and every entity of the
/// render order must have an identity and an interaction component.
pub open spec fn render_prepare_runnable(w: World) -> bool {
    &&& w.resources.render_order is Some
    &&& w.resources.render_groups is Some
    &&& forall|i: int| 0 <= i < w.resources.render_order.unwrap().render_order@.len() ==> {
        &&& w.components.has::<IdentityComponent>(#[trigger] w.resources.render_order.unwrap().render_order@[i])
        &&& w.components.has::<InteractionComponent>(w.resources.render_order.unwrap().render_order@[i])
    }
}

impl EcsSystem for RenderPrepareSystem {
    proof fn lemma_effect_keeps_ids(&self, before: World, after: World) {
        crate::world::law_ids_kept_without_identity_changes(before, after);
    }

    open spec fn runnable(&self, world: World) -> bool {
        render_prepare_runnable(world)
    }

    /// Skip containers and inactive entities, and cut the rest of the
    /// render order wherever the frosted-glass flag changes.
    open spec fn effect(&self, before: World, after: World) -> bool {
        &&& after.components == before.components
        &&& after.resources.render_groups matches Some(rg) && rg.groups@.map_values(|g: RenderGroup| group_view(g))
                == runs(drawable(before, before.resources.render_order.unwrap().render_order@))
        &&& after.resources == (crate::resources::EcsResources {
                render_groups: after.resources.render_groups,
                ..before.resources
            })
        &&& after.entities == before.entities
        &&& after.next_entity_index == before.next_entity_index
        &&& after.free_entity_indices == before.free_entity_indices
        &&& after.entity_generations == before.entity_generations
    }

    fn run(&mut self, world: &mut World) {
        let ghost w0 = *world;
        let mut render_groups: Vec<RenderGroup> = Vec::new();
        let mut current_group = RenderGroup { entity_ids: Vec::new(), is_frosted_glass: false };
        match &world.resources.render_order {
            Some(render_order_resource) => {
                let render_order = &render_order_resource.render_order;
                let ghost order = render_order@;
                let mut i: usize = 0;
                while i < render_order.len()
                    invariant
                        w0 == *world,
                        world.wf(),
                        render_prepare_runnable(w0),
                        order == w0.resources.render_order.unwrap().render_order@,
                        render_order@ == order,
                        i <= order.len(),
                        current_group.entity_ids@.len() == 0 ==> render_groups@.len() == 0 && drawable(w0, order.take(i as int)).len() == 0,
                        render_groups@.map_values(|g: RenderGroup| group_view(g)) + (if current_group.entity_ids@.len() > 0 {
                            seq![group_view(current_group)]
                        } else {
                            Seq::empty()
                        }) == runs(drawable(w0, order.take(i as int))),
                    decreases order.len() - i,
                {
                    let component_id = render_order[i];
                    proof {
                        assert(order.take(i + 1).drop_last() =~= order.take(i as int));
                        assert(order.take(i + 1).last() == component_id);
                        assert(w0.components.has::<IdentityComponent>(order[i as int]));
                    }
                    let identity_comp = world.components.get_component::<IdentityComponent>(component_id).unwrap();
                    let interaction_comp = world.components.get_component::<InteractionComponent>(component_id).unwrap();
                    let ghost before_groups = render_groups@.map_values(|g: RenderGroup| group_view(g));
                    let ghost before_current = current_group;
                    if identity_comp.component_type == ComponentType::Container || !interaction_comp.is_active {
                        i += 1;
                        continue;
                    }
                    let is_frosted_glass = identity_comp.component_type == ComponentType::FrostedGlass;
                    if is_frosted_glass != current_group.is_frosted_glass && current_group.entity_ids.len() > 0 {
                        let mut done = RenderGroup { entity_ids: Vec::new(), is_frosted_glass };
                        std::mem::swap(&mut done, &mut current_group);
                        render_groups.push(done);
                    } else if current_group.entity_ids.len() == 0 {
                        current_group.is_frosted_glass = is_frosted_glass;
                    }
                    current_group.entity_ids.push(component_id);
                    proof {
                        let items = drawable(w0, order.take(i as int));
                        let x = (component_id, is_frosted_glass);
                        assert(drawable(w0, order.take(i + 1)) == items.push(x));
                        assert(items.push(x).drop_last() =~= items);
                        assert(items.push(x).last() == x);
                        let g = runs(items);
                        let now = render_groups@.map_values(|g: RenderGroup| group_view(g)) + seq![group_view(current_group)];
                        if before_current.entity_ids@.len() == 0 {
                            assert(g =~= Seq::<(Seq<EntityId>, bool)>::empty());
                            assert(current_group.entity_ids@ =~= seq![component_id]);
                            assert(now =~= g.push((seq![component_id], is_frosted_glass)));
                        } else if is_frosted_glass != before_current.is_frosted_glass {
                            assert(g =~= before_groups + seq![group_view(before_current)]);
                            assert(g.last() == group_view(before_current));
                            assert(current_group.entity_ids@ =~= seq![component_id]);
                            assert(render_groups@.map_values(|g: RenderGroup| group_view(g)) =~= before_groups.push(group_view(before_current)));
                            assert(now =~= g.push((seq![component_id], is_frosted_glass)));
                        } else {
                            assert(g =~= before_groups + seq![group_view(before_current)]);
                            assert(g.last() == group_view(before_current));
                            assert(render_groups@.map_values(|g: RenderGroup| group_view(g)) =~= before_groups);
                            assert(now =~= g.update(g.len() - 1, (g.last().0.push(component_id), is_frosted_glass)));
                        }
                        assert(now =~= runs(drawable(w0, order.take(i + 1))));
                    }
                    i += 1;
                }
                proof {
                    assert(order.take(i as int) =~= order);
                }
            },
            None => {},
        }
        if current_group.entity_ids.len() > 0 {
            render_groups.push(current_group);
        }
        world.resources.render_groups = Some(RenderGroupsResource { groups: render_groups });
        proof {
            assert(world.resources.render_groups matches Some(rg) && rg.groups@.map_values(|g: RenderGroup| group_view(g))
                == runs(drawable(w0, w0.resources.render_order.unwrap().render_order@)));
        }
    }
}

/// Clearing hover flags touches only the hover flag of the listed entities
/// that have an interaction component.
proof fn lemma_clear_hover_lookup(m: StorageModel<InteractionComponent>, es: Seq<EntityId>, e: EntityId)
    requires
        m.wf(),
    ensures
        change_all(m, es, InteractionChange::ClearHover).gens == m.gens,
        change_all(m, es, InteractionChange::ClearHover).slots.len() == m.slots.len(),
        change_all(m, es, InteractionChange::ClearHover).lookup(e) == (match m.lookup(e) {
            Some(c) => if es.contains(e) {
                Some(InteractionComponent { is_hovered: false, ..c })
            } else {
                Some(c)
            },
            None => None,
        }),
    decreases es.len(),
{
    if es.len() > 0 {
        let init = es.drop_last();
        lemma_clear_hover_lookup(m, init, e);
        let r = change_all(m, init, InteractionChange::ClearHover);
        let x = es.last();
        lemma_clear_hover_lookup(m, init, x);
        assert(es =~= init.push(x));
        if es.contains(e) && e != x {
            let k = choose|k: int| 0 <= k < es.len() && es[k] == e;
            assert(init[k] == e);
        }
        if init.contains(e) {
            let k = choose|k: int| 0 <= k < init.len() && init[k] == e;
            assert(es[k] == e);
        }
        assert(es[es.len() - 1] == x);
    }
}

/// Every entity with an interaction component is listed among the entries.
proof fn lemma_entries_cover(m: StorageModel<InteractionComponent>, e: EntityId, n: nat)
    requires
        m.wf(),
        n <= m.slots.len(),
        m.contains(e),
        e.index < n,
    ensures
        m.entries_upto(n).map_values(|p: (EntityId, InteractionComponent)| p.0).contains(e),
    decreases n,
{
    let ids = m.entries_upto(n).map_values(|p: (EntityId, InteractionComponent)| p.0);
    if e.index == n - 1 {
        let c = m.slots[n - 1].unwrap();
        assert(crate::storage::slot_entity(n - 1, m.gens[n - 1]) == e);
        assert(ids[ids.len() - 1] == e);
    } else {
        lemma_entries_cover(m, e, (n - 1) as nat);
        let prev = m.entries_upto((n - 1) as nat).map_values(|p: (EntityId, InteractionComponent)| p.0);
        let k = choose|k: int| 0 <= k < prev.len() && prev[k] == e;
        assert(ids[k] == e);
    }
}

/// After the hover reset no entity is hovered, and nothing but the hover
/// flag has changed.
pub proof fn law_hover_reset_clears_every_hover(m: StorageModel<InteractionComponent>, e: EntityId)
    requires
        m.wf(),
    ensures
        change_all(m, m.entries().map_values(|p: (EntityId, InteractionComponent)| p.0), InteractionChange::ClearHover).lookup(e)
            == (match m.lookup(e) {
            Some(c) => Some(InteractionComponent { is_hovered: false, ..c }),
            None => None,
        }),
{
    let ids = m.entries().map_values(|p: (EntityId, InteractionComponent)| p.0);
    lemma_clear_hover_lookup(m, ids, e);
    if m.contains(e) {
        lemma_entries_cover(m, e, m.slots.len());
    }
}

/// Clears the hover flag of every interactive entity.
pub struct HoverStateResetSystem;

impl EcsSystem for HoverStateResetSystem {
    proof fn lemma_effect_keeps_ids(&self, before: World, after: World) {
        crate::world::law_ids_kept_without_identity_changes(before, after);
    }

    open spec fn runnable(&self, world: World) -> bool {
        true
    }

    open spec fn effect(&self, before: World, after: World) -> bool {
        &&& after.components.model::<InteractionComponent>() == change_all(
                before.components.model::<InteractionComponent>(),
                before.components.model::<InteractionComponent>().entries().map_values(
                    |p: (EntityId, InteractionComponent)| p.0,
                ),
                InteractionChange::ClearHover,
            )
        &&& before.components.changes_only::<InteractionComponent>(after.components)
        &&& InteractionComponent::spec_slot(after.components) is Some
        &&& after.resources == before.resources
        &&& after.entities == before.entities
        &&& after.next_entity_index == before.next_entity_index
        &&& after.free_entity_indices == before.free_entity_indices
        &&& after.entity_generations == before.entity_generations
    }

    fn run(&mut self, world: &mut World) {
        let ghost w0 = *world;
        world.components.get_storage::<InteractionComponent>();
        let ids = world.get_entities_with_component::<InteractionComponent>();
        let ghost w1 = *world;
        change_interaction_all(world, ids.as_slice(), InteractionChange::ClearHover);
        proof {
            InteractionComponent::lemma_slot(w0.components, InteractionComponent::spec_slot(w1.components));
            InteractionComponent::lemma_slot(w1.components, InteractionComponent::spec_slot(world.components));
        }
    }
}

} // verus!
