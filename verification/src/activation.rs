//! Switching a component (and optionally everything below it) on or off,
//! and clearing hover state through the per-component callback.
use vstd::prelude::*;
use crate::components::{EcsComponent, InteractionComponent};
use crate::entity::EntityId;
use crate::hierarchy::{gather_all_children, gathered, is_tree_below};
use crate::resources::{EcsResources, RequestReLayoutResource};
use crate::storage::{StorageModel, slot_entity};
use crate::world::{EcsSystem, World};

verus! {

/// Activates or deactivates an entity, and with `affect_children` every
/// entity below it. The entities with an entry (exit) animation are listed
/// in `entry_animated` (`exit_animated`): on activation they are marked just
/// activated; on deactivation they stay active, marked just deactivated,
/// so that the exit animation can play first.
pub struct ComponentActivationSystem {
    pub activate: bool,
    pub entity_id: EntityId,
    pub affect_children: bool,
    pub entry_animated: Vec<EntityId>,
    pub exit_animated: Vec<EntityId>,
}

/// The interaction state after switching on (or off) an entity with or
/// without an entry and an exit animation.
pub open spec fn switched(c: InteractionComponent, activate: bool, has_entry: bool, has_exit: bool) -> InteractionComponent {
    if activate {
        InteractionComponent { is_active: true, is_just_activated: has_entry, is_just_deactivated: false, ..c }
    } else {
        InteractionComponent { is_active: has_exit, is_just_activated: false, is_just_deactivated: has_exit, ..c }
    }
}

/// `m` after switching `e`, if it has an interaction component.
pub open spec fn switch_one(
    m: StorageModel<InteractionComponent>,
    e: EntityId,
    activate: bool,
    entry: Seq<EntityId>,
    exit: Seq<EntityId>,
) -> StorageModel<InteractionComponent> {
    if m.contains(e) {
        StorageModel {
            slots: m.slots.update(
                e.index as int,
                Some(switched(m.lookup(e).unwrap(), activate, entry.contains(e), exit.contains(e))),
            ),
            ..m
        }
    } else {
        m
    }
}

/// `m` after switching each of `es` in turn.
pub open spec fn switch_all(
    m: StorageModel<InteractionComponent>,
    es: Seq<EntityId>,
    activate: bool,
    entry: Seq<EntityId>,
    exit: Seq<EntityId>,
) -> StorageModel<InteractionComponent>
    decreases es.len(),
{
    if es.len() == 0 {
        m
    } else {
        switch_one(switch_all(m, es.drop_last(), activate, entry, exit), es.last(), activate, entry, exit)
    }
}

impl ComponentActivationSystem {
    /// The entity's interaction component before the run.
    pub open spec fn parent_before(&self, w: World) -> InteractionComponent {
        w.components.lookup::<InteractionComponent>(self.entity_id).unwrap()
    }

    /// Whether the run switches anything: the entity is not already in the
    /// requested state.
    pub open spec fn switches(&self, w: World) -> bool {
        self.activate != self.parent_before(w).is_active
    }

    /// The entity's own new state: its transition flags are cleared, and
    /// when it is not already in the requested state it is switched.
    pub open spec fn parent_after(&self, w: World) -> InteractionComponent {
        let c = self.parent_before(w);
        if self.switches(w) {
            switched(c, self.activate, self.entry_animated@.contains(self.entity_id), self.exit_animated@.contains(self.entity_id))
        } else {
            InteractionComponent { is_just_activated: false, is_just_deactivated: false, ..c }
        }
    }
}

/// `w1` is `w0` after one run of `s`: the entity takes its new state; when
/// it switched and children are affected, every entity below it is switched
/// too, in gathering order, and a relayout is requested.
pub open spec fn activation_applied(s: ComponentActivationSystem, w0: World, w1: World) -> bool {
    let m0 = w0.components.model::<InteractionComponent>();
    let m1 = StorageModel { slots: m0.slots.update(s.entity_id.index as int, Some(s.parent_after(w0))), ..m0 };
    let all = s.switches(w0) && s.affect_children;
    &&& w1.components.model::<InteractionComponent>() == (if all {
        switch_all(m1, gathered(w0.components, s.entity_id), s.activate, s.entry_animated@, s.exit_animated@)
    } else {
        m1
    })
    &&& w0.components.changes_only::<InteractionComponent>(w1.components)
    &&& w1.resources == (if all {
        EcsResources { request_relayout: Some(RequestReLayoutResource { request_relayout: true }), ..w0.resources }
    } else {
        w0.resources
    })
    &&& w1.entities == w0.entities
    &&& w1.next_entity_index == w0.next_entity_index
    &&& w1.free_entity_indices == w0.free_entity_indices
    &&& w1.entity_generations == w0.entity_generations
}

/// Switching the listed entities keeps every entity's interaction
/// component; a listed entity ends switched from some earlier state, and an
/// unlisted one is left alone.
proof fn lemma_switch_all_reaches(
    m: StorageModel<InteractionComponent>,
    es: Seq<EntityId>,
    activate: bool,
    entry: Seq<EntityId>,
    exit: Seq<EntityId>,
    e: EntityId,
)
    requires
        m.contains(e),
    ensures
        switch_all(m, es, activate, entry, exit).contains(e),
        es.contains(e) ==> exists|c: InteractionComponent| switch_all(m, es, activate, entry, exit).lookup(e) == Some(
            #[trigger] switched(c, activate, entry.contains(e), exit.contains(e)),
        ),
        !es.contains(e) ==> switch_all(m, es, activate, entry, exit).lookup(e) == m.lookup(e),
    decreases es.len(),
{
    if es.len() > 0 {
        let init = es.drop_last();
        let last = es.last();
        lemma_switch_all_reaches(m, init, activate, entry, exit, e);
        let prev = switch_all(m, init, activate, entry, exit);
        if last == e {
            let c = prev.lookup(e).unwrap();
            assert(switch_all(m, es, activate, entry, exit).lookup(e) == Some(
                switched(c, activate, entry.contains(e), exit.contains(e)),
            ));
            assert(es[es.len() - 1] == e);
        } else {
            assert(es.contains(e) ==> init.contains(e)) by {
                if es.contains(e) {
                    let k = choose|k: int| 0 <= k < es.len() && es[k] == e;
                    assert(init[k] == e);
                }
            }
            assert(init.contains(e) ==> es.contains(e)) by {
                if init.contains(e) {
                    let k = choose|k: int| 0 <= k < init.len() && init[k] == e;
                    assert(es[k] == e);
                }
            }
            if init.contains(e) {
                let c = choose|c: InteractionComponent| prev.lookup(e) == Some(
                    #[trigger] switched(c, activate, entry.contains(e), exit.contains(e)),
                );
                assert(switch_all(m, es, activate, entry, exit).lookup(e) == Some(
                    switched(c, activate, entry.contains(e), exit.contains(e)),
                ));
            }
        }
    }
}

/// Switching an entity that is not yet in the requested state: the entity,
/// and with `affect_children` every entity below it that has an interaction
/// component, ends switched. Switched on, it is active and marked just
/// activated exactly when it has an entry animation. Switched off, it stays
/// active and is marked just deactivated exactly when it has an exit
/// animation (so that animation can play); without one it is inactive at once.
pub proof fn law_activation_switches_subtree(s: ComponentActivationSystem, w0: World, w1: World, e: EntityId)
    requires
        w0.wf(),
        s.runnable(w0),
        activation_applied(s, w0, w1),
        s.switches(w0),
        e == s.entity_id || (s.affect_children && gathered(w0.components, s.entity_id).contains(e)),
        w0.components.has::<InteractionComponent>(e),
    ensures
        w1.components.lookup::<InteractionComponent>(e) matches Some(c) && (if s.activate {
            c.is_active && c.is_just_activated == s.entry_animated@.contains(e) && !c.is_just_deactivated
        } else {
            c.is_active == s.exit_animated@.contains(e) && c.is_just_deactivated == s.exit_animated@.contains(e)
                && !c.is_just_activated
        }),
        s.affect_children ==> w1.resources.request_relayout == Some(RequestReLayoutResource { request_relayout: true }),
        !s.affect_children ==> w1.resources == w0.resources,
{
    let m0 = w0.components.model::<InteractionComponent>();
    let id = s.entity_id;
    let m1 = StorageModel { slots: m0.slots.update(id.index as int, Some(s.parent_after(w0))), ..m0 };
    assert(m0.contains(id));
    assert(m1.contains(e));
    assert(m1.lookup(id) == Some(s.parent_after(w0)));
    if s.affect_children {
        lemma_switch_all_reaches(m1, gathered(w0.components, id), s.activate, s.entry_animated@, s.exit_animated@, e);
    }
}

/// Asking for the state an entity is already in only clears its transition
/// flags: it stays as active as it was, nothing below it changes, every other
/// entity reads as before, and no relayout is requested.
pub proof fn law_activation_without_switch(s: ComponentActivationSystem, w0: World, w1: World, e: EntityId)
    requires
        w0.wf(),
        s.runnable(w0),
        activation_applied(s, w0, w1),
        !s.switches(w0),
    ensures
        w1.components.lookup::<InteractionComponent>(s.entity_id) matches Some(c) && c.is_active == s.parent_before(w0).is_active
            && !c.is_just_activated && !c.is_just_deactivated,
        e.index != s.entity_id.index ==> w1.components.lookup::<InteractionComponent>(e) == w0.components.lookup::<InteractionComponent>(e),
        w1.resources == w0.resources,
{
    let m0 = w0.components.model::<InteractionComponent>();
    assert(m0.contains(s.entity_id));
}

/// Whether `e` is listed in `v`.
fn listed(v: &Vec<EntityId>, e: EntityId) -> (r: bool)
    ensures
        r == v@.contains(e),
{
    let mut i: usize = 0;
    while i < v.len()
        invariant
            i <= v@.len(),
            forall|j: int| 0 <= j < i ==> v@[j] != e,
        decreases v@.len() - i,
    {
        if v[i] == e {
            assert(v@[i as int] == e);
            return true;
        }
        i += 1;
    }
    false
}

/// Switch one entity's interaction component, if it has one.
fn switch_entity(world: &mut World, e: EntityId, activate: bool, entry: &Vec<EntityId>, exit: &Vec<EntityId>)
    requires
        old(world).wf(),
    ensures
        final(world).wf(),
        old(world).components.changes_only::<InteractionComponent>(final(world).components),
        final(world).components.model::<InteractionComponent>() == switch_one(
            old(world).components.model::<InteractionComponent>(),
            e,
            activate,
            entry@,
            exit@,
        ),
        final(world).resources == old(world).resources,
        final(world).entities == old(world).entities,
        final(world).next_entity_index == old(world).next_entity_index,
        final(world).free_entity_indices == old(world).free_entity_indices,
        final(world).entity_generations == old(world).entity_generations,
{
    let has_entry = listed(entry, e);
    let has_exit = listed(exit, e);
    match world.components.get_component_mut::<InteractionComponent>(e) {
        Some(ic) => {
            ic.is_just_activated = false;
            ic.is_just_deactivated = false;
            if activate {
                ic.is_active = true;
                ic.is_just_activated = has_entry;
            } else {
                ic.is_active = has_exit;
                ic.is_just_deactivated = has_exit;
            }
        },
        None => {},
    }
}

impl EcsSystem for ComponentActivationSystem {
    /// The entity has an interaction component; when the run switches it
    /// and affects children, the tree below it is finite and a relayout
    /// request resource exists.
    open spec fn runnable(&self, world: World) -> bool {
        &&& world.components.has::<InteractionComponent>(self.entity_id)
        &&& self.switches(world) && self.affect_children ==> {
            &&& is_tree_below(world.components, self.entity_id)
            &&& world.resources.request_relayout is Some
        }
    }

    open spec fn effect(&self, before: World, after: World) -> bool {
        activation_applied(*self, before, after)
    }

    proof fn lemma_effect_keeps_ids(&self, before: World, after: World) {
        crate::world::law_ids_kept_without_identity_changes(before, after);
    }

    fn run(&mut self, world: &mut World) {
        let ghost w0 = *world;
        let ghost m0 = w0.components.model::<InteractionComponent>();
        let id = self.entity_id;
        let has_entry = listed(&self.entry_animated, id);
        let has_exit = listed(&self.exit_animated, id);
        let switches = match world.components.get_component::<InteractionComponent>(id) {
            Some(ic) => self.activate != ic.is_active,
            None => false,
        };
        let children: Vec<EntityId> = if switches && self.affect_children {
            gather_all_children(world, id)
        } else {
            Vec::new()
        };
        match world.components.get_component_mut::<InteractionComponent>(id) {
            Some(ic) => {
                ic.is_just_activated = false;
                ic.is_just_deactivated = false;
                if switches {
                    if self.activate {
                        ic.is_active = true;
                        ic.is_just_activated = has_entry;
                    } else {
                        ic.is_active = has_exit;
                        ic.is_just_deactivated = has_exit;
                    }
                }
            },
            None => {},
        }
        let ghost w1 = *world;
        proof {
            InteractionComponent::lemma_slot(w0.components, InteractionComponent::spec_slot(w1.components));
            assert(w1.components.model::<InteractionComponent>() == StorageModel {
                slots: m0.slots.update(id.index as int, Some(self.parent_after(w0))),
                ..m0
            });
        }
        if !(switches && self.affect_children) {
            return;
        }
        let mut i: usize = 0;
        while i < children.len()
            invariant
                world.wf(),
                i <= children@.len(),
                w0.components.changes_only::<InteractionComponent>(world.components),
                world.components.model::<InteractionComponent>() == switch_all(
                    w1.components.model::<InteractionComponent>(),
                    children@.take(i as int),
                    self.activate,
                    self.entry_animated@,
                    self.exit_animated@,
                ),
                world.resources == w0.resources,
                world.entities == w0.entities,
                world.next_entity_index == w0.next_entity_index,
                world.free_entity_indices == w0.free_entity_indices,
                world.entity_generations == w0.entity_generations,
            decreases children@.len() - i,
        {
            let ghost before = world.components;
            switch_entity(world, children[i], self.activate, &self.entry_animated, &self.exit_animated);
            proof {
                assert(children@.take(i + 1).drop_last() =~= children@.take(i as int));
                assert(children@.take(i + 1).last() == children@[i as int]);
                InteractionComponent::lemma_slot(w0.components, InteractionComponent::spec_slot(world.components));
                InteractionComponent::lemma_slot(before, InteractionComponent::spec_slot(world.components));
            }
            i += 1;
        }
        proof {
            assert(children@.take(i as int) =~= children@);
        }
        world.resources.request_relayout = Some(RequestReLayoutResource { request_relayout: true });
    }
}

/// Clears the hover flag of an interaction component.
fn clear_hover(_entity: EntityId, c: &mut InteractionComponent)
    ensures
        *final(c) == (InteractionComponent { is_hovered: false, ..*old(c) }),
{
    c.is_hovered = false;
}

/// Clears the hover flag of every interactive entity, one component at a time.
pub struct ComponentHoverResetSystem;

/// `after` is `before` with the hover flag of every interaction component cleared.
pub open spec fn hover_cleared(before: StorageModel<InteractionComponent>, after: StorageModel<InteractionComponent>) -> bool {
    &&& crate::storage::same_occupancy(before, after)
    &&& forall|k: int| 0 <= k < before.slots.len() && #[trigger] before.slots[k] is Some ==> after.slots[k] == Some(
        InteractionComponent { is_hovered: false, ..before.slots[k].unwrap() },
    )
}

impl EcsSystem for ComponentHoverResetSystem {
    open spec fn runnable(&self, world: World) -> bool {
        true
    }

    open spec fn effect(&self, before: World, after: World) -> bool {
        &&& hover_cleared(
            before.components.model::<InteractionComponent>(),
            after.components.model::<InteractionComponent>(),
        )
        &&& before.components.changes_only::<InteractionComponent>(after.components)
        &&& after.resources == before.resources
        &&& after.entities == before.entities
        &&& after.next_entity_index == before.next_entity_index
        &&& after.free_entity_indices == before.free_entity_indices
        &&& after.entity_generations == before.entity_generations
    }

    proof fn lemma_effect_keeps_ids(&self, before: World, after: World) {
        crate::world::law_ids_kept_without_identity_changes(before, after);
    }

    fn run(&mut self, world: &mut World) {
        let ghost w0 = *world;
        world.for_each_component_mut::<InteractionComponent, _>(clear_hover);
        proof {
            let m0 = w0.components.model::<InteractionComponent>();
            let m1 = world.components.model::<InteractionComponent>();
            assert forall|k: int| 0 <= k < m0.slots.len() && #[trigger] m0.slots[k] is Some implies m1.slots[k] == Some(
                InteractionComponent { is_hovered: false, ..m0.slots[k].unwrap() },
            ) by {
                let r = choose|r: &mut InteractionComponent| *r == m0.slots[k].unwrap() && *final(r) == m1.slots[k].unwrap()
                    && #[trigger] call_ensures(clear_hover, (slot_entity(k, m0.gens[k]), r), ());
                assert(*final(r) == InteractionComponent { is_hovered: false, ..*r });
                assert(m1.slots[k] is Some);
            }
        }
    }
}

} // verus!
