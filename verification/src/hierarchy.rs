//! Walks over the UI tree stored in the hierarchy components, and bulk
//! updates of the interaction flags of the entities found there.
use vstd::prelude::*;
use crate::components::{EcsComponent, EcsComponents, HierarchyComponent, IdentityComponent, InteractionComponent};
use crate::entity::{ComponentType, EntityId};
use crate::storage::StorageModel;
use crate::world::World;

verus! {

/// Children listed in the hierarchy component of `e` (none without one).
pub open spec fn hier_children(c: EcsComponents, e: EntityId) -> Seq<EntityId> {
    match c.lookup::<HierarchyComponent>(e) {
        Some(hc) => hc.children@,
        None => Seq::empty(),
    }
}

/// `h` ranks the tree below `root`: every ranked entity has a hierarchy
/// component and its children are ranked strictly lower. Such a ranking
/// exists exactly when the tree below `root` is finite and acyclic and every
/// entity in it has a hierarchy component.
pub open spec fn ranked(c: EcsComponents, root: EntityId, h: Map<EntityId, nat>) -> bool {
    &&& h.contains_key(root)
    &&& forall|e: EntityId| #[trigger] h.contains_key(e) ==> {
        &&& c.has::<HierarchyComponent>(e)
        &&& forall|i: int| 0 <= i < hier_children(c, e).len() ==> h.contains_key(#[trigger] hier_children(c, e)[i])
            && h[hier_children(c, e)[i]] < h[e]
    }
}

pub open spec fn is_tree_below(c: EcsComponents, root: EntityId) -> bool {
    exists|h: Map<EntityId, nat>| ranked(c, root, h)
}

/// Everything below `e`: its children, then what lies below each child,
/// last child first.
pub open spec fn descendants(c: EcsComponents, h: Map<EntityId, nat>, e: EntityId) -> Seq<EntityId>
    decreases h[e], 1nat, 0nat,
{
    hier_children(c, e) + rev_descendants(c, h, h[e], hier_children(c, e))
}

/// What lies below each of `cs`, last one first.
pub open spec fn rev_descendants(c: EcsComponents, h: Map<EntityId, nat>, bound: nat, cs: Seq<EntityId>) -> Seq<EntityId>
    decreases bound, 0nat, cs.len(),
    when forall|i: int| 0 <= i < cs.len() ==> h[#[trigger] cs[i]] < bound
{
    if cs.len() == 0 {
        Seq::empty()
    } else {
        descendants(c, h, cs.last()) + rev_descendants(c, h, bound, cs.drop_last())
    }
}

/// The entities below `root`, in the order the walk collects them.
pub open spec fn gathered(c: EcsComponents, root: EntityId) -> Seq<EntityId> {
    descendants(c, choose|h: Map<EntityId, nat>| ranked(c, root, h), root)
}

proof fn lemma_rev_descendants_concat(
    c: EcsComponents,
    h: Map<EntityId, nat>,
    bound: nat,
    a: Seq<EntityId>,
    b: Seq<EntityId>,
)
    requires
        forall|i: int| 0 <= i < a.len() ==> h[#[trigger] a[i]] < bound,
        forall|i: int| 0 <= i < b.len() ==> h[#[trigger] b[i]] < bound,
    ensures
        rev_descendants(c, h, bound, a + b) == rev_descendants(c, h, bound, b) + rev_descendants(c, h, bound, a),
    decreases b.len(),
{
    let ab = a + b;
    assert forall|i: int| 0 <= i < ab.len() implies h[#[trigger] ab[i]] < bound by {
        if i < a.len() {
            assert(ab[i] == a[i]);
        } else {
            assert(ab[i] == b[i - a.len()]);
        }
    }
    if b.len() == 0 {
        assert(a + b =~= a);
        assert(rev_descendants(c, h, bound, b) =~= Seq::<EntityId>::empty());
        assert(Seq::<EntityId>::empty() + rev_descendants(c, h, bound, a) =~= rev_descendants(c, h, bound, a));
    } else {
        let bi = b.drop_last();
        assert forall|i: int| 0 <= i < bi.len() implies h[#[trigger] bi[i]] < bound by {
            assert(bi[i] == b[i]);
        }
        lemma_rev_descendants_concat(c, h, bound, a, bi);
        assert(ab.drop_last() =~= a + bi);
        assert(ab.last() == b.last());
        assert(rev_descendants(c, h, bound, ab) == descendants(c, h, b.last()) + rev_descendants(c, h, bound, a + bi));
        assert(rev_descendants(c, h, bound, b) == descendants(c, h, b.last()) + rev_descendants(c, h, bound, bi));
        assert(rev_descendants(c, h, bound, ab) =~= rev_descendants(c, h, bound, b) + rev_descendants(c, h, bound, a));
    }
}

/// Collect every entity below `root_entity_id`: pop an entity off a stack,
/// append its children to the result and push them on the stack.
pub fn gather_all_children(world: &World, root_entity_id: EntityId) -> (r: Vec<EntityId>)
    requires
        world.wf(),
        is_tree_below(world.components, root_entity_id),
    ensures
        r@ == gathered(world.components, root_entity_id),
{
    let ghost c = world.components;
    let ghost h = choose|h: Map<EntityId, nat>| ranked(c, root_entity_id, h);
    let ghost bound = h[root_entity_id] + 1;
    let mut all_children: Vec<EntityId> = Vec::new();
    let mut to_process: Vec<EntityId> = Vec::new();
    to_process.push(root_entity_id);
    proof {
        let s = to_process@;
        assert(s.drop_last() =~= Seq::<EntityId>::empty());
        assert(rev_descendants(c, h, bound, s) == descendants(c, h, root_entity_id) + rev_descendants(c, h, bound, s.drop_last()));
        assert(all_children@ + rev_descendants(c, h, bound, s) =~= descendants(c, h, root_entity_id));
    }
    while to_process.len() > 0
        invariant
            world.wf(),
            c == world.components,
            ranked(c, root_entity_id, h),
            bound == h[root_entity_id] + 1,
            forall|i: int| 0 <= i < to_process@.len() ==> #[trigger] h.contains_key(to_process@[i]) && h[to_process@[i]] < bound,
            all_children@ + rev_descendants(c, h, bound, to_process@) == descendants(c, h, root_entity_id),
        decreases rev_descendants(c, h, bound, to_process@).len() + to_process@.len(),
    {
        let ghost before_out = all_children@;
        let ghost before_stack = to_process@;
        let entity_id = to_process.pop().unwrap();
        proof {
            assert(before_stack.last() == entity_id);
            assert(to_process@ == before_stack.drop_last());
            assert(h.contains_key(before_stack[before_stack.len() - 1]));
        }
        let hierarchy_comp = world.components.get_component::<HierarchyComponent>(entity_id).unwrap();
        let ghost kids = hier_children(c, entity_id);
        proof {
            assert(hierarchy_comp.children@ == kids);
        }
        let ghost base_stack = to_process@;
        let mut k: usize = 0;
        while k < hierarchy_comp.children.len()
            invariant
                world.wf(),
                c == world.components,
                ranked(c, root_entity_id, h),
                bound == h[root_entity_id] + 1,
                forall|i: int| 0 <= i < before_stack.len() ==> #[trigger] h.contains_key(before_stack[i]) && h[before_stack[i]] < bound,
                before_stack.len() > 0,
                before_stack.last() == entity_id,
                base_stack == before_stack.drop_last(),
                kids == hier_children(c, entity_id),
                before_out + rev_descendants(c, h, bound, before_stack) == descendants(c, h, root_entity_id),
                k <= hierarchy_comp.children@.len(),
                hierarchy_comp.children@ == kids,
                all_children@ == before_out + kids.take(k as int),
                to_process@ == base_stack + kids.take(k as int),
            decreases hierarchy_comp.children@.len() - k,
        {
            let child_id = hierarchy_comp.children[k];
            all_children.push(child_id);
            to_process.push(child_id);
            proof {
                assert(kids.take(k + 1) =~= kids.take(k as int).push(child_id));
                assert(all_children@ =~= before_out + kids.take(k + 1));
                assert(to_process@ =~= base_stack + kids.take(k + 1));
            }
            k += 1;
        }
        proof {
            assert(kids.take(k as int) =~= kids);
            assert(h.contains_key(entity_id));
            assert forall|i: int| 0 <= i < kids.len() implies h.contains_key(#[trigger] kids[i]) && h[kids[i]] < h[entity_id] by {}
            assert forall|i: int| 0 <= i < base_stack.len() implies h[#[trigger] base_stack[i]] < bound by {
                assert(base_stack[i] == before_stack[i]);
                assert(h.contains_key(before_stack[i]));
            }
            assert forall|i: int| 0 <= i < before_stack.len() implies h[#[trigger] before_stack[i]] < bound by {
                assert(h.contains_key(before_stack[i]));
            }
            assert forall|i: int| 0 <= i < kids.len() implies h[#[trigger] kids[i]] < bound by {}
            lemma_rev_descendants_concat(c, h, bound, base_stack, kids);
            assert forall|i: int| 0 <= i < kids.len() implies h[#[trigger] kids[i]] < h[entity_id] by {}
            assert(descendants(c, h, entity_id) == kids + rev_descendants(c, h, h[entity_id], kids));
            lemma_rev_descendants_bound(c, h, h[entity_id], bound, kids);
            assert(rev_descendants(c, h, bound, before_stack) == descendants(c, h, entity_id) + rev_descendants(c, h, bound, base_stack));
            assert(all_children@ + rev_descendants(c, h, bound, to_process@) =~= before_out + rev_descendants(c, h, bound, before_stack));
            assert forall|i: int| 0 <= i < to_process@.len() implies #[trigger] h.contains_key(to_process@[i]) && h[to_process@[i]] < bound by {
                if i < base_stack.len() {
                    assert(to_process@[i] == base_stack[i]);
                    assert(before_stack[i] == base_stack[i]);
                } else {
                    assert(to_process@[i] == kids[i - base_stack.len()]);
                }
            }
        }
    }
    proof {
        assert(to_process@ =~= Seq::<EntityId>::empty());
        assert(all_children@ =~= descendants(c, h, root_entity_id));
    }
    all_children
}

/// The bound used to justify the walk does not change what it yields.
proof fn lemma_rev_descendants_bound(c: EcsComponents, h: Map<EntityId, nat>, b1: nat, b2: nat, cs: Seq<EntityId>)
    requires
        forall|i: int| 0 <= i < cs.len() ==> h[#[trigger] cs[i]] < b1,
        forall|i: int| 0 <= i < cs.len() ==> h[#[trigger] cs[i]] < b2,
    ensures
        rev_descendants(c, h, b1, cs) == rev_descendants(c, h, b2, cs),
    decreases cs.len(),
{
    if cs.len() > 0 {
        let init = cs.drop_last();
        assert forall|i: int| 0 <= i < init.len() implies h[#[trigger] init[i]] < b1 && h[init[i]] < b2 by {
            assert(init[i] == cs[i]);
        }
        lemma_rev_descendants_bound(c, h, b1, b2, init);
    }
}

/// Collect every entity below `root_entity_id` with its component type,
/// in the order of [`gather_all_children`].
pub fn gather_all_children_with_types(world: &World, root_entity_id: EntityId) -> (r: Vec<(EntityId, ComponentType)>)
    requires
        world.wf(),
        is_tree_below(world.components, root_entity_id),
        forall|i: int| 0 <= i < gathered(world.components, root_entity_id).len() ==> world.components.has::<IdentityComponent>(
            #[trigger] gathered(world.components, root_entity_id)[i],
        ),
    ensures
        r@.len() == gathered(world.components, root_entity_id).len(),
        forall|i: int| 0 <= i < r@.len() ==> #[trigger] r@[i] == (
            gathered(world.components, root_entity_id)[i],
            world.components.lookup::<IdentityComponent>(gathered(world.components, root_entity_id)[i]).unwrap().component_type,
        ),
{
    let children = gather_all_children(world, root_entity_id);
    let mut out: Vec<(EntityId, ComponentType)> = Vec::new();
    let mut i: usize = 0;
    while i < children.len()
        invariant
            world.wf(),
            children@ == gathered(world.components, root_entity_id),
            forall|j: int| 0 <= j < children@.len() ==> world.components.has::<IdentityComponent>(#[trigger] children@[j]),
            i <= children@.len(),
            out@.len() == i,
            forall|j: int| 0 <= j < i ==> #[trigger] out@[j] == (
                children@[j],
                world.components.lookup::<IdentityComponent>(children@[j]).unwrap().component_type,
            ),
        decreases children@.len() - i,
    {
        let child_id = children[i];
        assert(world.components.has::<IdentityComponent>(children@[i as int]));
        let component_type = world.components.get_component::<IdentityComponent>(child_id).unwrap().component_type;
        out.push((child_id, component_type));
        i += 1;
    }
    out
}

/// How a bulk update rewrites the flags of an interaction component.
#[derive(Debug, Clone, Copy, PartialEq, Eq, Structural)]
pub enum InteractionChange {
    /// Inactive, with no pending transition.
    Deactivate,
    /// Active, with no pending transition.
    Activate,
    /// Active and just activated, so that entry animations play.
    PrepareEntry,
    /// Marked just deactivated (active state untouched), so that exit animations play.
    PrepareExit,
    /// Not hovered.
    ClearHover,
}

pub open spec fn apply_change(op: InteractionChange, c: InteractionComponent) -> InteractionComponent {
    match op {
        InteractionChange::Deactivate => InteractionComponent {
            is_active: false,
            is_just_activated: false,
            is_just_deactivated: false,
            ..c
        },
        InteractionChange::Activate => InteractionComponent {
            is_active: true,
            is_just_activated: false,
            is_just_deactivated: false,
            ..c
        },
        InteractionChange::PrepareEntry => InteractionComponent {
            is_active: true,
            is_just_activated: true,
            is_just_deactivated: false,
            ..c
        },
        InteractionChange::PrepareExit => InteractionComponent {
            is_just_activated: false,
            is_just_deactivated: true,
            ..c
        },
        InteractionChange::ClearHover => InteractionComponent { is_hovered: false, ..c },
    }
}

/// The interaction storage after applying `op` to `e`, if `e` has an interaction component.
pub open spec fn change_one(m: StorageModel<InteractionComponent>, e: EntityId, op: InteractionChange) -> StorageModel<
    InteractionComponent,
> {
    if m.contains(e) {
        StorageModel { slots: m.slots.update(e.index as int, Some(apply_change(op, m.lookup(e).unwrap()))), ..m }
    } else {
        m
    }
}

/// The interaction storage after applying `op` to each of `es` in turn.
pub open spec fn change_all(m: StorageModel<InteractionComponent>, es: Seq<EntityId>, op: InteractionChange) -> StorageModel<
    InteractionComponent,
>
    decreases es.len(),
{
    if es.len() == 0 {
        m
    } else {
        change_one(change_all(m, es.drop_last(), op), es.last(), op)
    }
}

/// Apply `op` to the interaction component of `e`, if it has one; true when it had one.
pub fn change_interaction(world: &mut World, e: EntityId, op: InteractionChange) -> (r: bool)
    requires
        old(world).wf(),
    ensures
        final(world).wf(),
        r == old(world).components.has::<InteractionComponent>(e),
        old(world).components.changes_only::<InteractionComponent>(final(world).components),
        InteractionComponent::spec_slot(final(world).components) is Some,
        final(world).components.model::<InteractionComponent>() == change_one(
            old(world).components.model::<InteractionComponent>(),
            e,
            op,
        ),
        final(world).resources == old(world).resources,
        final(world).entities == old(world).entities,
        final(world).next_entity_index == old(world).next_entity_index,
        final(world).free_entity_indices == old(world).free_entity_indices,
        final(world).entity_generations == old(world).entity_generations,
{
    match world.components.get_component_mut::<InteractionComponent>(e) {
        Some(ic) => {
            match op {
                InteractionChange::Deactivate => {
                    ic.is_active = false;
                    ic.is_just_activated = false;
                    ic.is_just_deactivated = false;
                },
                InteractionChange::Activate => {
                    ic.is_active = true;
                    ic.is_just_activated = false;
                    ic.is_just_deactivated = false;
                },
                InteractionChange::PrepareEntry => {
                    ic.is_active = true;
                    ic.is_just_activated = true;
                    ic.is_just_deactivated = false;
                },
                InteractionChange::PrepareExit => {
                    ic.is_just_deactivated = true;
                    ic.is_just_activated = false;
                },
                InteractionChange::ClearHover => {
                    ic.is_hovered = false;
                },
            }
            true
        },
        None => false,
    }
}

/// Apply `op` to each of `es` in turn (those without an interaction component are skipped).
pub fn change_interaction_all(world: &mut World, es: &[EntityId], op: InteractionChange)
    requires
        old(world).wf(),
    ensures
        final(world).wf(),
        old(world).components.changes_only::<InteractionComponent>(final(world).components),
        (es@.len() > 0 || InteractionComponent::spec_slot(old(world).components) is Some)
            ==> InteractionComponent::spec_slot(final(world).components) is Some,
        final(world).components.model::<InteractionComponent>() == change_all(
            old(world).components.model::<InteractionComponent>(),
            es@,
            op,
        ),
        final(world).resources == old(world).resources,
        final(world).entities == old(world).entities,
        final(world).next_entity_index == old(world).next_entity_index,
        final(world).free_entity_indices == old(world).free_entity_indices,
        final(world).entity_generations == old(world).entity_generations,
{
    let mut i: usize = 0;
    proof {
        assert(es@.take(0) =~= Seq::<EntityId>::empty());
        InteractionComponent::lemma_slot(world.components, None);
    }
    while i < es.len()
        invariant
            world.wf(),
            i <= es@.len(),
            old(world).components.changes_only::<InteractionComponent>(world.components),
            (i > 0 || InteractionComponent::spec_slot(old(world).components) is Some)
                ==> InteractionComponent::spec_slot(world.components) is Some,
            world.components.model::<InteractionComponent>() == change_all(
                old(world).components.model::<InteractionComponent>(),
                es@.take(i as int),
                op,
            ),
            world.resources == old(world).resources,
            world.entities == old(world).entities,
            world.next_entity_index == old(world).next_entity_index,
            world.free_entity_indices == old(world).free_entity_indices,
            world.entity_generations == old(world).entity_generations,
        decreases es@.len() - i,
    {
        let ghost before = world.components;
        change_interaction(world, es[i], op);
        proof {
            assert(es@.take(i + 1).drop_last() =~= es@.take(i as int));
            assert(es@.take(i + 1).last() == es@[i as int]);
            InteractionComponent::lemma_slot(old(world).components, InteractionComponent::spec_slot(world.components));
            InteractionComponent::lemma_slot(before, InteractionComponent::spec_slot(world.components));
        }
        i += 1;
    }
    proof {
        assert(es@.take(i as int) =~= es@);
    }
}

/// Deactivate an entity and everything below it (clearing their pending
/// transitions as well).
pub fn deactivate_component_and_children(world: &mut World, entity_id: EntityId)
    requires
        old(world).wf(),
        old(world).components.has::<InteractionComponent>(entity_id),
        is_tree_below(old(world).components, entity_id),
        forall|i: int| 0 <= i < gathered(old(world).components, entity_id).len() ==> old(world).components.has::<
            InteractionComponent,
        >(#[trigger] gathered(old(world).components, entity_id)[i]),
    ensures
        final(world).wf(),
        old(world).components.changes_only::<InteractionComponent>(final(world).components),
        final(world).components.model::<InteractionComponent>() == change_all(
            old(world).components.model::<InteractionComponent>(),
            seq![entity_id] + gathered(old(world).components, entity_id),
            InteractionChange::Deactivate,
        ),
        final(world).resources == old(world).resources,
        final(world).entities == old(world).entities,
        final(world).next_entity_index == old(world).next_entity_index,
        final(world).free_entity_indices == old(world).free_entity_indices,
        final(world).entity_generations == old(world).entity_generations,
{
    let children = gather_all_children(world, entity_id);
    change_interaction(world, entity_id, InteractionChange::Deactivate);
    change_interaction_all(world, children.as_slice(), InteractionChange::Deactivate);
    proof {
        let m0 = old(world).components.model::<InteractionComponent>();
        let all = seq![entity_id] + children@;
        lemma_change_all_prepend(m0, entity_id, children@, InteractionChange::Deactivate);
        InteractionComponent::lemma_slot(old(world).components, InteractionComponent::spec_slot(world.components));
    }
}

/// Applying to `e` first and then to `es` is applying to `[e] + es`.
pub proof fn lemma_change_all_prepend(
    m: StorageModel<InteractionComponent>,
    e: EntityId,
    es: Seq<EntityId>,
    op: InteractionChange,
)
    ensures
        change_all(change_one(m, e, op), es, op) == change_all(m, seq![e] + es, op),
    decreases es.len(),
{
    let all = seq![e] + es;
    if es.len() == 0 {
        assert(all =~= seq![e]);
        assert(all.drop_last() =~= Seq::<EntityId>::empty());
        assert(change_all(m, all, op) == change_one(change_all(m, all.drop_last(), op), all.last(), op));
        assert(change_all(m, all.drop_last(), op) == m);
    } else {
        lemma_change_all_prepend(m, e, es.drop_last(), op);
        assert(all.drop_last() =~= seq![e] + es.drop_last());
        assert(all.last() == es.last());
        assert(change_all(m, all, op) == change_one(change_all(m, all.drop_last(), op), all.last(), op));
    }
}

} // verus!
