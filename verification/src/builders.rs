//! What the modal and button builders decide: which layers exist, in what
//! order, at which z adjustment, under which container, and what component
//! the modal starts with. Making each layer (its sizes, colours and GPU
//! resources) is the caller's part: it creates one entity per planned slot
//! and hands the identifiers back.
use vstd::prelude::*;
use crate::animation::AnimationWhen;
use crate::components::{IdentityComponent, ModalComponent};
use crate::entity::{ComponentType, EntityId};
use crate::hierarchy::{gather_all_children_with_types, gathered, is_tree_below};
use crate::world::World;

verus! {

/// `s` with `p` appended when `present`.
pub open spec fn push_if<P>(s: Seq<P>, present: bool, p: P) -> Seq<P> {
    if present {
        s.push(p)
    } else {
        s
    }
}

fn push_part<P>(v: &mut Vec<P>, present: bool, p: P)
    ensures
        final(v)@ == push_if(old(v)@, present, p),
{
    if present {
        v.push(p);
    }
}

/// Which container a layer hangs under.
#[derive(Debug, Clone, Copy, PartialEq, Eq, Structural)]
pub enum LayerParent {
    /// The outer container: the modal's parent container, or the button container.
    Outer,
    /// The inner container: the modal container, or the button's content container.
    Inner,
}

/// The entity a layer hangs under.
pub open spec fn parent_entity(p: LayerParent, outer: EntityId, inner: EntityId) -> EntityId {
    match p {
        LayerParent::Outer => outer,
        LayerParent::Inner => inner,
    }
}

/// The layers a modal builder can make, in the order it makes them.
#[derive(Debug, Clone, Copy, PartialEq, Eq, Structural)]
pub enum ModalPart {
    BackdropColor,
    BackdropGradient,
    BackdropImage,
    BackdropFrostedGlass,
    ModalContainer,
    BackgroundColor,
    BackgroundGradient,
    BackgroundFrostedGlass,
    BackgroundImage,
}

/// Which optional layers a modal has, and whether a click on its backdrop closes it.
#[derive(Debug, Clone, Copy)]
pub struct ModalOptions {
    pub backdrop_color: bool,
    pub backdrop_gradient: bool,
    pub backdrop_image: bool,
    pub backdrop_frosted_glass: bool,
    pub background_color: bool,
    pub background_gradient: bool,
    pub background_frosted_glass: bool,
    pub background_image: bool,
    pub dismiss_with_backdrop_click: bool,
}

/// One layer of a modal: what it is, its z adjustment among its siblings,
/// the container it hangs under, whether it draws, and whether a click on
/// it closes the modal.
#[derive(Debug, Clone, Copy, PartialEq, Eq, Structural)]
pub struct ModalSlot {
    pub part: ModalPart,
    pub z_index: i32,
    pub parent: LayerParent,
    pub renderable: bool,
    pub closes_modal_on_click: bool,
}

/// The layers of a modal in the order they are made, the z adjustment of
/// the close button, and whether any of its animations plays on entry or exit.
pub struct ModalPlan {
    pub slots: Vec<ModalSlot>,
    pub close_button_z_index: i32,
    pub has_entry_animation: bool,
    pub has_exit_animation: bool,
}

/// The backdrop layers present: colour, gradient, image, frosted glass.
pub open spec fn backdrop_parts(o: ModalOptions) -> Seq<ModalPart> {
    push_if(
        push_if(
            push_if(push_if(Seq::empty(), o.backdrop_color, ModalPart::BackdropColor), o.backdrop_gradient, ModalPart::BackdropGradient),
            o.backdrop_image,
            ModalPart::BackdropImage,
        ),
        o.backdrop_frosted_glass,
        ModalPart::BackdropFrostedGlass,
    )
}

/// The background layers present: colour, gradient, frosted glass, image.
pub open spec fn background_parts(o: ModalOptions) -> Seq<ModalPart> {
    push_if(
        push_if(
            push_if(
                push_if(Seq::empty(), o.background_color, ModalPart::BackgroundColor),
                o.background_gradient,
                ModalPart::BackgroundGradient,
            ),
            o.background_frosted_glass,
            ModalPart::BackgroundFrostedGlass,
        ),
        o.background_image,
        ModalPart::BackgroundImage,
    )
}

/// The `k`-th layer drawn from `parts`, starting at z adjustment `base`.
pub open spec fn layer(parts: Seq<ModalPart>, k: int, base: int, parent: LayerParent, closes: bool) -> ModalSlot {
    ModalSlot { part: parts[k], z_index: (base + k) as i32, parent, renderable: true, closes_modal_on_click: closes }
}

/// The layers of a modal: the backdrops under the parent container at z
/// 0, 1, ...; then the modal container, which draws nothing, at the next z;
/// then the backgrounds under the modal container from that same z on.
/// Only backdrops close the modal on a click, and only when dismissing by
/// backdrop click is on.
pub open spec fn modal_slots(o: ModalOptions) -> Seq<ModalSlot> {
    let b = backdrop_parts(o);
    let g = background_parts(o);
    Seq::new(b.len(), |k: int| layer(b, k, 0, LayerParent::Outer, o.dismiss_with_backdrop_click))
        + seq![
        ModalSlot {
            part: ModalPart::ModalContainer,
            z_index: b.len() as i32,
            parent: LayerParent::Outer,
            renderable: false,
            closes_modal_on_click: false,
        },
    ] + Seq::new(g.len(), |k: int| layer(g, k, b.len() as int, LayerParent::Inner, false))
}

/// Append the layers for `parts`, starting at z adjustment `base`.
fn place_layers(slots: &mut Vec<ModalSlot>, parts: &Vec<ModalPart>, base: i32, parent: LayerParent, closes: bool)
    requires
        parts@.len() <= 4,
        0 <= base <= 4,
    ensures
        final(slots)@ == old(slots)@ + Seq::new(parts@.len(), |k: int| layer(parts@, k, base as int, parent, closes)),
{
    let mut i: usize = 0;
    while i < parts.len()
        invariant
            i <= parts@.len() <= 4,
            0 <= base <= 4,
            slots@ == old(slots)@ + Seq::new(i as nat, |k: int| layer(parts@, k, base as int, parent, closes)),
        decreases parts@.len() - i,
    {
        let z: i32 = base + i as i32;
        slots.push(ModalSlot { part: parts[i], z_index: z, parent, renderable: true, closes_modal_on_click: closes });
        proof {
            assert(slots@ =~= old(slots)@ + Seq::new((i + 1) as nat, |k: int| layer(parts@, k, base as int, parent, closes)));
        }
        i += 1;
    }
}

/// Whether any animation plays when `when` does.
fn any_when(whens: &Vec<AnimationWhen>, when: AnimationWhen) -> (r: bool)
    ensures
        r == whens@.contains(when),
{
    let mut i: usize = 0;
    while i < whens.len()
        invariant
            i <= whens@.len(),
            forall|j: int| 0 <= j < i ==> whens@[j] != when,
        decreases whens@.len() - i,
    {
        if whens[i] == when {
            assert(whens@[i as int] == when);
            return true;
        }
        i += 1;
    }
    false
}

fn backdrop_list(o: ModalOptions) -> (r: Vec<ModalPart>)
    ensures
        r@ == backdrop_parts(o),
        r@.len() <= 4,
{
    let mut v: Vec<ModalPart> = Vec::new();
    push_part(&mut v, o.backdrop_color, ModalPart::BackdropColor);
    push_part(&mut v, o.backdrop_gradient, ModalPart::BackdropGradient);
    push_part(&mut v, o.backdrop_image, ModalPart::BackdropImage);
    push_part(&mut v, o.backdrop_frosted_glass, ModalPart::BackdropFrostedGlass);
    v
}

fn background_list(o: ModalOptions) -> (r: Vec<ModalPart>)
    ensures
        r@ == background_parts(o),
        r@.len() <= 4,
{
    let mut v: Vec<ModalPart> = Vec::new();
    push_part(&mut v, o.background_color, ModalPart::BackgroundColor);
    push_part(&mut v, o.background_gradient, ModalPart::BackgroundGradient);
    push_part(&mut v, o.background_frosted_glass, ModalPart::BackgroundFrostedGlass);
    push_part(&mut v, o.background_image, ModalPart::BackgroundImage);
    v
}

/// Plan a modal from the layers it has and the triggers of all its
/// animations (its own and its backdrop's).
pub fn plan_modal(o: ModalOptions, whens: &Vec<AnimationWhen>) -> (r: ModalPlan)
    ensures
        r.slots@ == modal_slots(o),
        r.close_button_z_index == backdrop_parts(o).len() + background_parts(o).len(),
        r.has_entry_animation == whens@.contains(AnimationWhen::Entry),
        r.has_exit_animation == whens@.contains(AnimationWhen::Exit),
{
    let backdrops = backdrop_list(o);
    let backgrounds = background_list(o);
    let nb: i32 = backdrops.len() as i32;
    let ng: i32 = backgrounds.len() as i32;
    let mut slots: Vec<ModalSlot> = Vec::new();
    place_layers(&mut slots, &backdrops, 0, LayerParent::Outer, o.dismiss_with_backdrop_click);
    slots.push(
        ModalSlot {
            part: ModalPart::ModalContainer,
            z_index: nb,
            parent: LayerParent::Outer,
            renderable: false,
            closes_modal_on_click: false,
        },
    );
    place_layers(&mut slots, &backgrounds, nb, LayerParent::Inner, false);
    proof {
        let b = backdrop_parts(o);
        let g = background_parts(o);
        let s0 = Seq::<ModalSlot>::empty() + Seq::new(b.len(), |k: int| layer(b, k, 0, LayerParent::Outer, o.dismiss_with_backdrop_click));
        assert(s0 =~= Seq::new(b.len(), |k: int| layer(b, k, 0, LayerParent::Outer, o.dismiss_with_backdrop_click)));
        assert(slots@ =~= modal_slots(o));
    }
    ModalPlan {
        slots,
        close_button_z_index: nb + ng,
        has_entry_animation: any_when(whens, AnimationWhen::Entry),
        has_exit_animation: any_when(whens, AnimationWhen::Exit),
    }
}

/// The ids among the first `n` of `ids` whose slot draws (or does not).
pub open spec fn ids_where(slots: Seq<ModalSlot>, ids: Seq<EntityId>, renderable: bool, n: nat) -> Seq<EntityId>
    decreases n,
{
    if n == 0 {
        Seq::empty()
    } else {
        let prev = ids_where(slots, ids, renderable, (n - 1) as nat);
        if slots[n - 1].renderable == renderable {
            prev.push(ids[n - 1])
        } else {
            prev
        }
    }
}

/// The ids among the first `n` of `ts` whose component type draws (or does not).
pub open spec fn types_where(ts: Seq<(EntityId, ComponentType)>, renderable: bool, n: nat) -> Seq<EntityId>
    decreases n,
{
    if n == 0 {
        Seq::empty()
    } else {
        let prev = types_where(ts, renderable, (n - 1) as nat);
        if !(ts[n - 1].1 is Container) == renderable {
            prev.push(ts[n - 1].0)
        } else {
            prev
        }
    }
}

/// The entities below `root`, in gathering order, each with its component type.
pub open spec fn typed_gathered(c: crate::components::EcsComponents, root: EntityId) -> Seq<(EntityId, ComponentType)> {
    let g = gathered(c, root);
    Seq::new(g.len(), |i: int| (g[i], c.lookup::<IdentityComponent>(g[i]).unwrap().component_type))
}

/// `m` is the component a modal starts with: closed and idle; the drawing
/// layers (in the order made) and then the drawing entities below the close
/// button are its renderable children; the modal container, the close
/// button and the other entities below it are the rest.
pub open spec fn planned_modal(
    m: ModalComponent,
    slots: Seq<ModalSlot>,
    has_entry: bool,
    has_exit: bool,
    ids: Seq<EntityId>,
    close_button: EntityId,
    below_close: Seq<(EntityId, ComponentType)>,
) -> bool {
    &&& m.renderable_children@ == ids_where(slots, ids, true, slots.len()) + types_where(below_close, true, below_close.len())
    &&& m.non_renderable_children@ == ids_where(slots, ids, false, slots.len()).push(close_button) + types_where(
        below_close,
        false,
        below_close.len(),
    )
    &&& !m.is_open && !m.is_opening && !m.is_closing
    &&& m.has_entry_animation == has_entry
    &&& m.has_exit_animation == has_exit
}

/// The modal component for a plan whose slots became `ids`, with
/// `close_button` and the entities below it.
pub fn modal_component(
    plan: &ModalPlan,
    ids: &Vec<EntityId>,
    close_button: EntityId,
    below_close: &Vec<(EntityId, ComponentType)>,
) -> (r: ModalComponent)
    requires
        ids@.len() == plan.slots@.len(),
    ensures
        planned_modal(r, plan.slots@, plan.has_entry_animation, plan.has_exit_animation, ids@, close_button, below_close@),
{
    let mut renderable: Vec<EntityId> = Vec::new();
    let mut other: Vec<EntityId> = Vec::new();
    let mut i: usize = 0;
    while i < ids.len()
        invariant
            i <= ids@.len() == plan.slots@.len(),
            renderable@ == ids_where(plan.slots@, ids@, true, i as nat),
            other@ == ids_where(plan.slots@, ids@, false, i as nat),
        decreases ids@.len() - i,
    {
        if plan.slots[i].renderable {
            renderable.push(ids[i]);
        } else {
            other.push(ids[i]);
        }
        i += 1;
    }
    other.push(close_button);
    let ghost r0 = renderable@;
    let ghost o0 = other@;
    let mut j: usize = 0;
    while j < below_close.len()
        invariant
            j <= below_close@.len(),
            renderable@ == r0 + types_where(below_close@, true, j as nat),
            other@ == o0 + types_where(below_close@, false, j as nat),
        decreases below_close@.len() - j,
    {
        let (e, t) = below_close[j];
        if t.is_renderable() {
            renderable.push(e);
        } else {
            other.push(e);
        }
        proof {
            assert(renderable@ =~= r0 + types_where(below_close@, true, (j + 1) as nat));
            assert(other@ =~= o0 + types_where(below_close@, false, (j + 1) as nat));
        }
        j += 1;
    }
    proof {
        assert(renderable@ =~= ids_where(plan.slots@, ids@, true, plan.slots@.len()) + types_where(below_close@, true, below_close@.len()));
    }
    ModalComponent {
        renderable_children: renderable,
        non_renderable_children: other,
        is_open: false,
        is_opening: false,
        is_closing: false,
        has_entry_animation: plan.has_entry_animation,
        has_exit_animation: plan.has_exit_animation,
    }
}

/// A modal as a builder leaves it is closed and idle, so the first request
/// to open it is accepted.
pub proof fn law_new_modal_can_open(
    m: ModalComponent,
    slots: Seq<ModalSlot>,
    has_entry: bool,
    has_exit: bool,
    ids: Seq<EntityId>,
    close_button: EntityId,
    below_close: Seq<(EntityId, ComponentType)>,
)
    requires
        planned_modal(m, slots, has_entry, has_exit, ids, close_button, below_close),
    ensures
        crate::layout_context::can_open(m),
        !crate::layout_context::can_close(m),
{
}

/// Give the live entity `modal_parent` the component a modal starts with,
/// for a plan whose slots became `ids` and whose close button is
/// `close_button` (the entities below it are read from the world).
pub fn install_modal(world: &mut World, modal_parent: EntityId, plan: &ModalPlan, ids: &Vec<EntityId>, close_button: EntityId)
    requires
        old(world).wf(),
        ids@.len() == plan.slots@.len(),
        old(world).entities@.contains(modal_parent),
        !old(world).components.has::<ModalComponent>(modal_parent),
        modal_parent.index * 2 <= usize::MAX,
        is_tree_below(old(world).components, close_button),
        forall|i: int| 0 <= i < gathered(old(world).components, close_button).len() ==> old(world).components.has::<IdentityComponent>(
            #[trigger] gathered(old(world).components, close_button)[i],
        ),
    ensures
        final(world).wf(),
        exists|m: ModalComponent| {
            &&& planned_modal(
                m,
                plan.slots@,
                plan.has_entry_animation,
                plan.has_exit_animation,
                ids@,
                close_button,
                typed_gathered(old(world).components, close_button),
            )
            &&& final(world).components.model::<ModalComponent>() == old(world).components.model::<ModalComponent>().insert(modal_parent, m).0
            &&& old(world).components.model::<ModalComponent>().insert(modal_parent, m).1
                ==> final(world).components.lookup::<ModalComponent>(modal_parent) == Some(m)
        },
        old(world).components.changes_only::<ModalComponent>(final(world).components),
        final(world).entities == old(world).entities,
        final(world).next_entity_index == old(world).next_entity_index,
        final(world).free_entity_indices == old(world).free_entity_indices,
        final(world).entity_generations == old(world).entity_generations,
        final(world).resources == old(world).resources,
        old(world).ids_wf() ==> final(world).ids_wf(),
{
    let below = gather_all_children_with_types(world, close_button);
    let ghost typed = typed_gathered(world.components, close_button);
    assert(below@ =~= typed);
    let m = modal_component(plan, ids, close_button, &below);
    let ghost mg = m;
    let ghost m0 = world.components.model::<ModalComponent>();
    world.add_component(modal_parent, m);
    proof {
        crate::storage::law_insert_then_lookup(m0, modal_parent, mg, modal_parent);
    }
}

/// The parent-child links a modal's layers need, in the order the builder
/// makes them: each slot's entity under its container (the parent container
/// or the modal container), then the close button under the modal container.
pub open spec fn modal_links(
    slots: Seq<ModalSlot>,
    ids: Seq<EntityId>,
    parent_container: EntityId,
    modal_container: EntityId,
    close_button: EntityId,
) -> Seq<(EntityId, EntityId)> {
    Seq::new(slots.len(), |k: int| (parent_entity(slots[k].parent, parent_container, modal_container), ids[k])).push(
        (modal_container, close_button),
    )
}

/// The links to make, as (parent, child) pairs; `modal_container` is the
/// entity made for the modal-container slot.
pub fn links_for_modal(
    plan: &ModalPlan,
    ids: &Vec<EntityId>,
    parent_container: EntityId,
    modal_container: EntityId,
    close_button: EntityId,
) -> (r: Vec<(EntityId, EntityId)>)
    requires
        ids@.len() == plan.slots@.len(),
    ensures
        r@ == modal_links(plan.slots@, ids@, parent_container, modal_container, close_button),
{
    let mut r: Vec<(EntityId, EntityId)> = Vec::new();
    let mut i: usize = 0;
    while i < ids.len()
        invariant
            i <= ids@.len() == plan.slots@.len(),
            r@ == Seq::new(i as nat, |k: int| (parent_entity(plan.slots@[k].parent, parent_container, modal_container), ids@[k])),
        decreases ids@.len() - i,
    {
        let p = match plan.slots[i].parent {
            LayerParent::Outer => parent_container,
            LayerParent::Inner => modal_container,
        };
        r.push((p, ids[i]));
        proof {
            assert(r@ =~= Seq::new((i + 1) as nat, |k: int| (parent_entity(plan.slots@[k].parent, parent_container, modal_container), ids@[k])));
        }
        i += 1;
    }
    r.push((modal_container, close_button));
    r
}

/// The layers a button builder can make, in the order it makes them.
#[derive(Debug, Clone, Copy, PartialEq, Eq, Structural)]
pub enum ButtonPart {
    BackgroundColor,
    BackgroundGradient,
    BackgroundImage,
    BackgroundFrostedGlass,
    ForegroundImage,
    ForegroundText,
}

/// Which optional parts a button has; padding puts its foreground in a
/// content container.
#[derive(Debug, Clone, Copy)]
pub struct ButtonOptions {
    pub content_padding: bool,
    pub background_color: bool,
    pub background_gradient: bool,
    pub background_image: bool,
    pub background_frosted_glass: bool,
    pub foreground_image: bool,
    pub foreground_text: bool,
}

/// One layer of a button: what it is, its z adjustment and its container.
#[derive(Debug, Clone, Copy, PartialEq, Eq, Structural)]
pub struct ButtonSlot {
    pub part: ButtonPart,
    pub z_index: i32,
    pub parent: LayerParent,
}

/// The z adjustment of the content container, when there is one (it hangs
/// under the button container), and the layers in the order they are made.
pub struct ButtonPlan {
    pub content_container_z_index: Option<i32>,
    pub slots: Vec<ButtonSlot>,
}

/// The parts present: backgrounds (colour, gradient, image, frosted glass),
/// then the foreground image, then the foreground text.
pub open spec fn button_parts(o: ButtonOptions) -> Seq<ButtonPart> {
    let backgrounds = push_if(
        push_if(
            push_if(push_if(Seq::empty(), o.background_color, ButtonPart::BackgroundColor), o.background_gradient, ButtonPart::BackgroundGradient),
            o.background_image,
            ButtonPart::BackgroundImage,
        ),
        o.background_frosted_glass,
        ButtonPart::BackgroundFrostedGlass,
    );
    push_if(push_if(backgrounds, o.foreground_image, ButtonPart::ForegroundImage), o.foreground_text, ButtonPart::ForegroundText)
}

/// The foreground goes in the content container exactly when there is one;
/// everything else hangs under the button container.
pub open spec fn button_part_parent(o: ButtonOptions, p: ButtonPart) -> LayerParent {
    if o.content_padding && (p == ButtonPart::ForegroundImage || p == ButtonPart::ForegroundText) {
        LayerParent::Inner
    } else {
        LayerParent::Outer
    }
}

/// The layers of a button, at z adjustments 1, 2, 3, ... in order.
pub open spec fn button_slots(o: ButtonOptions) -> Seq<ButtonSlot> {
    let parts = button_parts(o);
    Seq::new(parts.len(), |k: int| ButtonSlot { part: parts[k], z_index: (k + 1) as i32, parent: button_part_parent(o, parts[k]) })
}

fn button_list(o: ButtonOptions) -> (r: Vec<ButtonPart>)
    ensures
        r@ == button_parts(o),
        r@.len() <= 6,
{
    let mut v: Vec<ButtonPart> = Vec::new();
    push_part(&mut v, o.background_color, ButtonPart::BackgroundColor);
    push_part(&mut v, o.background_gradient, ButtonPart::BackgroundGradient);
    push_part(&mut v, o.background_image, ButtonPart::BackgroundImage);
    push_part(&mut v, o.background_frosted_glass, ButtonPart::BackgroundFrostedGlass);
    push_part(&mut v, o.foreground_image, ButtonPart::ForegroundImage);
    push_part(&mut v, o.foreground_text, ButtonPart::ForegroundText);
    v
}

/// Plan a button from the parts it has.
pub fn plan_button(o: ButtonOptions) -> (r: ButtonPlan)
    ensures
        r.slots@ == button_slots(o),
        r.content_container_z_index == (if o.content_padding {
            Some(10i32)
        } else {
            None
        }),
{
    let parts = button_list(o);
    let mut slots: Vec<ButtonSlot> = Vec::new();
    let mut i: usize = 0;
    while i < parts.len()
        invariant
            i <= parts@.len() <= 6,
            parts@ == button_parts(o),
            slots@ == Seq::new(i as nat, |k: int| ButtonSlot {
                part: parts@[k],
                z_index: (k + 1) as i32,
                parent: button_part_parent(o, parts@[k]),
            }),
        decreases parts@.len() - i,
    {
        let part = parts[i];
        let parent = if o.content_padding && (part == ButtonPart::ForegroundImage || part == ButtonPart::ForegroundText) {
            LayerParent::Inner
        } else {
            LayerParent::Outer
        };
        let z: i32 = i as i32 + 1;
        slots.push(ButtonSlot { part, z_index: z, parent });
        proof {
            assert(slots@ =~= Seq::new((i + 1) as nat, |k: int| ButtonSlot {
                part: parts@[k],
                z_index: (k + 1) as i32,
                parent: button_part_parent(o, parts@[k]),
            }));
        }
        i += 1;
    }
    ButtonPlan { content_container_z_index: if o.content_padding { Some(10) } else { None }, slots }
}

/// The parent-child links a button's parts need, in the order the builder
/// makes them: the content container (if any) under the button container,
/// then each slot's entity under its container.
pub open spec fn button_links(
    slots: Seq<ButtonSlot>,
    ids: Seq<EntityId>,
    button_container: EntityId,
    content_container: Option<EntityId>,
) -> Seq<(EntityId, EntityId)> {
    let inner = match content_container {
        Some(c) => c,
        None => button_container,
    };
    let first = match content_container {
        Some(c) => seq![(button_container, c)],
        None => Seq::empty(),
    };
    first + Seq::new(slots.len(), |k: int| (parent_entity(slots[k].parent, button_container, inner), ids[k]))
}

/// The links to make, as (parent, child) pairs, for a plan whose slots
/// became `ids`.
pub fn links_for_button(
    plan: &ButtonPlan,
    ids: &Vec<EntityId>,
    button_container: EntityId,
    content_container: Option<EntityId>,
) -> (r: Vec<(EntityId, EntityId)>)
    requires
        ids@.len() == plan.slots@.len(),
    ensures
        r@ == button_links(plan.slots@, ids@, button_container, content_container),
{
    let inner = match content_container {
        Some(c) => c,
        None => button_container,
    };
    let mut r: Vec<(EntityId, EntityId)> = Vec::new();
    match content_container {
        Some(c) => r.push((button_container, c)),
        None => {},
    }
    let ghost first = r@;
    let mut i: usize = 0;
    while i < ids.len()
        invariant
            i <= ids@.len() == plan.slots@.len(),
            r@ == first + Seq::new(i as nat, |k: int| (parent_entity(plan.slots@[k].parent, button_container, inner), ids@[k])),
        decreases ids@.len() - i,
    {
        let p = match plan.slots[i].parent {
            LayerParent::Outer => button_container,
            LayerParent::Inner => inner,
        };
        r.push((p, ids[i]));
        proof {
            assert(r@ =~= first + Seq::new((i + 1) as nat, |k: int| (parent_entity(plan.slots@[k].parent, button_container, inner), ids@[k])));
        }
        i += 1;
    }
    proof {
        assert(r@ =~= button_links(plan.slots@, ids@, button_container, content_container));
    }
    r
}

} // verus!
