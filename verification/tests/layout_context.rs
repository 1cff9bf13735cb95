use frostify::components::{HierarchyComponent, InteractionComponent, ModalComponent};
use frostify::entity::{ComponentType, EntityId, NamedRef};
use frostify::layout_context::LayoutContext;
use frostify::resources::{NamedRefsResource, RequestReLayoutResource};
use frostify::world::ResourceManager;

fn flags(active: bool) -> InteractionComponent {
    InteractionComponent {
        is_clickable: false,
        is_draggable: false,
        is_hoverable: false,
        is_hovered: false,
        click_event: None,
        drag_event: None,
        is_active: active,
        is_just_activated: false,
        is_just_deactivated: false,
        is_event_bubble_boundary: false,
    }
}

fn spawn(ctx: &mut LayoutContext, name: &str, active: bool) -> EntityId {
    let e = ctx.world.create_entity(name.to_string(), ComponentType::Container);
    ctx.world.add_component(e, HierarchyComponent { parent: None, children: vec![] });
    ctx.world.add_component(e, flags(active));
    e
}

fn hierarchy(ctx: &LayoutContext, e: EntityId) -> (Option<EntityId>, Vec<EntityId>) {
    let h = ctx.world.components.get_component::<HierarchyComponent>(e).unwrap();
    (h.parent, h.children.clone())
}

fn active(ctx: &LayoutContext, e: EntityId) -> bool {
    ctx.world.components.get_component::<InteractionComponent>(e).unwrap().is_active
}

#[test]
fn add_child_links_both_sides_and_registers_z_index() {
    let mut ctx = LayoutContext::default();
    let root = spawn(&mut ctx, "root", true);
    let a = spawn(&mut ctx, "a", true);
    let b = spawn(&mut ctx, "b", true);
    ctx.z_index_manager.register_component(root, None);
    ctx.add_child_to_parent(root, a);
    ctx.add_child_to_parent(root, b);
    assert_eq!(hierarchy(&ctx, a), (Some(root), vec![]));
    assert_eq!(hierarchy(&ctx, root), (None, vec![a, b]));
    assert!(active(&ctx, a));
    ctx.find_root_component();
    assert_eq!(ctx.root_component_id, Some(root));
    assert_eq!(ctx.z_index_manager.generate_render_order(), vec![root, a, b]);
}

#[test]
fn child_of_inactive_parent_is_deactivated() {
    let mut ctx = LayoutContext::default();
    let root = spawn(&mut ctx, "root", false);
    let a = spawn(&mut ctx, "a", true);
    ctx.z_index_manager.register_component(root, None);
    ctx.add_child_to_parent(root, a);
    assert!(!active(&ctx, a));
    assert!(!active(&ctx, root));
}

#[test]
fn clear_resets_world_and_z_order() {
    let mut ctx = LayoutContext::default();
    let root = spawn(&mut ctx, "root", true);
    ctx.z_index_manager.register_component(root, None);
    ctx.clear();
    assert!(ctx.world.is_empty());
    assert!(!ctx.z_index_manager.is_registered(root));
}

fn modal_ctx() -> (LayoutContext, EntityId, EntityId) {
    let mut ctx = LayoutContext::default();
    ctx.world.initialize_resettable_resources();
    let modal = spawn(&mut ctx, "modal", false);
    let child = spawn(&mut ctx, "child", false);
    ctx.world.add_component(
        modal,
        ModalComponent {
            renderable_children: vec![child],
            non_renderable_children: vec![],
            is_open: false,
            is_opening: false,
            is_closing: false,
            has_entry_animation: false,
            has_exit_animation: false,
        },
    );
    let mut refs = NamedRefsResource::default();
    refs.set_entity_id(NamedRef::SettingsModal, modal);
    ctx.world.add_resource(refs);
    (ctx, modal, child)
}

fn is_open(ctx: &LayoutContext, m: EntityId) -> bool {
    ctx.world.components.get_component::<ModalComponent>(m).unwrap().is_open
}

#[test]
fn open_then_close_modal() {
    let (mut ctx, modal, child) = modal_ctx();
    ctx.close_modal(NamedRef::SettingsModal);
    assert!(!is_open(&ctx, modal));
    assert!(!ctx.world.resources.get_resource::<RequestReLayoutResource>().unwrap().request_relayout);
    ctx.open_modal(NamedRef::SettingsModal);
    assert!(is_open(&ctx, modal));
    assert!(active(&ctx, child));
    assert!(ctx.world.resources.get_resource::<RequestReLayoutResource>().unwrap().request_relayout);
    ctx.close_modal(NamedRef::SettingsModal);
    assert!(!is_open(&ctx, modal));
    assert!(!active(&ctx, child));
}

#[test]
fn opening_an_open_modal_changes_nothing() {
    let (mut ctx, modal, child) = modal_ctx();
    ctx.open_modal(NamedRef::SettingsModal);
    ctx.world.components.get_component_mut::<InteractionComponent>(child).unwrap().is_active = false;
    ctx.open_modal(NamedRef::SettingsModal);
    assert!(is_open(&ctx, modal));
    assert!(!active(&ctx, child));
}
