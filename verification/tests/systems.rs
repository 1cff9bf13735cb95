use frostify::components::{HierarchyComponent, InteractionComponent, ModalComponent};
use frostify::entity::{ComponentType, EntityId, NamedRef};
use frostify::hierarchy::{
    change_interaction, change_interaction_all, deactivate_component_and_children,
    gather_all_children, gather_all_children_with_types, InteractionChange,
};
use frostify::resources::{
    EntryExitAnimationStateResource, NamedRefsResource, RenderGroupsResource, RenderOrderResource,
    RequestReLayoutResource,
};
use frostify::systems::{
    HoverStateResetSystem, ModalAnimationObserverSystem, ModalToggleSystem, RenderPrepareSystem,
};
use frostify::world::{ResourceManager, World};
use frostify::zindex::ZIndexManager;

fn interaction(active: bool, hovered: bool) -> InteractionComponent {
    InteractionComponent {
        is_clickable: true,
        is_draggable: false,
        is_hoverable: true,
        is_hovered: hovered,
        click_event: None,
        drag_event: None,
        is_active: active,
        is_just_activated: false,
        is_just_deactivated: false,
        is_event_bubble_boundary: false,
    }
}

fn node(w: &mut World, name: &str, ty: ComponentType, parent: Option<EntityId>) -> EntityId {
    let e = w.create_entity(name.to_string(), ty);
    w.add_component(e, HierarchyComponent { parent, children: vec![] });
    w.add_component(e, interaction(true, false));
    if let Some(p) = parent {
        w.components.get_component_mut::<HierarchyComponent>(p).unwrap().children.push(e);
    }
    e
}

/// root -> [a, b], a -> [c]
fn small_tree() -> (World, [EntityId; 4]) {
    let mut w = World::new();
    let root = node(&mut w, "root", ComponentType::Container, None);
    let a = node(&mut w, "a", ComponentType::Container, Some(root));
    let b = node(&mut w, "b", ComponentType::Text, Some(root));
    let c = node(&mut w, "c", ComponentType::Image, Some(a));
    (w, [root, a, b, c])
}

#[test]
fn gather_children_pops_last_pushed_first() {
    let (w, [root, a, b, c]) = small_tree();
    assert_eq!(gather_all_children(&w, root), vec![a, b, c]);
    assert_eq!(gather_all_children(&w, a), vec![c]);
    assert!(gather_all_children(&w, c).is_empty());
    assert_eq!(
        gather_all_children_with_types(&w, root),
        vec![(a, ComponentType::Container), (b, ComponentType::Text), (c, ComponentType::Image)]
    );
}

#[test]
fn deactivate_reaches_every_descendant() {
    let (mut w, [root, a, b, c]) = small_tree();
    deactivate_component_and_children(&mut w, a);
    let active = |w: &World, e| w.components.get_component::<InteractionComponent>(e).unwrap().is_active;
    assert!(active(&w, root));
    assert!(!active(&w, a));
    assert!(active(&w, b));
    assert!(!active(&w, c));
}

#[test]
fn change_interaction_reports_missing_component() {
    let (mut w, [root, a, _b, _c]) = small_tree();
    assert!(change_interaction(&mut w, a, InteractionChange::PrepareEntry));
    let ia = w.components.get_component::<InteractionComponent>(a).unwrap();
    assert!(ia.is_active && ia.is_just_activated && !ia.is_just_deactivated);
    let ghost = EntityId::new(40, 0);
    assert!(!change_interaction(&mut w, ghost, InteractionChange::Activate));
    change_interaction_all(&mut w, &[root, a], InteractionChange::PrepareExit);
    let ir = w.components.get_component::<InteractionComponent>(root).unwrap();
    assert!(ir.is_active && !ir.is_just_activated && ir.is_just_deactivated);
}

#[test]
fn hover_reset_clears_every_hover_flag() {
    let (mut w, [root, a, b, c]) = small_tree();
    for e in [root, b, c] {
        w.components.get_component_mut::<InteractionComponent>(e).unwrap().is_hovered = true;
    }
    w.run_system(HoverStateResetSystem);
    for e in [root, a, b, c] {
        let i = w.components.get_component::<InteractionComponent>(e).unwrap();
        assert!(!i.is_hovered);
        assert!(i.is_active);
        assert!(i.is_clickable);
    }
}

#[test]
fn render_prepare_groups_runs_of_same_pipeline() {
    let mut w = World::new();
    w.initialize_resettable_resources();
    let t1 = node(&mut w, "t1", ComponentType::Text, None);
    let g1 = node(&mut w, "g1", ComponentType::FrostedGlass, None);
    let g2 = node(&mut w, "g2", ComponentType::FrostedGlass, None);
    let box1 = node(&mut w, "box", ComponentType::Container, None);
    let off = node(&mut w, "off", ComponentType::Image, None);
    let i1 = node(&mut w, "i1", ComponentType::Image, None);
    w.components.get_component_mut::<InteractionComponent>(off).unwrap().is_active = false;
    w.resources.render_order = Some(RenderOrderResource { render_order: vec![t1, g1, box1, g2, off, i1] });
    w.run_system(RenderPrepareSystem);
    let groups = &w.resources.render_groups.as_ref().unwrap().groups;
    assert_eq!(groups.len(), 3);
    assert_eq!(groups[0].entity_ids, vec![t1]);
    assert!(!groups[0].is_frosted_glass);
    assert_eq!(groups[1].entity_ids, vec![g1, g2]);
    assert!(groups[1].is_frosted_glass);
    assert_eq!(groups[2].entity_ids, vec![i1]);
    assert!(!groups[2].is_frosted_glass);
}

#[test]
fn render_prepare_empty_order_gives_no_group() {
    let mut w = World::new();
    w.initialize_resettable_resources();
    w.run_system(RenderPrepareSystem);
    assert!(w.resources.get_resource::<RenderGroupsResource>().unwrap().groups.is_empty());
}

fn modal_world(entry: bool, exit: bool) -> (World, EntityId, EntityId, EntityId) {
    let mut w = World::new();
    w.initialize_resettable_resources();
    let modal = node(&mut w, "modal", ComponentType::Container, None);
    let shown = node(&mut w, "shown", ComponentType::Text, Some(modal));
    let hidden = node(&mut w, "hidden", ComponentType::Container, Some(modal));
    for e in [modal, shown, hidden] {
        w.components.get_component_mut::<InteractionComponent>(e).unwrap().is_active = false;
    }
    w.add_component(
        modal,
        ModalComponent {
            renderable_children: vec![shown],
            non_renderable_children: vec![hidden],
            is_open: false,
            is_opening: false,
            is_closing: false,
            has_entry_animation: entry,
            has_exit_animation: exit,
        },
    );
    let mut refs = NamedRefsResource::default();
    refs.set_entity_id(NamedRef::SettingsModal, modal);
    w.add_resource(refs);
    (w, modal, shown, hidden)
}

fn modal_state(w: &World, m: EntityId) -> (bool, bool, bool) {
    let mc = w.components.get_component::<ModalComponent>(m).unwrap();
    (mc.is_open, mc.is_opening, mc.is_closing)
}

#[test]
fn open_and_close_modal_without_animations() {
    let (mut w, modal, shown, hidden) = modal_world(false, false);
    w.run_system(ModalToggleSystem { activate: true, named_ref: NamedRef::SettingsModal });
    assert_eq!(modal_state(&w, modal), (true, false, false));
    for e in [modal, shown, hidden] {
        let i = w.components.get_component::<InteractionComponent>(e).unwrap();
        assert!(i.is_active && !i.is_just_activated);
    }
    assert!(w.resources.get_resource::<RequestReLayoutResource>().unwrap().request_relayout);
    w.run_system(ModalToggleSystem { activate: false, named_ref: NamedRef::SettingsModal });
    assert_eq!(modal_state(&w, modal), (false, false, false));
    for e in [modal, shown, hidden] {
        assert!(!w.components.get_component::<InteractionComponent>(e).unwrap().is_active);
    }
}

#[test]
fn opening_with_entry_animation_settles_once_children_finish() {
    let (mut w, modal, shown, _hidden) = modal_world(true, false);
    w.run_system(ModalToggleSystem { activate: true, named_ref: NamedRef::SettingsModal });
    assert_eq!(modal_state(&w, modal), (true, true, false));
    assert!(w.components.get_component::<InteractionComponent>(shown).unwrap().is_just_activated);
    w.run_system(ModalAnimationObserverSystem);
    assert_eq!(modal_state(&w, modal), (true, true, false));
    w.resources
        .get_resource_mut::<EntryExitAnimationStateResource>()
        .unwrap()
        .entry_animation_state
        .insert(shown, true);
    w.run_system(ModalAnimationObserverSystem);
    assert_eq!(modal_state(&w, modal), (true, false, false));
    let st = w.resources.get_resource::<EntryExitAnimationStateResource>().unwrap();
    assert_eq!(st.entry_animation_state.get(shown), None);
}

#[test]
fn closing_with_exit_animation_settles_once_children_finish() {
    let (mut w, modal, shown, _hidden) = modal_world(false, true);
    w.run_system(ModalToggleSystem { activate: true, named_ref: NamedRef::SettingsModal });
    w.run_system(ModalToggleSystem { activate: false, named_ref: NamedRef::SettingsModal });
    assert_eq!(modal_state(&w, modal), (true, false, true));
    let i = w.components.get_component::<InteractionComponent>(shown).unwrap();
    assert!(i.is_active && i.is_just_deactivated);
    w.resources
        .get_resource_mut::<EntryExitAnimationStateResource>()
        .unwrap()
        .exit_animation_state
        .insert(shown, true);
    w.run_system(ModalAnimationObserverSystem);
    assert_eq!(modal_state(&w, modal), (false, false, false));
    let st = w.resources.get_resource::<EntryExitAnimationStateResource>().unwrap();
    assert_eq!(st.exit_animation_state.get(shown), None);
}

fn id(i: u32) -> EntityId {
    EntityId::new(i, 0)
}

#[test]
fn render_order_follows_registration_without_adjustments() {
    let mut z = ZIndexManager::new();
    z.register_component(id(0), None);
    z.register_component(id(1), Some(id(0)));
    z.register_component(id(2), Some(id(0)));
    z.register_component(id(3), Some(id(1)));
    z.set_root_id(id(0));
    assert_eq!(z.generate_render_order(), vec![id(0), id(1), id(3), id(2)]);
}

#[test]
fn adjustment_moves_a_sibling_and_its_subtree() {
    let mut z = ZIndexManager::new();
    z.register_component(id(0), None);
    z.register_component(id(1), Some(id(0)));
    z.register_component(id(2), Some(id(0)));
    z.register_component(id(3), Some(id(1)));
    z.set_root_id(id(0));
    z.set_adjustment(id(2), -5);
    assert_eq!(z.generate_render_order(), vec![id(0), id(2), id(1), id(3)]);
    z.set_adjustment(id(2), 0);
    z.set_adjustment(id(1), 3);
    assert_eq!(z.generate_render_order(), vec![id(0), id(2), id(1), id(3)]);
}

#[test]
fn clear_forgets_registrations() {
    let mut z = ZIndexManager::new();
    z.register_component(id(0), None);
    z.set_root_id(id(0));
    assert_eq!(z.generate_render_order(), vec![id(0)]);
    z.clear();
    assert!(!z.is_registered(id(0)));
    z.register_component(id(0), None);
    z.set_root_id(id(0));
    assert_eq!(z.generate_render_order(), vec![id(0)]);
}

#[test]
fn cycle_detection() {
    let mut z = ZIndexManager::new();
    z.register_component(id(0), None);
    z.register_component(id(1), Some(id(0)));
    z.register_component(id(2), Some(id(1)));
    assert!(z.is_registered(id(2)));
    assert!(!z.is_registered(id(3)));
    assert!(z.would_create_cycle(id(0), id(2)));
    assert!(z.would_create_cycle(id(1), id(1)));
    assert!(!z.would_create_cycle(id(3), id(2)));
    assert!(!z.would_create_cycle(id(2), id(0)));
}
