use frostify::activation::{ComponentActivationSystem, ComponentHoverResetSystem};
use frostify::animation::AnimationWhen;
use frostify::builders::{
    install_modal, links_for_button, links_for_modal, modal_component, plan_button, plan_modal,
    ButtonOptions, ButtonPart, LayerParent, ModalOptions, ModalPart,
};
use frostify::components::{HierarchyComponent, InteractionComponent, ModalComponent};
use frostify::entity::{ComponentType, EntityId};
use frostify::resources::RequestReLayoutResource;
use frostify::world::World;
use frostify::zindex::ZIndexManager;

fn id(i: u32) -> EntityId {
    EntityId::new(i, 0)
}

fn modal_options() -> ModalOptions {
    ModalOptions {
        backdrop_color: true,
        backdrop_gradient: false,
        backdrop_image: false,
        backdrop_frosted_glass: true,
        background_color: true,
        background_gradient: false,
        background_frosted_glass: false,
        background_image: true,
        dismiss_with_backdrop_click: true,
    }
}

#[test]
fn modal_plan_orders_layers_and_z() {
    let plan = plan_modal(modal_options(), &vec![AnimationWhen::Hover, AnimationWhen::Entry]);
    let parts: Vec<ModalPart> = plan.slots.iter().map(|s| s.part).collect();
    assert_eq!(
        parts,
        vec![
            ModalPart::BackdropColor,
            ModalPart::BackdropFrostedGlass,
            ModalPart::ModalContainer,
            ModalPart::BackgroundColor,
            ModalPart::BackgroundImage,
        ]
    );
    let z: Vec<i32> = plan.slots.iter().map(|s| s.z_index).collect();
    assert_eq!(z, vec![0, 1, 2, 2, 3]);
    let renderable: Vec<bool> = plan.slots.iter().map(|s| s.renderable).collect();
    assert_eq!(renderable, vec![true, true, false, true, true]);
    let closes: Vec<bool> = plan.slots.iter().map(|s| s.closes_modal_on_click).collect();
    assert_eq!(closes, vec![true, true, false, false, false]);
    let parents: Vec<LayerParent> = plan.slots.iter().map(|s| s.parent).collect();
    assert_eq!(
        parents,
        vec![LayerParent::Outer, LayerParent::Outer, LayerParent::Outer, LayerParent::Inner, LayerParent::Inner]
    );
    assert_eq!(plan.close_button_z_index, 4);
    assert!(plan.has_entry_animation);
    assert!(!plan.has_exit_animation);
}

#[test]
fn modal_plan_without_dismiss_or_layers() {
    let o = ModalOptions {
        backdrop_color: false,
        backdrop_gradient: true,
        backdrop_image: false,
        backdrop_frosted_glass: false,
        background_color: false,
        background_gradient: false,
        background_frosted_glass: false,
        background_image: false,
        dismiss_with_backdrop_click: false,
    };
    let plan = plan_modal(o, &vec![AnimationWhen::Exit]);
    assert_eq!(plan.slots.len(), 2);
    assert!(!plan.slots[0].closes_modal_on_click);
    assert_eq!(plan.slots[1].part, ModalPart::ModalContainer);
    assert_eq!(plan.slots[1].z_index, 1);
    assert_eq!(plan.close_button_z_index, 1);
    assert!(!plan.has_entry_animation);
    assert!(plan.has_exit_animation);
}

#[test]
fn modal_component_splits_children() {
    let plan = plan_modal(modal_options(), &vec![]);
    let ids = vec![id(1), id(2), id(3), id(4), id(5)];
    let below = vec![(id(7), ComponentType::Container), (id(8), ComponentType::Image)];
    let m = modal_component(&plan, &ids, id(6), &below);
    assert_eq!(m.renderable_children, vec![id(1), id(2), id(4), id(5), id(8)]);
    assert_eq!(m.non_renderable_children, vec![id(3), id(6), id(7)]);
    assert!(!m.is_open && !m.is_opening && !m.is_closing);
    assert!(!m.has_entry_animation && !m.has_exit_animation);
}

#[test]
fn modal_links_follow_slots() {
    let plan = plan_modal(modal_options(), &vec![]);
    let ids = vec![id(1), id(2), id(3), id(4), id(5)];
    let links = links_for_modal(&plan, &ids, id(0), id(3), id(6));
    assert_eq!(
        links,
        vec![(id(0), id(1)), (id(0), id(2)), (id(0), id(3)), (id(3), id(4)), (id(3), id(5)), (id(3), id(6))]
    );
}

#[test]
fn install_modal_gives_parent_a_closed_modal() {
    let mut w = World::new();
    let parent = w.create_entity("modal".to_string(), ComponentType::Container);
    let close = w.create_entity("close".to_string(), ComponentType::Container);
    let icon = w.create_entity("icon".to_string(), ComponentType::Image);
    w.add_component(close, HierarchyComponent { parent: None, children: vec![icon] });
    w.add_component(icon, HierarchyComponent { parent: Some(close), children: vec![] });
    let plan = plan_modal(modal_options(), &vec![AnimationWhen::Exit]);
    let ids = vec![id(10), id(11), id(12), id(13), id(14)];
    install_modal(&mut w, parent, &plan, &ids, close);
    let m: &ModalComponent = w.components.get_component::<ModalComponent>(parent).unwrap();
    assert_eq!(m.renderable_children, vec![id(10), id(11), id(13), id(14), icon]);
    assert_eq!(m.non_renderable_children, vec![id(12), close]);
    assert!(!m.is_open && !m.is_opening && !m.is_closing);
    assert!(m.has_exit_animation && !m.has_entry_animation);
}

#[test]
fn button_plan_with_padding() {
    let o = ButtonOptions {
        content_padding: true,
        background_color: true,
        background_gradient: false,
        background_image: true,
        background_frosted_glass: false,
        foreground_image: true,
        foreground_text: true,
    };
    let plan = plan_button(o);
    assert_eq!(plan.content_container_z_index, Some(10));
    let got: Vec<(ButtonPart, i32, LayerParent)> = plan.slots.iter().map(|s| (s.part, s.z_index, s.parent)).collect();
    assert_eq!(
        got,
        vec![
            (ButtonPart::BackgroundColor, 1, LayerParent::Outer),
            (ButtonPart::BackgroundImage, 2, LayerParent::Outer),
            (ButtonPart::ForegroundImage, 3, LayerParent::Inner),
            (ButtonPart::ForegroundText, 4, LayerParent::Inner),
        ]
    );
    let links = links_for_button(&plan, &vec![id(2), id(3), id(4), id(5)], id(0), Some(id(1)));
    assert_eq!(
        links,
        vec![(id(0), id(1)), (id(0), id(2)), (id(0), id(3)), (id(1), id(4)), (id(1), id(5))]
    );
}

#[test]
fn button_plan_without_padding() {
    let o = ButtonOptions {
        content_padding: false,
        background_color: false,
        background_gradient: true,
        background_image: false,
        background_frosted_glass: true,
        foreground_image: false,
        foreground_text: true,
    };
    let plan = plan_button(o);
    assert_eq!(plan.content_container_z_index, None);
    let got: Vec<(ButtonPart, i32, LayerParent)> = plan.slots.iter().map(|s| (s.part, s.z_index, s.parent)).collect();
    assert_eq!(
        got,
        vec![
            (ButtonPart::BackgroundGradient, 1, LayerParent::Outer),
            (ButtonPart::BackgroundFrostedGlass, 2, LayerParent::Outer),
            (ButtonPart::ForegroundText, 3, LayerParent::Outer),
        ]
    );
    let links = links_for_button(&plan, &vec![id(2), id(3), id(4)], id(0), None);
    assert_eq!(links, vec![(id(0), id(2)), (id(0), id(3)), (id(0), id(4))]);
}

fn interaction(active: bool, hovered: bool) -> InteractionComponent {
    InteractionComponent {
        is_clickable: true,
        is_draggable: false,
        is_hoverable: true,
        is_hovered: hovered,
        click_event: None,
        drag_event: None,
        is_active: active,
        is_just_activated: false,
        is_just_deactivated: false,
        is_event_bubble_boundary: false,
    }
}

fn two_level(active: bool) -> (World, EntityId, EntityId) {
    let mut w = World::new();
    w.add_resource(RequestReLayoutResource { request_relayout: false });
    let p = w.create_entity("p".to_string(), ComponentType::Container);
    let c = w.create_entity("c".to_string(), ComponentType::Image);
    w.add_component(p, HierarchyComponent { parent: None, children: vec![c] });
    w.add_component(c, HierarchyComponent { parent: Some(p), children: vec![] });
    w.add_component(p, interaction(active, true));
    w.add_component(c, interaction(active, true));
    (w, p, c)
}

fn state(w: &World, e: EntityId) -> (bool, bool, bool) {
    let i = w.components.get_component::<InteractionComponent>(e).unwrap();
    (i.is_active, i.is_just_activated, i.is_just_deactivated)
}

#[test]
fn activation_switches_entity_and_children() {
    let (mut w, p, c) = two_level(false);
    w.run_system(ComponentActivationSystem {
        activate: true,
        entity_id: p,
        affect_children: true,
        entry_animated: vec![c],
        exit_animated: vec![],
    });
    assert_eq!(state(&w, p), (true, false, false));
    assert_eq!(state(&w, c), (true, true, false));
    assert!(w.resources.get_resource::<RequestReLayoutResource>().unwrap().request_relayout);
}

#[test]
fn deactivation_waits_for_exit_animation() {
    let (mut w, p, c) = two_level(true);
    w.run_system(ComponentActivationSystem {
        activate: false,
        entity_id: p,
        affect_children: true,
        entry_animated: vec![],
        exit_animated: vec![p],
    });
    assert_eq!(state(&w, p), (true, false, true));
    assert_eq!(state(&w, c), (false, false, false));
}

#[test]
fn activation_of_active_entity_only_clears_flags() {
    let (mut w, p, c) = two_level(true);
    w.components.get_component_mut::<InteractionComponent>(p).unwrap().is_just_activated = true;
    w.run_system(ComponentActivationSystem {
        activate: true,
        entity_id: p,
        affect_children: true,
        entry_animated: vec![p, c],
        exit_animated: vec![],
    });
    assert_eq!(state(&w, p), (true, false, false));
    assert_eq!(state(&w, c), (true, false, false));
    assert!(!w.resources.get_resource::<RequestReLayoutResource>().unwrap().request_relayout);
}

#[test]
fn activation_without_children_leaves_them() {
    let (mut w, p, c) = two_level(false);
    w.run_system(ComponentActivationSystem {
        activate: true,
        entity_id: p,
        affect_children: false,
        entry_animated: vec![p],
        exit_animated: vec![],
    });
    assert_eq!(state(&w, p), (true, true, false));
    assert_eq!(state(&w, c), (false, false, false));
    assert!(!w.resources.get_resource::<RequestReLayoutResource>().unwrap().request_relayout);
}

#[test]
fn component_hover_reset_clears_hover() {
    let (mut w, p, c) = two_level(true);
    w.run_system(ComponentHoverResetSystem);
    assert!(!w.components.get_component::<InteractionComponent>(p).unwrap().is_hovered);
    assert!(!w.components.get_component::<InteractionComponent>(c).unwrap().is_hovered);
    assert!(w.components.get_component::<InteractionComponent>(c).unwrap().is_active);
}

#[test]
fn checked_render_order_refuses_overflow() {
    let mut z = ZIndexManager::new();
    z.register_component(id(0), None);
    z.register_component(id(1), Some(id(0)));
    z.set_root_id(id(0));
    assert_eq!(z.checked_render_order(), Some(vec![id(0), id(1)]));
    z.set_adjustment(id(1), i32::MAX);
    assert_eq!(z.checked_render_order(), None);
    z.set_adjustment(id(1), 0);
    assert_eq!(z.checked_render_order(), Some(vec![id(0), id(1)]));
    let mut empty = ZIndexManager::new();
    assert_eq!(empty.checked_render_order(), None);
}
