use frostify::components::{
    EcsComponents, HierarchyComponent, IdentityComponent, ImageComponent, InteractionComponent,
    ModalComponent, ScaleMode,
};
use frostify::entity::{AppEvent, ComponentType, EntityId, NamedRef};
use frostify::entity_map::EntityMap;
use frostify::resources::{
    EcsResources, EntryExitAnimationStateResource, EventSenderResource, NamedRefsResource,
    RenderOrderResource, RequestReLayoutResource,
};
use frostify::storage::ComponentStorage;
use frostify::world::{ResourceManager, World};

fn image(w: u32) -> ImageComponent {
    ImageComponent { scale_mode: ScaleMode::Cover, original_width: w, original_height: 1 }
}

#[test]
fn storage_insert_then_get() {
    let mut s: ComponentStorage<ImageComponent> = ComponentStorage::new();
    let e = EntityId::new(3, 0);
    assert!(s.is_empty());
    assert!(s.insert(e, image(7)));
    assert_eq!(s.get(e).unwrap().original_width, 7);
    assert!(s.has_entity(e));
    assert_eq!(s.len(), 1);
    assert!(!s.is_empty());
    assert!(s.get(EntityId::new(2, 0)).is_none());
    assert!(s.get(EntityId::new(100, 0)).is_none());
}

#[test]
fn storage_refuses_second_component_and_stale_generation() {
    let mut s: ComponentStorage<ImageComponent> = ComponentStorage::new();
    let e = EntityId::new(0, 0);
    assert!(s.insert(e, image(1)));
    assert!(!s.insert(e, image(2)));
    assert_eq!(s.get(e).unwrap().original_width, 1);
    assert!(!s.insert(EntityId::new(1, 5), image(3)));
    assert!(s.get(EntityId::new(1, 5)).is_none());
}

#[test]
fn storage_remove_then_lookup_is_none() {
    let mut s: ComponentStorage<ImageComponent> = ComponentStorage::new();
    let e = EntityId::new(2, 0);
    s.insert(e, image(4));
    assert!(s.remove(EntityId::new(2, 1)).is_none());
    assert_eq!(s.remove(e).unwrap().original_width, 4);
    assert!(s.get(e).is_none());
    assert!(s.remove(e).is_none());
    assert!(s.remove(EntityId::new(50, 0)).is_none());
}

#[test]
fn storage_mark_removed_invalidates_old_id() {
    let mut s: ComponentStorage<ImageComponent> = ComponentStorage::new();
    let e = EntityId::new(1, 0);
    s.insert(e, image(4));
    s.mark_entity_removed(e);
    assert!(!s.has_entity(e));
    assert!(s.get(e).is_none());
    let e2 = EntityId::new(1, 1);
    assert_eq!(s.get(e2).unwrap().original_width, 4);
}

#[test]
fn storage_iter_in_index_order_and_clear() {
    let mut s: ComponentStorage<ImageComponent> = ComponentStorage::new();
    s.insert(EntityId::new(5, 0), image(5));
    s.insert(EntityId::new(1, 0), image(1));
    let items = s.iter();
    assert_eq!(items.len(), 2);
    assert_eq!(items[0].0, EntityId::new(1, 0));
    assert_eq!(items[1].0, EntityId::new(5, 0));
    assert_eq!(items[1].1.original_width, 5);
    s.clear();
    assert!(s.is_empty());
    assert_eq!(s.len(), 0);
}

#[test]
fn storage_get_mut_changes_value() {
    let mut s: ComponentStorage<ImageComponent> = ComponentStorage::new();
    let e = EntityId::new(0, 0);
    s.insert(e, image(1));
    s.get_mut(e).unwrap().original_width = 9;
    assert_eq!(s.get(e).unwrap().original_width, 9);
    assert!(s.get_mut(EntityId::new(0, 1)).is_none());
}

#[test]
fn components_add_query_remove() {
    let mut c = EcsComponents::new();
    let a = EntityId::new(0, 0);
    let b = EntityId::new(1, 0);
    assert!(!c.has_component::<ImageComponent>(a));
    assert!(c.add_component(a, image(1)));
    assert!(c.add_component(b, image(2)));
    assert!(c.add_component(b, HierarchyComponent { parent: None, children: vec![] }));
    assert!(c.has_component::<ImageComponent>(a));
    let both = c.query_combined_2::<ImageComponent, HierarchyComponent>();
    assert_eq!(both.len(), 1);
    assert_eq!(both[0].0, b);
    assert_eq!(both[0].1.original_width, 2);
    assert_eq!(c.remove_component::<ImageComponent>(a).unwrap().original_width, 1);
    assert!(c.get_component::<ImageComponent>(a).is_none());
    c.remove_entity(b);
    assert!(!c.has_component::<ImageComponent>(b));
    assert!(!c.has_component::<HierarchyComponent>(b));
}

#[test]
fn components_query_three() {
    let mut c = EcsComponents::new();
    let a = EntityId::new(0, 0);
    c.add_component(a, image(1));
    c.add_component(a, HierarchyComponent { parent: None, children: vec![] });
    assert_eq!(c.query_combined_3::<ImageComponent, HierarchyComponent, IdentityComponent>().len(), 0);
    c.add_component(a, IdentityComponent { debug_name: "a".to_string(), component_type: ComponentType::Image });
    let all = c.query_combined_3::<ImageComponent, HierarchyComponent, IdentityComponent>();
    assert_eq!(all.len(), 1);
    assert_eq!(all[0].3.debug_name, "a");
}

#[test]
fn world_creates_sequential_ids_with_identity() {
    let mut w = World::new();
    assert!(w.is_empty());
    let a = w.create_entity("a".to_string(), ComponentType::Container);
    let b = w.create_entity("b".to_string(), ComponentType::Text);
    assert_eq!(a, EntityId::new(0, 0));
    assert_eq!(b, EntityId::new(1, 0));
    assert!(!w.is_empty());
    let id = w.components.get_component::<IdentityComponent>(b).unwrap();
    assert_eq!(id.debug_name, "b");
    assert_eq!(id.component_type, ComponentType::Text);
    assert!(!w.validate_unique_debug_name("a"));
    assert!(w.validate_unique_debug_name("c"));
    assert_eq!(w.get_entities_with_component::<IdentityComponent>(), vec![a, b]);
}

#[test]
fn world_reuses_removed_index_with_next_generation() {
    let mut w = World::new();
    let a = w.create_entity("a".to_string(), ComponentType::Container);
    let _b = w.create_entity("b".to_string(), ComponentType::Container);
    w.remove_entity(a);
    assert!(w.components.get_component::<IdentityComponent>(a).is_none());
    let c = w.create_entity("c".to_string(), ComponentType::Image);
    assert_eq!(c, EntityId::new(0, 1));
    assert_ne!(c, a);
    assert!(w.components.get_component::<IdentityComponent>(a).is_none());
    assert_eq!(w.components.get_component::<IdentityComponent>(c).unwrap().debug_name, "c");
    assert!(w.validate_unique_debug_name("a"));
}

#[test]
fn world_remove_entity_drops_all_components() {
    let mut w = World::new();
    let a = w.create_entity("a".to_string(), ComponentType::Image);
    let b = w.create_entity("b".to_string(), ComponentType::Image);
    w.add_component(a, image(3));
    w.add_component(b, image(4));
    w.remove_entity(a);
    assert!(!w.components.has_component::<ImageComponent>(a));
    assert!(!w.components.has_component::<IdentityComponent>(a));
    assert_eq!(w.components.get_component::<ImageComponent>(b).unwrap().original_width, 4);
    assert_eq!(w.get_entities_with_component::<ImageComponent>(), vec![b]);
}

#[test]
fn world_reset_clears_entities_and_rebuilds_resources() {
    let mut w = World::new();
    w.add_resource(EventSenderResource::new());
    w.create_entity("a".to_string(), ComponentType::Image);
    w.reset();
    assert!(w.is_empty());
    assert!(w.validate_unique_debug_name("a"));
    assert!(w.resources.get_resource::<RenderOrderResource>().unwrap().render_order.is_empty());
    assert!(!w.resources.get_resource::<RequestReLayoutResource>().unwrap().request_relayout);
    assert!(w.resources.get_resource::<EventSenderResource>().is_some());
    let a = w.create_entity("a".to_string(), ComponentType::Image);
    assert_eq!(a, EntityId::new(0, 0));
}

#[test]
fn queued_events_are_drained_in_order() {
    let mut w = World::new();
    w.add_resource(EventSenderResource::new());
    w.queue_event(AppEvent::Minimize);
    w.queue_event(AppEvent::CloseModal(NamedRef::SettingsModal));
    w.queue_event(AppEvent::Close);
    let sender = w.resources.get_resource_mut::<EventSenderResource>().unwrap();
    assert_eq!(
        sender.drain(),
        vec![AppEvent::Minimize, AppEvent::CloseModal(NamedRef::SettingsModal), AppEvent::Close]
    );
    assert!(sender.drain().is_empty());
}

#[test]
fn resources_add_get_remove() {
    let mut r = EcsResources::new();
    assert!(r.get_resource::<RequestReLayoutResource>().is_none());
    let mut w = World::new();
    w.add_resource(RequestReLayoutResource { request_relayout: true });
    assert!(w.resources.get_resource::<RequestReLayoutResource>().unwrap().request_relayout);
    w.resources.remove_resource::<RequestReLayoutResource>();
    assert!(w.resources.get_resource::<RequestReLayoutResource>().is_none());
    r.render_order = Some(RenderOrderResource { render_order: vec![EntityId::new(1, 0)] });
    assert_eq!(r.get_resource::<RenderOrderResource>().unwrap().render_order.len(), 1);
}

#[test]
fn named_refs_set_and_get() {
    let mut n = NamedRefsResource::default();
    let e = EntityId::new(4, 2);
    assert!(n.get_entity_id(&NamedRef::SettingsModal).is_none());
    n.set_entity_id(NamedRef::SettingsModal, e);
    assert_eq!(n.get_entity_id(&NamedRef::SettingsModal), Some(e));
    assert_eq!(n.get_named_ref(e), Some(NamedRef::SettingsModal));
    assert!(n.get_named_ref(EntityId::new(4, 3)).is_none());
    n.set_entity_id(NamedRef::SettingsModal, EntityId::new(1, 0));
    assert_eq!(n.get_entity_id(&NamedRef::SettingsModal), Some(EntityId::new(1, 0)));
    assert!(n.get_entity_id(&NamedRef::CurrentSongAlbumArt).is_none());
}

#[test]
fn entity_map_insert_get_remove() {
    let mut m: EntityMap<bool> = EntityMap::new();
    let a = EntityId::new(0, 0);
    let b = EntityId::new(1, 0);
    m.insert(a, true);
    m.insert(b, false);
    m.insert(a, false);
    assert_eq!(m.get(a), Some(false));
    assert_eq!(m.get(b), Some(false));
    m.remove(a);
    assert_eq!(m.get(a), None);
    m.clear();
    assert_eq!(m.get(b), None);
}

#[test]
fn entry_exit_state_starts_empty() {
    let s = EntryExitAnimationStateResource::default();
    assert_eq!(s.entry_animation_state.get(EntityId::new(0, 0)), None);
    assert_eq!(s.exit_animation_state.get(EntityId::new(0, 0)), None);
}

#[test]
fn resettable_resources_initialised() {
    let mut w = World::new();
    w.initialize_resettable_resources();
    assert!(w.resources.get_resource::<NamedRefsResource>().is_some());
    assert!(w.resources.get_resource::<EntryExitAnimationStateResource>().is_some());
}

#[test]
fn modal_component_defaults_are_plain() {
    let m = ModalComponent {
        renderable_children: vec![],
        non_renderable_children: vec![],
        is_open: false,
        is_opening: false,
        is_closing: false,
        has_entry_animation: false,
        has_exit_animation: false,
    };
    assert!(!m.is_open);
    let i = InteractionComponent {
        is_clickable: false,
        is_draggable: false,
        is_hoverable: false,
        is_hovered: false,
        click_event: None,
        drag_event: None,
        is_active: true,
        is_just_activated: false,
        is_just_deactivated: false,
        is_event_bubble_boundary: false,
    };
    assert!(i.is_active);
}

#[test]
fn for_each_visits_in_index_order() {
    let mut w = World::new();
    let a = w.create_entity("a".to_string(), ComponentType::Image);
    let b = w.create_entity("b".to_string(), ComponentType::Image);
    w.add_component(b, image(2));
    w.add_component(a, image(1));
    let mut seen = Vec::new();
    w.for_each_component::<ImageComponent, _>(|e, c| seen.push((e, c.original_width)));
    assert_eq!(seen, vec![(a, 1), (b, 2)]);
    let mut none = 0;
    w.for_each_component::<ModalComponent, _>(|_, _| none += 1);
    assert_eq!(none, 0);
}

#[test]
fn for_each_mut_changes_in_place() {
    let mut w = World::new();
    let a = w.create_entity("a".to_string(), ComponentType::Image);
    let b = w.create_entity("b".to_string(), ComponentType::Image);
    w.add_component(a, image(1));
    w.add_component(b, image(2));
    w.for_each_component_mut::<ImageComponent, _>(|e, c| {
        if e == b {
            c.original_width += 10;
        }
    });
    assert_eq!(w.components.get_component::<ImageComponent>(a).unwrap().original_width, 1);
    assert_eq!(w.components.get_component::<ImageComponent>(b).unwrap().original_width, 12);
    let mut c = EcsComponents::new();
    c.for_each_mut::<HierarchyComponent, _>(|_, h| h.children.clear());
    assert!(c.get_storage_ref::<HierarchyComponent>().is_some());
    let mut count = 0;
    c.for_each::<HierarchyComponent, _>(|_, _| count += 1);
    assert_eq!(count, 0);
}

#[test]
fn removing_a_dead_id_changes_nothing() {
    let mut w = World::new();
    let a = w.create_entity("a".to_string(), ComponentType::Container);
    let b = w.create_entity("b".to_string(), ComponentType::Container);
    w.remove_entity(a);
    w.remove_entity(a);
    w.remove_entity(EntityId::new(7, 0));
    assert_eq!(w.free_entity_indices, vec![0]);
    assert_eq!(w.entity_generations, vec![1, 0]);
    let c = w.create_entity("c".to_string(), ComponentType::Container);
    let d = w.create_entity("d".to_string(), ComponentType::Container);
    assert_eq!(c, EntityId::new(0, 1));
    assert_eq!(d, EntityId::new(2, 0));
    assert_eq!(w.entities, vec![b, c, d]);
    assert_eq!(w.components.get_component::<IdentityComponent>(b).unwrap().debug_name, "b");
}

#[test]
fn storage_empty_iff_len_zero() {
    let mut s: ComponentStorage<ImageComponent> = ComponentStorage::new();
    assert!(s.is_empty() && s.len() == 0);
    let e = EntityId::new(5, 0);
    s.insert(e, image(1));
    assert!(!s.is_empty() && s.len() == 1);
    s.remove(e);
    assert!(s.is_empty() && s.len() == 0);
    assert!(!s.has_entity(e));
}

#[test]
fn storage_remove_then_insert_again() {
    let mut s: ComponentStorage<ImageComponent> = ComponentStorage::new();
    let e = EntityId::new(2, 0);
    let other = EntityId::new(4, 0);
    s.insert(e, image(1));
    s.insert(other, image(9));
    assert_eq!(s.remove(e).unwrap().original_width, 1);
    assert!(s.remove(e).is_none());
    assert!(s.insert(e, image(2)));
    assert_eq!(s.get(e).unwrap().original_width, 2);
    assert_eq!(s.get(other).unwrap().original_width, 9);
}

#[test]
fn adding_one_component_type_leaves_others() {
    let mut w = World::new();
    let a = w.create_entity("a".to_string(), ComponentType::Image);
    w.add_component(a, image(3));
    let id = w.components.get_component::<IdentityComponent>(a).unwrap();
    assert_eq!(id.debug_name, "a");
    assert_eq!(id.component_type, ComponentType::Image);
    assert!(!w.components.has_component::<ModalComponent>(a));
    w.components.remove_component::<ImageComponent>(a);
    assert!(w.components.has_component::<IdentityComponent>(a));
}

#[test]
fn removing_one_resource_leaves_others() {
    let mut w = World::new();
    w.add_resource(RequestReLayoutResource { request_relayout: true });
    w.add_resource(RenderOrderResource { render_order: vec![EntityId::new(1, 0)] });
    w.resources.remove_resource::<RequestReLayoutResource>();
    w.resources.remove_resource::<RequestReLayoutResource>();
    assert!(w.resources.get_resource::<RequestReLayoutResource>().is_none());
    assert_eq!(w.resources.get_resource::<RenderOrderResource>().unwrap().render_order, vec![EntityId::new(1, 0)]);
}
