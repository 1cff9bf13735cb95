//! World-wide resources: one optional value per resource type.
use vstd::prelude::*;
use crate::entity::{AppEvent, EntityId, NamedRef};
use crate::entity_map::EntityMap;

verus! {

/// Entities in the order they are drawn.
#[derive(Debug, Clone)]
pub struct RenderOrderResource {
    pub render_order: Vec<EntityId>,
}

impl Default for RenderOrderResource {
    fn default() -> (r: Self)
        ensures
            r.render_order@ == Seq::<EntityId>::empty(),
    {
        RenderOrderResource { render_order: Vec::new() }
    }
}

/// A run of consecutive drawable entities that share one pipeline kind.
#[derive(Debug, Clone)]
pub struct RenderGroup {
    pub entity_ids: Vec<EntityId>,
    pub is_frosted_glass: bool,
}

/// The render order split into groups.
#[derive(Debug, Clone)]
pub struct RenderGroupsResource {
    pub groups: Vec<RenderGroup>,
}

impl Default for RenderGroupsResource {
    fn default() -> (r: Self)
        ensures
            r.groups@ == Seq::<RenderGroup>::empty(),
    {
        RenderGroupsResource { groups: Vec::new() }
    }
}

/// Set when something changed that needs a new layout pass.
#[derive(Debug, Clone)]
pub struct RequestReLayoutResource {
    pub request_relayout: bool,
}

impl Default for RequestReLayoutResource {
    fn default() -> (r: Self)
        ensures
            !r.request_relayout,
    {
        RequestReLayoutResource { request_relayout: false }
    }
}

/// Events raised by systems, waiting to be handed to the application loop.
#[derive(Debug, Clone)]
pub struct EventSenderResource {
    pub pending: Vec<AppEvent>,
}

impl EventSenderResource {
    pub fn new() -> (r: Self)
        ensures
            r.pending@ == Seq::<AppEvent>::empty(),
    {
        EventSenderResource { pending: Vec::new() }
    }

    /// Hand over every pending event, oldest first, leaving none behind.
    pub fn drain(&mut self) -> (r: Vec<AppEvent>)
        ensures
            r@ == old(self).pending@,
            final(self).pending@ == Seq::<AppEvent>::empty(),
    {
        let mut out: Vec<AppEvent> = Vec::new();
        std::mem::swap(&mut out, &mut self.pending);
        out
    }
}

/// Per entity: whether its entry animation and its exit animation have finished.
#[derive(Debug, Clone)]
pub struct EntryExitAnimationStateResource {
    pub entry_animation_state: EntityMap<bool>,
    pub exit_animation_state: EntityMap<bool>,
}

impl EntryExitAnimationStateResource {
    pub open spec fn wf(&self) -> bool {
        self.entry_animation_state.wf() && self.exit_animation_state.wf()
    }
}

impl Default for EntryExitAnimationStateResource {
    fn default() -> (r: Self)
        ensures
            r.entry_animation_state@ == Map::<EntityId, bool>::empty(),
            r.exit_animation_state@ == Map::<EntityId, bool>::empty(),
            r.wf(),
    {
        EntryExitAnimationStateResource {
            entry_animation_state: EntityMap::new(),
            exit_animation_state: EntityMap::new(),
        }
    }
}

/// Which entity each named reference points at.
#[derive(Debug, Clone)]
pub struct NamedRefsResource {
    settings_modal: Option<EntityId>,
    current_song_album_art: Option<EntityId>,
}

impl View for NamedRefsResource {
    type V = Map<NamedRef, EntityId>;

    closed spec fn view(&self) -> Map<NamedRef, EntityId> {
        let m1 = match self.settings_modal {
            Some(e) => Map::empty().insert(NamedRef::SettingsModal, e),
            None => Map::empty(),
        };
        match self.current_song_album_art {
            Some(e) => m1.insert(NamedRef::CurrentSongAlbumArt, e),
            None => m1,
        }
    }
}

impl Default for NamedRefsResource {
    fn default() -> (r: Self)
        ensures
            r@ == Map::<NamedRef, EntityId>::empty(),
    {
        let r = NamedRefsResource { settings_modal: None, current_song_album_art: None };
        proof {
            assert(r@ =~= Map::<NamedRef, EntityId>::empty());
        }
        r
    }
}

impl NamedRefsResource {
    pub fn get_entity_id(&self, named_ref: &NamedRef) -> (r: Option<EntityId>)
        ensures
            r == (if self@.contains_key(*named_ref) { Some(self@[*named_ref]) } else { None::<EntityId> }),
    {
        match named_ref {
            NamedRef::SettingsModal => self.settings_modal,
            NamedRef::CurrentSongAlbumArt => self.current_song_album_art,
        }
    }

    /// A named reference that points at `entity_id`, if any does.
    pub fn get_named_ref(&self, entity_id: EntityId) -> (r: Option<NamedRef>)
        ensures
            match r {
                Some(n) => self@.contains_key(n) && self@[n] == entity_id,
                None => forall|n: NamedRef| #[trigger] self@.contains_key(n) ==> self@[n] != entity_id,
            },
    {
        if self.settings_modal == Some(entity_id) {
            return Some(NamedRef::SettingsModal);
        }
        if self.current_song_album_art == Some(entity_id) {
            return Some(NamedRef::CurrentSongAlbumArt);
        }
        None
    }

    /// Point `named_ref` at `entity_id`, replacing any earlier target.
    pub fn set_entity_id(&mut self, named_ref: NamedRef, entity_id: EntityId)
        ensures
            final(self)@ == old(self)@.insert(named_ref, entity_id),
    {
        match named_ref {
            NamedRef::SettingsModal => {
                self.settings_modal = Some(entity_id);
            },
            NamedRef::CurrentSongAlbumArt => {
                self.current_song_album_art = Some(entity_id);
            },
        }
        proof {
            assert(self@ =~= old(self)@.insert(named_ref, entity_id));
        }
    }
}

/// One optional value per resource type.
pub struct EcsResources {
    pub render_order: Option<RenderOrderResource>,
    pub render_groups: Option<RenderGroupsResource>,
    pub request_relayout: Option<RequestReLayoutResource>,
    pub named_refs: Option<NamedRefsResource>,
    pub entry_exit_animation_state: Option<EntryExitAnimationStateResource>,
    pub event_sender: Option<EventSenderResource>,
}

/// A type that can live in the world as a resource; each implementation
/// names the slot that holds it.
pub trait EcsResource: Sized {
    spec fn spec_slot(r: EcsResources) -> Option<Self>;

    spec fn spec_with_slot(r: EcsResources, v: Option<Self>) -> EcsResources;

    fn slot(r: &EcsResources) -> (s: &Option<Self>)
        ensures
            *s == Self::spec_slot(*r),
    ;

    fn slot_mut(r: &mut EcsResources) -> (s: &mut Option<Self>)
        ensures
            *s == Self::spec_slot(*old(r)),
            *final(r) == Self::spec_with_slot(*old(r), *final(s)),
            Self::spec_slot(*final(r)) == *final(s),
            *final(s) == *s ==> *final(r) == *old(r),
            old(r).wf() && (*final(s) is Some ==> Self::spec_value_wf(final(s).unwrap())) ==> final(r).wf(),
            old(r).wf() && *s is Some ==> Self::spec_value_wf(s.unwrap()),
    ;

    /// Internal consistency of a value of this resource.
    spec fn spec_value_wf(v: Self) -> bool;

    /// Which slot of [`EcsResources`] holds this type (0 to 5, in field order).
    spec fn slot_id() -> int;

    /// Each type owns one slot: its value is read from that field alone,
    /// and replacing it sets that field and leaves every other one as it was.
    proof fn lemma_slot_id(r: EcsResources, q: EcsResources, v: Option<Self>)
        ensures
            0 <= Self::slot_id() < 6,
            same_resource_field(r, q, Self::slot_id()) ==> Self::spec_slot(r) == Self::spec_slot(q),
            forall|j: int| j != Self::slot_id() ==> #[trigger] same_resource_field(Self::spec_with_slot(r, v), r, j),
            Self::spec_slot(Self::spec_with_slot(r, v)) == v,
            Self::spec_with_slot(Self::spec_with_slot(r, v), v) == Self::spec_with_slot(r, v),
    ;
}

/// Whether `a` and `b` hold the same value in resource field `j` (in field order).
pub open spec fn same_resource_field(a: EcsResources, b: EcsResources, j: int) -> bool {
    if j == 0 {
        a.render_order == b.render_order
    } else if j == 1 {
        a.render_groups == b.render_groups
    } else if j == 2 {
        a.request_relayout == b.request_relayout
    } else if j == 3 {
        a.named_refs == b.named_refs
    } else if j == 4 {
        a.entry_exit_animation_state == b.entry_exit_animation_state
    } else if j == 5 {
        a.event_sender == b.event_sender
    } else {
        true
    }
}

/// Installing or removing one resource type leaves every other resource
/// type's value as it was, and removing it twice is removing it once.
pub proof fn law_other_resources_untouched<T: EcsResource, U: EcsResource>(r: EcsResources, v: Option<T>)
    requires
        T::slot_id() != U::slot_id(),
    ensures
        U::spec_slot(T::spec_with_slot(r, v)) == U::spec_slot(r),
        T::spec_with_slot(T::spec_with_slot(r, None), None) == T::spec_with_slot(r, None),
{
    T::lemma_slot_id(r, r, v);
    T::lemma_slot_id(r, r, None);
    assert(same_resource_field(T::spec_with_slot(r, v), r, U::slot_id()));
    U::lemma_slot_id(T::spec_with_slot(r, v), r, None);
}

pub open spec fn entry_exit_wf(v: Option<EntryExitAnimationStateResource>) -> bool {
    match v {
        Some(x) => x.wf(),
        None => true,
    }
}

impl EcsResources {
    pub open spec fn wf(self) -> bool {
        entry_exit_wf(self.entry_exit_animation_state)
    }

    pub open spec fn spec_empty() -> EcsResources {
        EcsResources {
            render_order: None,
            render_groups: None,
            request_relayout: None,
            named_refs: None,
            entry_exit_animation_state: None,
            event_sender: None,
        }
    }

    pub fn new() -> (r: Self)
        ensures
            r == EcsResources::spec_empty(),
    {
        EcsResources {
            render_order: None,
            render_groups: None,
            request_relayout: None,
            named_refs: None,
            entry_exit_animation_state: None,
            event_sender: None,
        }
    }

    pub fn get_resource<T: EcsResource>(&self) -> (r: Option<&T>)
        ensures
            match r {
                Some(v) => T::spec_slot(*self) == Some(*v),
                None => T::spec_slot(*self) is None,
            },
    {
        T::slot(self).as_ref()
    }

    pub fn get_resource_mut<T: EcsResource>(&mut self) -> (r: Option<&mut T>)
        ensures
            match r {
                Some(v) => {
                    &&& T::spec_slot(*old(self)) == Some(*v)
                    &&& *final(self) == T::spec_with_slot(*old(self), Some(*final(v)))
                },
                None => T::spec_slot(*old(self)) is None && *final(self) == *old(self),
            },
    {
        let s = T::slot_mut(self);
        if s.is_none() {
            return None;
        }
        s.as_mut()
    }

    pub fn remove_resource<T: EcsResource>(&mut self)
        requires
            old(self).wf(),
        ensures
            *final(self) == T::spec_with_slot(*old(self), None),
            T::spec_slot(*final(self)) is None,
            final(self).wf(),
    {
        let s = T::slot_mut(self);
        *s = None;
    }
}

impl EcsResource for RenderOrderResource {
    open spec fn slot_id() -> int {
        0
    }

    proof fn lemma_slot_id(r: EcsResources, q: EcsResources, v: Option<Self>) {
    }

    open spec fn spec_slot(r: EcsResources) -> Option<Self> {
        r.render_order
    }

    open spec fn spec_with_slot(r: EcsResources, v: Option<Self>) -> EcsResources {
        EcsResources { render_order: v, ..r }
    }

    open spec fn spec_value_wf(v: Self) -> bool {
        true
    }

    fn slot(r: &EcsResources) -> (s: &Option<Self>) {
        &r.render_order
    }

    fn slot_mut(r: &mut EcsResources) -> (s: &mut Option<Self>) {
        &mut r.render_order
    }
}

impl EcsResource for RenderGroupsResource {
    open spec fn slot_id() -> int {
        1
    }

    proof fn lemma_slot_id(r: EcsResources, q: EcsResources, v: Option<Self>) {
    }

    open spec fn spec_slot(r: EcsResources) -> Option<Self> {
        r.render_groups
    }

    open spec fn spec_with_slot(r: EcsResources, v: Option<Self>) -> EcsResources {
        EcsResources { render_groups: v, ..r }
    }

    open spec fn spec_value_wf(v: Self) -> bool {
        true
    }

    fn slot(r: &EcsResources) -> (s: &Option<Self>) {
        &r.render_groups
    }

    fn slot_mut(r: &mut EcsResources) -> (s: &mut Option<Self>) {
        &mut r.render_groups
    }
}

impl EcsResource for RequestReLayoutResource {
    open spec fn slot_id() -> int {
        2
    }

    proof fn lemma_slot_id(r: EcsResources, q: EcsResources, v: Option<Self>) {
    }

    open spec fn spec_slot(r: EcsResources) -> Option<Self> {
        r.request_relayout
    }

    open spec fn spec_with_slot(r: EcsResources, v: Option<Self>) -> EcsResources {
        EcsResources { request_relayout: v, ..r }
    }

    open spec fn spec_value_wf(v: Self) -> bool {
        true
    }

    fn slot(r: &EcsResources) -> (s: &Option<Self>) {
        &r.request_relayout
    }

    fn slot_mut(r: &mut EcsResources) -> (s: &mut Option<Self>) {
        &mut r.request_relayout
    }
}

impl EcsResource for NamedRefsResource {
    open spec fn slot_id() -> int {
        3
    }

    proof fn lemma_slot_id(r: EcsResources, q: EcsResources, v: Option<Self>) {
    }

    open spec fn spec_slot(r: EcsResources) -> Option<Self> {
        r.named_refs
    }

    open spec fn spec_with_slot(r: EcsResources, v: Option<Self>) -> EcsResources {
        EcsResources { named_refs: v, ..r }
    }

    open spec fn spec_value_wf(v: Self) -> bool {
        true
    }

    fn slot(r: &EcsResources) -> (s: &Option<Self>) {
        &r.named_refs
    }

    fn slot_mut(r: &mut EcsResources) -> (s: &mut Option<Self>) {
        &mut r.named_refs
    }
}

impl EcsResource for EntryExitAnimationStateResource {
    open spec fn slot_id() -> int {
        4
    }

    proof fn lemma_slot_id(r: EcsResources, q: EcsResources, v: Option<Self>) {
    }

    open spec fn spec_slot(r: EcsResources) -> Option<Self> {
        r.entry_exit_animation_state
    }

    open spec fn spec_with_slot(r: EcsResources, v: Option<Self>) -> EcsResources {
        EcsResources { entry_exit_animation_state: v, ..r }
    }

    open spec fn spec_value_wf(v: Self) -> bool {
        v.wf()
    }

    fn slot(r: &EcsResources) -> (s: &Option<Self>) {
        &r.entry_exit_animation_state
    }

    fn slot_mut(r: &mut EcsResources) -> (s: &mut Option<Self>) {
        &mut r.entry_exit_animation_state
    }
}

impl EcsResource for EventSenderResource {
    open spec fn slot_id() -> int {
        5
    }

    proof fn lemma_slot_id(r: EcsResources, q: EcsResources, v: Option<Self>) {
    }

    open spec fn spec_slot(r: EcsResources) -> Option<Self> {
        r.event_sender
    }

    open spec fn spec_with_slot(r: EcsResources, v: Option<Self>) -> EcsResources {
        EcsResources { event_sender: v, ..r }
    }

    open spec fn spec_value_wf(v: Self) -> bool {
        true
    }

    fn slot(r: &EcsResources) -> (s: &Option<Self>) {
        &r.event_sender
    }

    fn slot_mut(r: &mut EcsResources) -> (s: &mut Option<Self>) {
        &mut r.event_sender
    }
}

} // verus!
