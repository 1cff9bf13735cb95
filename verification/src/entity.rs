//! Entity identifiers and the small enums that classify entities.
use vstd::prelude::*;

verus! {

/// An entity is a slot index plus the generation of that slot; a slot that
/// is freed and reused gets a new generation, so stale identifiers never
/// match the new occupant.
#[derive(Debug, Clone, Copy, PartialEq, Eq, Structural, Hash, PartialOrd, Ord)]
pub struct EntityId {
    pub index: u32,
    pub generation: u32,
}

impl EntityId {
    pub fn new(index: u32, generation: u32) -> (r: Self)
        ensures
            r.index == index,
            r.generation == generation,
    {
        EntityId { index, generation }
    }
}

/// What an entity draws (or that it only groups children).
#[derive(Debug, Clone, Copy, PartialEq, Eq, Structural)]
pub enum ComponentType {
    Container,
    Text,
    Image,
    BackgroundColor,
    BackgroundGradient,
    FrostedGlass,
}

impl ComponentType {
    /// Every kind but a plain container produces pixels.
    pub fn is_renderable(&self) -> (r: bool)
        ensures
            r == !(*self is Container),
    {
        match self {
            ComponentType::Container => false,
            _ => true,
        }
    }
}

/// Where a border is drawn relative to the component's bounds.
#[derive(Debug, Clone, Copy, PartialEq, Eq, Structural)]
pub enum BorderPosition {
    /// Border drawn inside the component's bounds
    Inside,
    /// Border straddles the component's edges
    Center,
    /// Border drawn outside the component's bounds
    Outside,
}

impl Default for BorderPosition {
    fn default() -> (r: Self)
        ensures
            r == BorderPosition::Outside,
    {
        BorderPosition::Outside
    }
}

/// Shape of a gradient fill.
#[derive(Debug, Clone, Copy, PartialEq, Eq, Structural)]
pub enum GradientType {
    Linear,
    Radial,
}

/// Named handles to entities that other parts of the UI look up.
#[derive(Debug, Clone, Copy, PartialEq, Eq, Structural, Hash)]
pub enum NamedRef {
    SettingsModal,
    CurrentSongAlbumArt,
}

/// Entities that belong to a modal dialog.
pub trait ModalEntity {
    spec fn spec_is_modal(&self) -> bool;

    fn is_modal(&self) -> (r: bool)
        ensures
            r == self.spec_is_modal(),
    ;
}

/// Entities that belong to the player bar.
pub trait PlayerEntity {
    spec fn spec_is_player_entity(&self) -> bool;

    fn is_player_entity(&self) -> (r: bool)
        ensures
            r == self.spec_is_player_entity(),
    ;
}

impl ModalEntity for NamedRef {
    open spec fn spec_is_modal(&self) -> bool {
        *self is SettingsModal
    }

    fn is_modal(&self) -> (r: bool) {
        match self {
            NamedRef::SettingsModal => true,
            _ => false,
        }
    }
}

impl PlayerEntity for NamedRef {
    open spec fn spec_is_player_entity(&self) -> bool {
        *self is CurrentSongAlbumArt
    }

    fn is_player_entity(&self) -> (r: bool) {
        match self {
            NamedRef::CurrentSongAlbumArt => true,
            _ => false,
        }
    }
}

impl NamedRef {
    /// The variant's name.
    pub fn as_str(&self) -> (r: &'static str)
        ensures
            *self is SettingsModal ==> r@ == "SettingsModal"@,
            *self is CurrentSongAlbumArt ==> r@ == "CurrentSongAlbumArt"@,
    {
        match self {
            NamedRef::SettingsModal => "SettingsModal",
            NamedRef::CurrentSongAlbumArt => "CurrentSongAlbumArt",
        }
    }
}

/// Edge on which a component's notch is cut.
#[derive(Debug, Clone, Copy, PartialEq, Eq, Structural)]
pub enum NotchType {
    Disabled,
    Top,
    Right,
    Bottom,
    Left,
}

impl Default for NotchType {
    fn default() -> (r: Self)
        ensures
            r == NotchType::Disabled,
    {
        NotchType::Disabled
    }
}

impl NotchType {
    /// Shader code of the notch edge: 0 disabled, then top, right, bottom, left.
    pub fn to_u32(self) -> (r: u32)
        ensures
            r == match self {
                NotchType::Disabled => 0u32,
                NotchType::Top => 1u32,
                NotchType::Right => 2u32,
                NotchType::Bottom => 3u32,
                NotchType::Left => 4u32,
            },
    {
        match self {
            NotchType::Disabled => 0,
            NotchType::Top => 1,
            NotchType::Right => 2,
            NotchType::Bottom => 3,
            NotchType::Left => 4,
        }
    }
}

/// Where along its edge a notch sits.
#[derive(Debug, Clone, Copy, PartialEq, Eq, Structural)]
pub enum NotchPosition {
    Center,
    Start,
    End,
}

impl Default for NotchPosition {
    fn default() -> (r: Self)
        ensures
            r == NotchPosition::Center,
    {
        NotchPosition::Center
    }
}

impl NotchPosition {
    /// Shader code of the notch position: 0 start, 1 center, 2 end.
    pub fn to_u32(self) -> (r: u32)
        ensures
            r == match self {
                NotchPosition::Start => 0u32,
                NotchPosition::Center => 1u32,
                NotchPosition::End => 2u32,
            },
    {
        match self {
            NotchPosition::Start => 0,
            NotchPosition::Center => 1,
            NotchPosition::End => 2,
        }
    }
}

/// Events that interactive entities raise for the application loop.
#[derive(Debug, Clone, Copy, PartialEq, Eq, Structural)]
pub enum AppEvent {
    Minimize,
    Maximize,
    Close,
    /// Close the modal a named reference points at.
    CloseModal(NamedRef),
}

} // verus!
