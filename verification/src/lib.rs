//! Verified core of the Frostify desktop UI: the entity-component store,
//! z-index ordering, modal activation, render grouping and the pure helpers
//! around them.

pub mod entity;
pub mod storage;
pub mod components;
pub mod entity_map;
pub mod resources;
pub mod world;
pub mod zindex;
pub mod hierarchy;
pub mod systems;
pub mod video;
pub mod views;
pub mod playback;
pub mod animation;
pub mod layout;
pub mod assets;
pub mod layout_context;
pub mod builders;
pub mod activation;
