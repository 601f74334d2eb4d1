//! Applies the mutations that a dioxus virtual DOM emits to a bevy UI
//! world: entities are spawned for elements, linked into bevy's
//! `Parent`/`Children` hierarchy, and tracked by element id.
pub mod applier;
pub mod registry;
pub mod spawn;
pub mod template;
pub mod world;
pub mod laws;
