//! Selection of entities and component kinds for a reflective snapshot of
//! an entity-component world.
//!
//! The world itself, its queries and its reflection machinery stay with the
//! host engine. This library decides which entities and which component
//! kinds go into a scene, from plain values that describe the world: entity
//! ids, the component kinds stored with each entity, and the kinds that the
//! type registry can reflect.

mod world;
mod extract;
mod builder;

pub use world::{EntityId, EntityRecord};
pub use extract::{SceneEntity, scene_from_query_components, scene_from_query_filter};
pub use builder::{ComponentSelection, SceneBuilder, Selection};


