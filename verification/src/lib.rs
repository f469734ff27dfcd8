//! An archetype-based entity-component store.
//!
//! Components are typed records attached to entities, which are plain
//! numbers. Entities that have the same set of component types share a
//! table, one column per type; adding or removing a component moves the
//! entity's row to the table of its new archetype. Queries walk the tables
//! whose archetype meets a filter. Structural changes that are issued while a
//! system runs wait in a queue until the last running system has finished.
//!
//! The functions are verified against a mathematical model of the world (see
//! [`model`]); [`laws`] holds what follows from the model for all worlds.

pub mod archetype;
pub mod bundle;
pub mod component;
pub mod entity;
pub mod laws;
pub mod model;
pub mod query;
pub mod store;
pub mod table;
pub mod view;
pub mod world;

pub use archetype::ArchetypeBuilder;
pub use bundle::Bundle;
pub use entity::Entity;
pub use query::{Query, QueryParam, With, Without};
pub use world::{System, World};
