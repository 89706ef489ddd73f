//! A minimal in-memory entity/component store.
//!
//! An [`Entity`] is an opaque handle. Each live handle is bound to a set of
//! component values, at most one per component type. Entities that carry the
//! same set of component types share an [`Archetype`]: a table with one column
//! per type and one row per entity.
pub mod archetype;
pub mod arena;
pub mod bundle;
pub mod cell;
pub mod entity;
pub mod entity_builder;
pub mod registry;
pub mod type_info;
pub mod world;

pub use archetype::{Archetype, ArchetypeView, StoreError};
pub use bundle::ComponentSet;
pub use cell::{Cell, Component};
pub use entity::{Entity, EntityIndex, Location};
pub use entity_builder::{BuiltEntity, EntityBuilder};
pub use type_info::TypeInfo;
pub use world::World;
