//! An archetype-based entity/component store, with the small logging and
//! packet-framing helpers that accompany it.
//!
//! Entities are generation-checked handles. Every entity owns one row in the
//! table of its archetype, the table that stores exactly the entity's set of
//! component types, one column per type.
pub mod component;
pub mod component_set;
pub mod decimal;
pub mod entity;
pub mod inspect;
pub mod laws;
pub mod logger;
pub mod parsing;
pub mod registry;
pub mod table;
pub mod world;

pub use component::{
    component_id, Component, ComponentBundle, DynamicComponent, ErasedComponent,
};
pub use component_set::SpawnError;
pub use entity::{Entity, EntityTableData};
pub use logger::{generate_utc_string, DefaultLogger, LogLevel, LogLevelParseError, LoggerFormat};
pub use registry::ComponentLookup;
pub use table::Table;
pub use world::World;
