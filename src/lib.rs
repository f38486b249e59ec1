//! An archetype-based entity-component store.
//!
//! Entities are records made of typed components; each component type is
//! named by a runtime key (`TypeKey`). Entities that hold exactly the same
//! set of keys share one columnar table (an archetype).
use vstd::prelude::*;

pub mod error;
pub mod entity;
pub mod bundle;
pub mod archetype;
pub mod world;
pub mod clone;

pub use error::EcsError;
pub use entity::{Entity, Allocator};
pub use bundle::Builder;
pub use archetype::Archetype;
pub use world::World;
pub use clone::{CloneRegistry, CloneEntry, register};

verus! {

/// The runtime key of a component type.
pub type TypeKey = u32;

} // verus!
