//! An archetype-based entity/component store.
//!
//! Components are fixed-size byte records attached to integer entities. Entities that
//! hold exactly the same set of component kinds share an [`Archetype`], which keeps one
//! type-erased [`ComponentArray`] column per kind. The [`ECS`] world keeps the entity
//! index, the archetypes (found by their canonical signature or through cached
//! transitions) and the kind-to-size registry consistent as entities migrate between
//! archetypes.

pub mod error;
pub mod component_array;
pub mod archetype;
pub mod signature;
pub mod ecs;
pub mod laws;

pub use crate::error::EcsError;
pub use crate::component_array::ComponentArray;
pub use crate::archetype::{Archetype, ArchetypeEdge, ArchetypeId, ComponentId, EntityId};
pub use crate::ecs::{Record, ECS};
pub use crate::signature::{canonical, insert_sorted, remove_sorted, same_signature};
