//! An embeddable entity-component store: generational entity ids, one sparse-set
//! column per component kind, bitmask queries and whole-world snapshots.
pub mod arena;
pub mod components;
pub mod entities;
pub mod mask;
pub mod query;
pub mod snapshot;

pub use components::{ComponentKind, Components, EcsError, SparseSet};
pub use entities::{AliveEntityId, Entities, EntityId};
pub use mask::{ComponentsMask, COMPONENTS_MASK_SIZE};
pub use query::{BitQuery, QueryEntity};
pub use snapshot::EcsState;
