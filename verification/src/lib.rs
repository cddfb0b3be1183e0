//! An event-sourcing projection engine: entities are reconstructed on demand
//! by folding an append-only log of partial-document events in time order,
//! with merge-patch semantics and tombstone exclusion.
pub mod events;
pub mod game;
pub mod value;
