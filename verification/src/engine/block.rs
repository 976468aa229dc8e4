//! The block engine: an index of entry addresses over blocks of a device.
pub mod eviction;
pub mod index_laws;
pub mod index_meaning;
pub mod indexer;
pub mod lifecycle;
pub mod lifecycle_laws;
pub mod lifecycle_meaning;
pub mod manager;
pub mod model;
pub mod plan;
