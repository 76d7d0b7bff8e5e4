//! A per-node cache of collision attributes over a hierarchical scene tree,
//! with bulk enable/disable of collision response and scoped, event-driven
//! re-caching of changed subtrees.

pub mod agent;
pub mod floor;
pub mod laws;
pub mod path;
pub mod tree;
