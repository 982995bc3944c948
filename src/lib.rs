//! A schema-driven entity/component store: sparse per-component tables keyed
//! by entity, a per-entity membership index, a lazily rebuilt join cache, and
//! staged batches of edits that can be previewed before they are committed.
use vstd::prelude::*;

pub mod action;
pub mod bitset;
pub mod laws;
pub mod model;
pub mod schema;
pub mod store;
pub mod table;

verus! {

/// An opaque entity identifier.
pub type EntityId = u64;

/// The dense index of a declared component type.
pub type ComponentType = usize;

} // verus!
