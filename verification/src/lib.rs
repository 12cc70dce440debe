//! An entity-component store: a database of entities with typed property
//! columns, derived properties computed from other properties, and lazy
//! secondary indexes that accelerate multi-predicate queries over large
//! entity populations.
//!
//! Properties are identified by caller-chosen integer keys, standing for
//! the property types of a host application, and property values are
//! serialized byte strings. A stored property keeps one optional value per
//! entity in a dense column ([`store::PropertyStore`]); a derived property
//! keeps nothing and is computed on demand from its declared dependencies
//! by the evaluator ([`property::Compute`]) that the table is built around.
//! Dependencies must be registered before their dependents, so derived
//! values are acyclic by construction.
//!
//! A query ([`query::Query`]) is a conjunction of `(property, value)`
//! predicates, matched by serialization-level equality: the same equality
//! that keys the secondary indexes ([`index::Index`]). Indexes are enabled
//! explicitly and populated lazily: each carries a watermark of how many
//! entities it reflects, and queries catch it up before probing. Writing a
//! property removes the entity from the affected buckets — of the property
//! and of every derived property depending on it — and re-adds it under
//! the new value's key, so an enabled index always agrees with the values.
//!
//! The contracts speak of a mathematical model of the table
//! ([`data::CoreView`]): an entity count, a sequence of property models
//! with their columns, and the evaluator. Everything a query returns is
//! pinned to that model; indexes never appear in it, so enabling one can
//! change a query's cost but never its result.

pub mod bytes;
pub mod context;
pub mod data;
pub mod error;
pub mod init_list;
pub mod index;
pub mod property;
pub mod query;
pub mod store;

use vstd::prelude::*;

verus! {

/// An opaque, monotonically assigned entity identifier. Stable for the
/// lifetime of the table; never reused.
#[derive(Copy, Clone, PartialEq, Eq, Structural, Hash, Debug, PartialOrd, Ord)]
pub struct EntityId(pub usize);

} // verus!
