//! An in-memory, entity-indexed data store for simulation state.
//!
//! Typed values (components) can be attached to and removed from entities at
//! run time, queried by type key, serialized and restored in bulk, deep-copied,
//! and accessed through per-cell non-blocking reader/writer locks instead of a
//! compile-time borrow checker.

pub mod codec;
pub mod commands;
pub mod component;
pub mod entity;
pub mod query;
pub mod registry;
pub mod singleton_storage;
pub mod storage;

pub use commands::Command;
pub use commands::Commands;

/// The sequence type that the specification-level members of
/// [`Component`](component::Component) speak of. An implementation compiled
/// outside the verifier must still name these members; their bodies may
/// diverge, as nothing ever calls a specification member at run time.
pub use vstd::seq::Seq as SpecSeq;
pub use query::Query;
pub use query::QueryTerm;
pub use registry::Registry;

pub use component::Component;
pub use component::Singleton;
pub use entity::EntityId;
pub use entity::EntityTable;
pub use entity::Slot;
pub use singleton_storage::SingletonStorage;
pub use storage::Lock;
pub use storage::Storage;
pub use storage::StoreCell;
