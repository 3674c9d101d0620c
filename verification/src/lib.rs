//! A log-structured, persistent key-value store.
//!
//! The engine keeps every mutation as one record in an append-only log and
//! serves reads through an in-memory index that maps each live key to the
//! position of its most recent record. The log text, not the index, is the
//! durable source of truth: the index is rebuilt by replaying the log, and a
//! compaction pass rewrites the log to hold exactly one record per live key.

use vstd::prelude::*;

pub mod error;
pub mod index;
pub mod record;
pub mod replay;
pub mod store;

pub use error::KvError;
pub use index::CommandBuffer;
pub use index::Index;
pub use record::Record;
pub use store::KvStore;

verus! {

/// The engine's result type.
pub type Result<T> = core::result::Result<T, KvError>;

/// Diagnostics are left to the embedding front end; the engine itself
/// configures no logger.
pub fn setup_logger() {
}

} // verus!
