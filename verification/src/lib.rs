//! Content identification and deduplication core for a file-indexing system.
//!
//! For a filesystem location already scanned into path records, this library
//! discovers records that lack a content identity (orphans), computes a
//! content identifier and a content-kind classification for each, groups the
//! results by identifier, chunks the groups into bounded units of work, and
//! links every record of a group to a single shared content object, so that
//! byte-identical files share one object record.
//!
//! All I/O (filesystem reads, the persistent store, the task-execution
//! framework) lives outside this crate: the library works on plain values and
//! on in-memory models of the store, and every function is verified.

use vstd::prelude::*;

pub mod chunker;
pub mod error;
pub mod job;
pub mod orphan;
pub mod records;
pub mod state;
pub mod store;

verus! {

/// Default number of records that a unit of work aims to carry; units are
/// flushed for dispatch once they reach this threshold.
pub const DEFAULT_CHUNK_SIZE: usize = 100;

} // verus!
