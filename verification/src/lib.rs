//! A single-node, disk-backed storage engine for relations of fixed-width
//! textual tuples with partial-match retrieval via multi-attribute linear
//! hashing.
//!
//! The crate models the engine's state in memory: pages, buckets and the
//! relation itself are plain data, and the byte images of the three backing
//! files are produced and consumed by verified codecs. Callers (a thin CLI
//! layer) move those byte images between disk and the library.

pub mod bytes;
pub mod choice_vec;
pub mod ma_hash;
pub mod page;
pub mod partial_hash;
pub mod query;
pub mod relation;
pub mod tuple;
pub mod util;
