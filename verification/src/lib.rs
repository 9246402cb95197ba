//! The core of a per-index search engine: a durable, serialized update queue
//! drained by a single writer, the trees that back an index with the
//! invariants that tie them together, and the snapshot that readers query.
//!
//! Everything here is a function of plain values. Storage, threads and
//! notification belong to the caller, which persists what this crate decides.

pub mod apply;
pub mod builders;
pub mod bytes;
pub mod codec;
pub mod custom;
pub mod dictionary;
pub mod docindex;
pub mod documents;
pub mod events;
pub mod index;
pub mod keys;
pub mod names;
pub mod ranked_map;
pub mod schema;
pub mod set;
pub mod status;
pub mod synonyms;
pub mod tree;
pub mod update;
pub mod wire;
pub mod words;
