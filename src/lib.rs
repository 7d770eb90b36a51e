//! An append-only changeset log kept in a `sled` tree.
//!
//! Each changeset is stored, already encoded, under the 8 little-endian bytes of
//! its sequence number; the reserved key `"counter"` holds the next sequence
//! number so that a reopened log continues where it stopped. Loading replays the
//! stored payloads in the order in which the tree keeps its keys.
pub mod laws;
pub mod model;
pub mod store;

pub use store::{counter_key_bytes, LogError, SledStore};
