//! A persistent byte-oriented trie index layered on a byte-keyed store.
//!
//! The trie maps byte-string keys to append-only sequences of byte values.
//! Every node, the namespace metadata and each node's value cell are encoded
//! as explicit binary records and written through an in-memory mirror of the
//! backing store, so an engine reopened over the same store contents
//! reproduces all earlier lookups.
use vstd::prelude::*;

pub mod keys;
pub mod node_codec;
pub mod value_codec;
pub mod store;
pub mod items;
pub mod trie;

verus! {

/// The ways an operation on the trie index can fail.
///
/// Absence of a key is not an error: lookups report it as an empty
/// sequence of values.
#[derive(Debug, Clone, Copy, PartialEq, Eq, Structural)]
pub enum TrieError {
    /// The backing store reported a failure on get, put or flush.
    StorageIo,
    /// Stored bytes do not parse against the expected record layout.
    CorruptRecord,
    /// The namespace prefix given at construction exceeds the supported length.
    NamespaceTooLong,
}

} // verus!
