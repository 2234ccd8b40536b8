//! A persistent hash array mapped trie: a map keyed by an integer hash and a
//! key, whose updates return new versions that share untouched sub-tries.

pub mod chunk;
pub mod node;
pub mod trie;
pub mod laws;

pub use chunk::{branch_index, shift_hash, BIT_PER_CHUNK, BRANCH_SIZE, CHUNK_MASK};
