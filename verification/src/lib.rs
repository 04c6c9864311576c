//! A persistent hash array mapped trie (HAMT) over a content-addressed
//! block store.
//!
//! Keys are hashed once per operation; successive slices of the hash,
//! `bit_width` bits at a time, select a slot at each trie level. Nodes hold a
//! bitmap over the slots together with a dense, rank-indexed vector of the
//! occupied slots' pointers. Leaves are small buckets of key-value pairs kept
//! in ascending key order so that the serialized form of a node is a function
//! of its logical contents alone.

use vstd::prelude::*;

pub mod bucket;
pub mod codec;
pub mod errors;
pub mod hash;
pub mod hash_bits;
pub mod node;
pub mod ops;
pub mod store;
pub mod trie;

verus! {

} // verus!
