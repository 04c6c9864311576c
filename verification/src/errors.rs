//! Error kinds shared by the trie operations.

use vstd::prelude::*;

verus! {

/// Failure modes of trie operations.
///
/// Absence of a key is not an error: lookups report it as `None`.
#[derive(Debug, Clone, Copy, PartialEq, Eq, Structural)]
pub enum Error {
    /// A bit-extraction request asked for fewer than 1 or more than 8 bits.
    InvalidHashBitLen,
    /// The hashed key has no bits left to extract.
    MaxDepth,
    /// The block store failed to produce or accept a block.
    StorageError,
    /// A serialized block did not parse as a node of this trie.
    DecodeError,
}

} // verus!
