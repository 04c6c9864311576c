//! The pluggable hash function that turns caller keys into hashed keys.
//!
//! SHA-256 is computed by an outside library behind a trusted wrapper whose
//! result is only named, never restated; the identity hash (the first 32 key
//! bytes, zero-padded) is implemented and verified here.

use vstd::prelude::*;
use vstd::array::ArrayAdditionalExecFns;
use sha2::Digest;

use crate::hash_bits::HashedKey;

verus! {

/// Which hash function a trie applies to its keys.
#[derive(Debug, Clone, Copy, PartialEq, Eq, Structural)]
pub enum HashAlgorithm {
    /// SHA-256 of the key bytes.
    Sha256,
    /// The key bytes themselves, truncated or zero-padded to 32 bytes.
    Identity,
}

/// The 32 bytes that SHA-256 assigns to `bytes`; a function of `bytes` alone.
pub uninterp spec fn sha256_of(bytes: Seq<u8>) -> Seq<u8>;

/// The identity hash: the first 32 bytes of the key, zero-padded.
pub open spec fn identity_hash(bytes: Seq<u8>) -> Seq<u8> {
    Seq::new(32, |i: int| if i < bytes.len() { bytes[i] } else { 0u8 })
}

/// The hashed key that `algo` assigns to `bytes`.
pub open spec fn hash_of(algo: HashAlgorithm, bytes: Seq<u8>) -> Seq<u8> {
    match algo {
        HashAlgorithm::Sha256 => sha256_of(bytes),
        HashAlgorithm::Identity => identity_hash(bytes),
    }
}

/// Relies on sha2's `Sha256::digest`: the 32-byte SHA-256 digest, a function
/// of the input bytes alone.
#[verifier::external_body]
fn sha256(bytes: &[u8]) -> (r: HashedKey)
    ensures
        r@ == sha256_of(bytes@),
{
    let digest = sha2::Sha256::digest(bytes);
    digest.into()
}

/// Hashes a caller key with the configured algorithm.
pub fn hash_key(algo: HashAlgorithm, key: &Vec<u8>) -> (r: HashedKey)
    ensures
        r@ == hash_of(algo, key@),
        r@.len() == 32,
{
    match algo {
        HashAlgorithm::Sha256 => {
            let r = sha256(key.as_slice());
            assert(r@ == hash_of(HashAlgorithm::Sha256, key@));
            r
        },
        HashAlgorithm::Identity => {
            let mut out: HashedKey = [0u8; 32];
            assert(forall|m: int| 0 <= m < 32 ==> out@[m] == 0u8);
            let mut i: usize = 0;
            while i < 32
                invariant
                    i <= 32,
                    out@.len() == 32,
                    forall|m: int| 0 <= m < i ==> out@[m] == identity_hash(key@)[m],
                    forall|m: int| i <= m < 32 ==> out@[m] == 0u8,
                decreases 32 - i,
            {
                if i < key.len() {
                    out[i] = key[i];
                }
                i = i + 1;
            }
            proof {
                assert(out@ =~= identity_hash(key@));
            }
            out
        },
    }
}

} // verus!
