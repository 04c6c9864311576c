//! A content-addressed block store held in memory.
//!
//! A block's reference is the SHA-256 digest of its bytes. `put` refuses to
//! rebind a reference that already names different bytes, so every reference
//! a caller holds keeps naming the block it was minted for.

use vstd::prelude::*;

use crate::bucket::copy_bytes;
use crate::errors::Error;
use crate::hash::{sha256_of, hash_key, HashAlgorithm};

verus! {

/// One stored block: its reference and its bytes.
pub struct Block {
    pub reference: Vec<u8>,
    pub bytes: Vec<u8>,
}

/// The bytes stored under reference `r`: the first block that carries it.
pub open spec fn store_find(s: Seq<Block>, r: Seq<u8>) -> Option<Seq<u8>>
    decreases s.len(),
{
    if s.len() == 0 {
        None
    } else if s[0].reference@ == r {
        Some(s[0].bytes@)
    } else {
        store_find(s.skip(1), r)
    }
}

/// Appending a block with a fresh reference binds it and changes nothing
/// else.
pub proof fn lemma_store_find_push(s: Seq<Block>, b: Block)
    requires
        store_find(s, b.reference@) == None::<Seq<u8>>,
    ensures
        store_find(s.push(b), b.reference@) == Some(b.bytes@),
        forall|r: Seq<u8>|
            r != b.reference@ ==> #[trigger] store_find(s.push(b), r) == store_find(s, r),
    decreases s.len(),
{
    let t = s.push(b);
    if s.len() == 0 {
        assert(t[0] == b);
        assert(t.skip(1) =~= Seq::<Block>::empty());
        assert forall|r: Seq<u8>| r != b.reference@ implies #[trigger] store_find(t, r)
            == store_find(s, r) by {
            assert(store_find(t, r) == store_find(t.skip(1), r));
            assert(store_find(t.skip(1), r) == None::<Seq<u8>>);
        }
    } else {
        assert(t[0] == s[0]);
        assert(t.skip(1) =~= s.skip(1).push(b));
        lemma_store_find_push(s.skip(1), b);
        assert forall|r: Seq<u8>| r != b.reference@ implies #[trigger] store_find(t, r)
            == store_find(s, r) by {
            assert(store_find(s.skip(1).push(b), r) == store_find(s.skip(1), r));
            assert(store_find(t.skip(1), r) == store_find(s.skip(1), r));
        }
        assert(store_find(t, b.reference@) == store_find(t.skip(1), b.reference@));
    }
}

/// The block store collaborator: a content-addressed map from references to
/// byte blocks.
pub struct MemoryStore {
    pub blocks: Vec<Block>,
}

impl MemoryStore {
    /// Every block sits under the digest of its bytes.
    pub open spec fn wf(self) -> bool {
        forall|i: int|
            0 <= i < self.blocks@.len() ==> (#[trigger] self.blocks@[i].reference@) == sha256_of(
                self.blocks@[i].bytes@,
            )
    }

    /// The bytes stored under `r`, if any.
    pub open spec fn spec_get(self, r: Seq<u8>) -> Option<Seq<u8>> {
        store_find(self.blocks@, r)
    }

    /// An empty store.
    pub fn new() -> (r: MemoryStore)
        ensures
            r.wf(),
            r.blocks@.len() == 0,
            forall|k: Seq<u8>| #[trigger] r.spec_get(k) == None::<Seq<u8>>,
    {
        MemoryStore { blocks: Vec::new() }
    }

    /// Fetches a copy of the block named by `reference`.
    pub fn get(&self, reference: &Vec<u8>) -> (r: Option<Vec<u8>>)
        ensures
            match r {
                Some(b) => self.spec_get(reference@) == Some(b@),
                None => self.spec_get(reference@) == None::<Seq<u8>>,
            },
    {
        proof {
            assert(self.blocks@.skip(0) =~= self.blocks@);
        }
        let mut i: usize = 0;
        loop
            invariant
                i <= self.blocks.len(),
                store_find(self.blocks@, reference@) == store_find(
                    self.blocks@.skip(i as int),
                    reference@,
                ),
            decreases self.blocks.len() - i,
        {
            proof {
                let s = self.blocks@.skip(i as int);
                if i < self.blocks.len() {
                    assert(s[0] == self.blocks@[i as int]);
                    assert(s.skip(1) =~= self.blocks@.skip(i + 1));
                }
            }
            if i >= self.blocks.len() {
                return None;
            }
            if crate::bucket::keys_equal(&self.blocks[i].reference, reference) {
                return Some(copy_bytes(&self.blocks[i].bytes));
            }
            i = i + 1;
        }
    }

    /// Stores `bytes` under the digest of `bytes` and returns that reference.
    ///
    /// Re-putting a block that is already stored changes nothing. The one
    /// failure is a digest that already names different bytes; the store is
    /// then left unchanged.
    pub fn put(&mut self, bytes: Vec<u8>) -> (r: Result<Vec<u8>, Error>)
        requires
            old(self).wf(),
        ensures
            final(self).wf(),
            match r {
                Ok(reference) => {
                    &&& reference@ == sha256_of(bytes@)
                    &&& reference@.len() == 32
                    &&& (old(self).spec_get(reference@) is Some ==> old(self).spec_get(reference@)
                        == Some(bytes@))
                    &&& final(self).spec_get(reference@) == Some(bytes@)
                    &&& forall|r2: Seq<u8>|
                        r2 != reference@ ==> #[trigger] final(self).spec_get(r2) == old(
                            self,
                        ).spec_get(r2)
                },
                Err(e) => {
                    &&& e == Error::StorageError
                    &&& *final(self) == *old(self)
                    &&& match old(self).spec_get(sha256_of(bytes@)) {
                        Some(b2) => b2 != bytes@,
                        None => false,
                    }
                },
            },
    {
        let reference = hash_key(HashAlgorithm::Sha256, &bytes);
        let mut refv: Vec<u8> = Vec::new();
        let mut i: usize = 0;
        while i < 32
            invariant
                i <= 32,
                refv@ == reference@.take(i as int),
            decreases 32 - i,
        {
            refv.push(reference[i]);
            proof {
                assert(refv@ =~= reference@.take(i + 1));
            }
            i = i + 1;
        }
        proof {
            assert(refv@ =~= reference@);
        }
        match self.get(&refv) {
            Some(existing) => {
                if crate::bucket::keys_equal(&existing, &bytes) {
                    Ok(refv)
                } else {
                    Err(Error::StorageError)
                }
            },
            None => {
                let ghost s0 = self.blocks@;
                let block = Block { reference: refv, bytes };
                let ghost bg = block;
                let reference_out = copy_bytes(&block.reference);
                self.blocks.push(block);
                proof {
                    assert(self.blocks@ =~= s0.push(bg));
                    lemma_store_find_push(s0, bg);
                    assert(forall|m: int| 0 <= m < s0.len() ==> self.blocks@[m] == s0[m]);
                    assert(self.blocks@[s0.len() as int] == bg);
                }
                Ok(reference_out)
            },
        }
    }
}

/// Every reference bound in `s1` is bound to the same bytes in `s2`: the
/// store has only grown, and no reference was rebound.
pub open spec fn store_extends(s1: Seq<Block>, s2: Seq<Block>) -> bool {
    forall|r: Seq<u8>|
        store_find(s1, r) is Some ==> #[trigger] store_find(s2, r) == store_find(s1, r)
}

/// The store binds the digest of `bs` to different bytes: the one condition
/// under which a content-addressed write is refused.
pub open spec fn digest_collision(store: Seq<Block>, bs: Seq<u8>) -> bool {
    match store_find(store, sha256_of(bs)) {
        Some(b2) => b2 != bs,
        None => false,
    }
}

} // verus!
