//! The map facade: a persistent, content-addressed hash array mapped trie.
//!
//! A trie owns its root node, the hash selection, the bit width and the
//! bucket threshold, and tracks whether it has been mutated since the last
//! flush. `flush` serializes the dirty tree bottom-up — children before
//! parents, since a parent's block embeds its children's references — and
//! returns the new root reference. The reference is proven a function of the
//! root's model alone, so equal in-memory shapes always serialize to equal
//! references.
//!
//! Canonicalization policy, fixed and applied consistently: a bucket that
//! outgrows the threshold splits into a child level; deletion prunes empty
//! buckets and empty child nodes but never folds a surviving child level
//! back into a bucket. Under this policy the root reference is independent
//! of insertion order, and deleting everything restores the empty root; a
//! deletion that shrinks a previously split child to the threshold or below
//! keeps the split shape, so such a history can serialize differently from
//! a direct build of the same contents.

use vstd::prelude::*;

use crate::bucket::{copy_bytes, copy_pairs, Bucket, KeyValue};
use crate::codec::{
    enc_root, encodable_node, encode_node, parse_root, push_be64, push_bytes,
};
use crate::errors::Error;
use crate::hash::{hash_key, sha256_of, HashAlgorithm};
use crate::node::{count_ones, node_model, pairs_model, wf_model, Node, Pointer};
use crate::ops::{
    depth_ok, entries_node, mirrors, node_delete, node_entries, node_get, node_set, path_result,
};
use crate::store::{Block, MemoryStore};

verus! {

/// The trie: root node, configuration, and the mutation flag.
pub struct Trie {
    /// The root level of the trie.
    pub root: Node,
    /// The hash applied to caller keys.
    pub algo: HashAlgorithm,
    /// How many hash bits select a slot at each level.
    pub bit_width: u32,
    /// Bucket size above which a bucket splits into a child level.
    pub threshold: usize,
    /// Whether the trie was mutated since the last flush.
    pub dirty: bool,
    /// The reference returned by the last flush, or that the trie was
    /// loaded from.
    pub last_root: Option<Vec<u8>>,
}

impl Trie {
    /// Structural validity: admissible configuration, a well-formed root,
    /// and a root reference on hand whenever the trie is not dirty.
    pub open spec fn wf(self) -> bool {
        &&& depth_ok(self.bit_width as nat, 0)
        &&& self.threshold >= 1
        &&& wf_model(
            node_model(self.root, self.bit_width as nat, 0),
            self.bit_width as nat,
            0,
        )
        &&& !self.dirty ==> self.last_root is Some
    }

    /// What looking `k` up in this trie against `store` yields.
    pub open spec fn lookup(self, store: Seq<Block>, k: Seq<u8>) -> Result<
        Option<Seq<u8>>,
        Error,
    > {
        path_result(
            node_model(self.root, self.bit_width as nat, 0),
            store,
            self.algo,
            k,
            self.bit_width as nat,
            0,
        )
    }

    /// An empty trie. It is dirty: its root has never been written.
    pub fn new(algo: HashAlgorithm, bit_width: u32, threshold: usize) -> (r: Trie)
        requires
            1 <= bit_width <= 8,
            threshold >= 1,
        ensures
            r.wf(),
            r.dirty,
            r.algo == algo,
            r.bit_width == bit_width,
            r.threshold == threshold,
            forall|store: Seq<Block>, k: Seq<u8>| #[trigger] r.lookup(store, k) == Ok::<
                Option<Seq<u8>>,
                Error,
            >(None::<Seq<u8>>),
    {
        let root = Node::new_empty(bit_width);
        proof {
            crate::ops::lemma_empty_node_path(root, bit_width as nat, 0);
            crate::node::lemma_ptrs_model_index(root.pointers@, bit_width as nat, 0);
            assert forall|store: Seq<Block>, k: Seq<u8>| true implies #[trigger] path_result(
                node_model(root, bit_width as nat, 0),
                store,
                algo,
                k,
                bit_width as nat,
                0,
            ) == Ok::<Option<Seq<u8>>, Error>(None::<Seq<u8>>) by {
                crate::ops::lemma_no_pointers_empty(
                    node_model(root, bit_width as nat, 0),
                    store,
                    algo,
                    bit_width as nat,
                    0,
                );
            }
        }
        Trie { root, algo, bit_width, threshold, dirty: true, last_root: None }
    }

    /// Looks a key up; never mutates. Fails exactly when a block on the
    /// key's path cannot be fetched or parsed.
    pub fn get(&self, store: &MemoryStore, key: &Vec<u8>) -> (r: Result<Option<Vec<u8>>, Error>)
        requires
            self.wf(),
        ensures
            mirrors(r, self.lookup(store.blocks@, key@)),
    {
        let h = hash_key(self.algo, key);
        node_get(&self.root, store, self.algo, key, &h, self.bit_width, 0)
    }

    /// Binds `key` to `value` and marks the trie dirty; returns the value
    /// previously bound. On failure the trie still answers every key as
    /// before (it may merely have resolved stored children in place).
    pub fn set(&mut self, store: &MemoryStore, key: Vec<u8>, value: Vec<u8>) -> (r: Result<
        Option<Vec<u8>>,
        Error,
    >)
        requires
            old(self).wf(),
        ensures
            final(self).wf(),
            final(self).dirty,
            final(self).algo == old(self).algo,
            final(self).bit_width == old(self).bit_width,
            final(self).threshold == old(self).threshold,
            match r {
                Ok(prev) => {
                    &&& final(self).lookup(store.blocks@, key@) == Ok::<Option<Seq<u8>>, Error>(
                        Some(value@),
                    )
                    &&& forall|k2: Seq<u8>|
                        k2 != key@ ==> #[trigger] final(self).lookup(store.blocks@, k2) == old(
                            self,
                        ).lookup(store.blocks@, k2)
                    &&& match prev {
                        Some(pv) => old(self).lookup(store.blocks@, key@) == Ok::<
                            Option<Seq<u8>>,
                            Error,
                        >(Some(pv@)),
                        None => old(self).lookup(store.blocks@, key@) == Ok::<
                            Option<Seq<u8>>,
                            Error,
                        >(None::<Seq<u8>>),
                    }
                },
                Err(e) => {
                    &&& (e == Error::StorageError || e == Error::DecodeError)
                    &&& old(self).lookup(store.blocks@, key@) == Err::<Option<Seq<u8>>, Error>(e)
                    &&& forall|k2: Seq<u8>| #[trigger] final(self).lookup(store.blocks@, k2)
                        == old(self).lookup(store.blocks@, k2)
                },
            },
    {
        let h = hash_key(self.algo, &key);
        let mut taken = Node::new_empty(self.bit_width);
        core::mem::swap(&mut self.root, &mut taken);
        self.dirty = true;
        match node_set(
            taken,
            store,
            self.algo,
            key,
            &h,
            value,
            self.bit_width,
            self.threshold,
            0,
        ) {
            Ok((n2, prev)) => {
                self.root = n2;
                Ok(prev)
            },
            Err((n2, e)) => {
                self.root = n2;
                Err(e)
            },
        }
    }

    /// Removes the binding of `key`; marks the trie dirty only when a pair
    /// was actually removed. Deleting an absent key changes nothing. Empty
    /// buckets and empty child levels are pruned; a child level that still
    /// holds pairs is kept as it is, never folded back into a bucket.
    pub fn delete(&mut self, store: &MemoryStore, key: &Vec<u8>) -> (r: Result<
        Option<Vec<u8>>,
        Error,
    >)
        requires
            old(self).wf(),
        ensures
            final(self).wf(),
            final(self).algo == old(self).algo,
            final(self).bit_width == old(self).bit_width,
            final(self).threshold == old(self).threshold,
            match r {
                Ok(removed) => {
                    &&& final(self).lookup(store.blocks@, key@) == Ok::<Option<Seq<u8>>, Error>(
                        None::<Seq<u8>>,
                    )
                    &&& forall|k2: Seq<u8>|
                        k2 != key@ ==> #[trigger] final(self).lookup(store.blocks@, k2) == old(
                            self,
                        ).lookup(store.blocks@, k2)
                    &&& final(self).dirty == (old(self).dirty || removed is Some)
                    &&& match removed {
                        Some(pv) => old(self).lookup(store.blocks@, key@) == Ok::<
                            Option<Seq<u8>>,
                            Error,
                        >(Some(pv@)),
                        None => old(self).lookup(store.blocks@, key@) == Ok::<
                            Option<Seq<u8>>,
                            Error,
                        >(None::<Seq<u8>>),
                    }
                },
                Err(e) => {
                    &&& (e == Error::StorageError || e == Error::DecodeError)
                    &&& old(self).lookup(store.blocks@, key@) == Err::<Option<Seq<u8>>, Error>(e)
                    &&& final(self).dirty
                    &&& forall|k2: Seq<u8>| #[trigger] final(self).lookup(store.blocks@, k2)
                        == old(self).lookup(store.blocks@, k2)
                },
            },
    {
        let h = hash_key(self.algo, key);
        let mut taken = Node::new_empty(self.bit_width);
        core::mem::swap(&mut self.root, &mut taken);
        match node_delete(taken, store, self.algo, key, &h, self.bit_width, self.threshold, 0) {
            Ok((n2, removed)) => {
                self.root = n2;
                if removed.is_some() {
                    self.dirty = true;
                }
                Ok(removed)
            },
            Err((n2, e)) => {
                self.root = n2;
                self.dirty = true;
                Err(e)
            },
        }
    }
}

/// Copies a run of slot flags.
fn copy_bools(v: &Vec<bool>) -> (r: Vec<bool>)
    ensures
        r@ == v@,
{
    let mut out: Vec<bool> = Vec::new();
    let mut i: usize = 0;
    while i < v.len()
        invariant
            i <= v.len(),
            out@ == v@.take(i as int),
        decreases v.len() - i,
    {
        out.push(v[i]);
        proof {
            assert(out@ =~= v@.take(i + 1));
        }
        i = i + 1;
    }
    proof {
        assert(v@.take(v@.len() as int) =~= v@);
    }
    out
}

/// Serializes every loaded child bottom-up, writes each child's block, and
/// returns a copy of the node in which every child is a reference or an
/// embedded bucket. The store only ever grows; references it already binds
/// keep their blocks.
fn flush_node(n: &Node, store: &mut MemoryStore, w: u32, d: u32) -> (r: Result<Node, Error>)
    requires
        depth_ok(w as nat, d as nat),
        wf_model(node_model(*n, w as nat, d as nat), w as nat, d as nat),
        old(store).wf(),
    ensures
        final(store).wf(),
        forall|r2: Seq<u8>|
            old(store).spec_get(r2) is Some ==> #[trigger] final(store).spec_get(r2) == old(
                store,
            ).spec_get(r2),
        match r {
            Ok(n2) => {
                &&& encodable_node(n2)
                &&& wf_model(node_model(n2, w as nat, d as nat), w as nat, d as nat)
                &&& node_model(n2, w as nat, d as nat).bitmap == node_model(
                    *n,
                    w as nat,
                    d as nat,
                ).bitmap
                &&& forall|algo: HashAlgorithm, k: Seq<u8>|
                    path_result(
                        node_model(*n, w as nat, d as nat),
                        old(store).blocks@,
                        algo,
                        k,
                        w as nat,
                        d as nat,
                    ) is Ok ==> #[trigger] path_result(
                        node_model(n2, w as nat, d as nat),
                        final(store).blocks@,
                        algo,
                        k,
                        w as nat,
                        d as nat,
                    ) == path_result(
                        node_model(*n, w as nat, d as nat),
                        old(store).blocks@,
                        algo,
                        k,
                        w as nat,
                        d as nat,
                    )
            },
            Err(e) => e == Error::StorageError && exists|bs: Seq<u8>|
                crate::store::digest_collision(final(store).blocks@, bs),
        },
    decreases 256 - d,
{
    let ghost wn = w as nat;
    let ghost dn = d as nat;
    let ghost m = node_model(*n, wn, dn);
    proof {
        crate::node::lemma_ptrs_model_index(n.pointers@, wn, dn);
        crate::node::lemma_wf_ptrs_index(m.pointers, wn, dn);
    }
    let bitmap = copy_bools(&n.bitmap);
    let mut pointers: Vec<Pointer> = Vec::new();
    let mut i: usize = 0;
    while i < n.pointers.len()
        invariant
            wn == w as nat,
            dn == d as nat,
            depth_ok(wn, dn),
            i <= n.pointers@.len(),
            pointers@.len() == i,
            store.wf(),
            wf_model(m, wn, dn),
            m == node_model(*n, wn, dn),
            m.pointers.len() == n.pointers@.len(),
            forall|j: int|
                0 <= j < n.pointers@.len() ==> #[trigger] m.pointers[j]
                    == crate::node::ptr_model(n.pointers@[j], wn, dn),
            forall|j: int|
                0 <= j < n.pointers@.len() ==> crate::node::wf_ptr(
                    #[trigger] m.pointers[j],
                    wn,
                    dn,
                ),
            forall|r2: Seq<u8>|
                old(store).spec_get(r2) is Some ==> #[trigger] store.spec_get(r2) == old(
                    store,
                ).spec_get(r2),
            forall|j: int|
                0 <= j < i ==> crate::codec::encodable_ptr(#[trigger] pointers@[j]),
            forall|j: int|
                0 <= j < i ==> crate::node::wf_ptr(
                    crate::node::ptr_model(#[trigger] pointers@[j], wn, dn),
                    wn,
                    dn,
                ),
            forall|j: int, algo: HashAlgorithm, k: Seq<u8>|
                0 <= j < i && crate::ops::ptr_result(
                    m.pointers[j],
                    old(store).blocks@,
                    algo,
                    k,
                    wn,
                    dn,
                ) is Ok ==> #[trigger] crate::ops::ptr_result(
                    crate::node::ptr_model(pointers@[j], wn, dn),
                    store.blocks@,
                    algo,
                    k,
                    wn,
                    dn,
                ) == crate::ops::ptr_result(m.pointers[j], old(store).blocks@, algo, k, wn, dn),
        decreases n.pointers@.len() - i,
    {
        let ghost pmi = m.pointers[i as int];
        let ghost store_entry = *store;
        let ghost oldb = old(store).blocks@;
        proof {
            assert(pmi == crate::node::ptr_model(n.pointers@[i as int], wn, dn));
            assert(crate::node::wf_ptr(pmi, wn, dn));
            assert(crate::store::store_extends(oldb, store.blocks@)) by {
                assert forall|r2: Seq<u8>| crate::store::store_find(oldb, r2) is Some
                    implies #[trigger] crate::store::store_find(store.blocks@, r2)
                    == crate::store::store_find(oldb, r2) by {
                    assert(old(store).spec_get(r2) is Some);
                    assert(store.spec_get(r2) == old(store).spec_get(r2));
                }
            }
        }
        let newptr: Pointer = match &n.pointers[i] {
            Pointer::Link { reference } => {
                proof {
                    assert(pmi == crate::node::PointerModel::Link { reference: reference@ });
                }
                let out = Pointer::Link { reference: copy_bytes(reference) };
                proof {
                    let pmn = crate::node::ptr_model(out, wn, dn);
                    assert(pmn == pmi);
                    assert forall|algo: HashAlgorithm, k: Seq<u8>|
                        crate::ops::ptr_result(pmi, oldb, algo, k, wn, dn) is Ok
                        implies #[trigger] crate::ops::ptr_result(
                        pmn,
                        store.blocks@,
                        algo,
                        k,
                        wn,
                        dn,
                    ) == crate::ops::ptr_result(pmi, oldb, algo, k, wn, dn) by {
                        crate::ops::lemma_ptr_store_extend(
                            pmi,
                            oldb,
                            store.blocks@,
                            algo,
                            k,
                            wn,
                            dn,
                        );
                    }
                    assert(crate::store::store_extends(store_entry.blocks@, store.blocks@));
                }
                out
            },
            Pointer::Values { bucket } => {
                proof {
                    assert(pmi == crate::node::PointerModel::Values {
                        pairs: pairs_model(bucket.pairs@),
                    });
                }
                let pairs = copy_pairs(&bucket.pairs);
                proof {
                    crate::node::lemma_sorted_model_bridge(pairs@);
                }
                let out = Pointer::Values { bucket: Bucket { pairs } };
                proof {
                    let pmn = crate::node::ptr_model(out, wn, dn);
                    assert(pmn == pmi);
                    assert forall|algo: HashAlgorithm, k: Seq<u8>|
                        crate::ops::ptr_result(pmi, oldb, algo, k, wn, dn) is Ok
                        implies #[trigger] crate::ops::ptr_result(
                        pmn,
                        store.blocks@,
                        algo,
                        k,
                        wn,
                        dn,
                    ) == crate::ops::ptr_result(pmi, oldb, algo, k, wn, dn) by {}
                    assert(crate::store::store_extends(store_entry.blocks@, store.blocks@));
                }
                out
            },
            Pointer::Dirty { node } => {
                proof {
                    assert((dn + 1) * wn < 256 && wn >= 1 && dn < 256) by {
                        if !(dn < 256 && (dn + 1) * wn < 256 && wn >= 1) {
                            assert(pmi == crate::node::PointerModel::Link {
                                reference: Seq::empty(),
                            });
                        }
                    }
                    assert(dn + 1 <= (dn + 1) * wn) by (nonlinear_arith)
                        requires
                            wn >= 1 && dn >= 0,
                    ;
                }
                let ghost childm = node_model(**node, wn, (d + 1) as nat);
                let ghost store_a = *store;
                let clean_child = match flush_node(node, store, w, d + 1) {
                    Err(e) => {
                        proof {
                            assert forall|r2: Seq<u8>| old(store).spec_get(r2) is Some
                                implies #[trigger] store.spec_get(r2) == old(store).spec_get(
                                r2,
                            ) by {
                                assert(store_a.spec_get(r2) == old(store).spec_get(r2));
                            }
                        }
                        return Err(e);
                    },
                    Ok(clean_child) => clean_child,
                };
                let ghost cleanm = node_model(clean_child, wn, (d + 1) as nat);
                proof {
                    assert forall|r2: Seq<u8>| old(store).spec_get(r2) is Some
                        implies #[trigger] store.spec_get(r2) == old(store).spec_get(r2) by {
                        assert(store_a.spec_get(r2) == old(store).spec_get(r2));
                    }
                }
                let bytes = encode_node(&clean_child);
                let ghost store_b = *store;
                proof {
                    assert(bytes@ == crate::codec::enc_node(cleanm));
                    // The serialized child parses back to its own model.
                    crate::node::lemma_ptrs_model_index(
                        clean_child.pointers@,
                        wn,
                        (d + 1) as nat,
                    );
                    assert(crate::node::is_clean(cleanm)) by {
                        assert forall|j: int| 0 <= j < cleanm.pointers.len() implies !((
                        #[trigger] cleanm.pointers[j]) is Dirty) by {
                            assert(cleanm.pointers[j] == crate::node::ptr_model(
                                clean_child.pointers@[j],
                                wn,
                                (d + 1) as nat,
                            ));
                            assert(crate::codec::encodable_ptr(clean_child.pointers@[j]));
                        }
                    }
                    assert forall|j: int| 0 <= j < cleanm.pointers.len()
                        implies crate::codec::bounded_ptr(#[trigger] cleanm.pointers[j]) by {
                        assert(cleanm.pointers[j] == crate::node::ptr_model(
                            clean_child.pointers@[j],
                            wn,
                            (d + 1) as nat,
                        ));
                        assert(crate::codec::encodable_ptr(clean_child.pointers@[j]));
                    }
                    crate::codec::lemma_parse_node_round(cleanm, wn, (d + 1) as nat);
                }
                match store.put(bytes) {
                    Err(e) => {
                        proof {
                            assert(crate::store::digest_collision(store.blocks@, bytes@));
                        }
                        return Err(e);
                    },
                    Ok(reference) => {
                        proof {
                            assert forall|r2: Seq<u8>| old(store).spec_get(r2) is Some
                                implies #[trigger] store.spec_get(r2) == old(store).spec_get(
                                r2,
                            ) by {
                                assert(store_b.spec_get(r2) == old(store).spec_get(r2));
                                if r2 == reference@ {
                                    assert(store_b.spec_get(r2) is Some);
                                }
                            }
                        }
                        let out = Pointer::Link { reference };
                        proof {
                            let pmn = crate::node::ptr_model(out, wn, dn);
                            let curb = store.blocks@;
                            assert(crate::store::store_extends(store_a.blocks@, store_b.blocks@))
                                by {
                                assert forall|r2: Seq<u8>|
                                    crate::store::store_find(store_a.blocks@, r2) is Some
                                    implies #[trigger] crate::store::store_find(
                                    store_b.blocks@,
                                    r2,
                                ) == crate::store::store_find(store_a.blocks@, r2) by {
                                    assert(store_a.spec_get(r2) is Some);
                                    assert(store_b.spec_get(r2) == store_a.spec_get(r2));
                                }
                            }
                            assert(crate::store::store_extends(store_b.blocks@, curb)) by {
                                assert forall|r2: Seq<u8>|
                                    crate::store::store_find(store_b.blocks@, r2) is Some
                                    implies #[trigger] crate::store::store_find(curb, r2)
                                    == crate::store::store_find(store_b.blocks@, r2) by {
                                    if r2 == reference@ {
                                        assert(store_b.spec_get(r2) is Some);
                                        assert(store_b.spec_get(r2) == Some(bytes@));
                                        assert(store.spec_get(r2) == Some(bytes@));
                                    } else {
                                        assert(store.spec_get(r2) == store_b.spec_get(r2));
                                    }
                                }
                            }
                            assert(crate::store::store_extends(oldb, store_a.blocks@)) by {
                                assert forall|r2: Seq<u8>|
                                    crate::store::store_find(oldb, r2) is Some
                                    implies #[trigger] crate::store::store_find(
                                    store_a.blocks@,
                                    r2,
                                ) == crate::store::store_find(oldb, r2) by {
                                    assert(old(store).spec_get(r2) is Some);
                                    assert(store_a.spec_get(r2) == old(store).spec_get(r2));
                                }
                            }
                            assert forall|algo: HashAlgorithm, k: Seq<u8>|
                                crate::ops::ptr_result(pmi, oldb, algo, k, wn, dn) is Ok
                                implies #[trigger] crate::ops::ptr_result(
                                pmn,
                                curb,
                                algo,
                                k,
                                wn,
                                dn,
                            ) == crate::ops::ptr_result(pmi, oldb, algo, k, wn, dn) by {
                                assert(pmi == crate::node::PointerModel::Dirty {
                                    node: Box::new(childm),
                                });
                                let val = crate::ops::ptr_result(pmi, oldb, algo, k, wn, dn);
                                assert(val == crate::ops::path_result(
                                    childm,
                                    oldb,
                                    algo,
                                    k,
                                    wn,
                                    (d + 1) as nat,
                                ));
                                crate::ops::lemma_path_store_extend(
                                    childm,
                                    oldb,
                                    store_a.blocks@,
                                    algo,
                                    k,
                                    wn,
                                    (d + 1) as nat,
                                );
                                assert(crate::ops::path_result(
                                    cleanm,
                                    store_b.blocks@,
                                    algo,
                                    k,
                                    wn,
                                    (d + 1) as nat,
                                ) == val);
                                crate::ops::lemma_path_store_extend(
                                    cleanm,
                                    store_b.blocks@,
                                    curb,
                                    algo,
                                    k,
                                    wn,
                                    (d + 1) as nat,
                                );
                                assert(crate::store::store_find(curb, reference@) == Some(
                                    bytes@,
                                ));
                                assert(crate::codec::parse_node(bytes@, wn) == Some(cleanm));
                            }
                            assert(store_entry == store_a);
                            assert(crate::store::store_extends(store_entry.blocks@, curb)) by {
                                assert forall|r2: Seq<u8>|
                                    crate::store::store_find(store_entry.blocks@, r2) is Some
                                    implies #[trigger] crate::store::store_find(curb, r2)
                                    == crate::store::store_find(store_entry.blocks@, r2) by {
                                    assert(crate::store::store_find(store_b.blocks@, r2)
                                        == crate::store::store_find(store_a.blocks@, r2));
                                    assert(crate::store::store_find(curb, r2)
                                        == crate::store::store_find(store_b.blocks@, r2));
                                }
                            }
                        }
                        out
                    },
                }
            },
        };
        proof {
            assert(crate::codec::encodable_ptr(newptr));
            assert(crate::node::wf_ptr(crate::node::ptr_model(newptr, wn, dn), wn, dn));
            // Carry the already-rewritten pointers' answers across the store
            // growth of this round; every arm established the extension.
            assert(crate::store::store_extends(store_entry.blocks@, store.blocks@));
            assert forall|j: int, algo: HashAlgorithm, k: Seq<u8>|
                0 <= j < i + 1 && crate::ops::ptr_result(
                    m.pointers[j],
                    oldb,
                    algo,
                    k,
                    wn,
                    dn,
                ) is Ok implies #[trigger] crate::ops::ptr_result(
                crate::node::ptr_model(pointers@.push(newptr)[j], wn, dn),
                store.blocks@,
                algo,
                k,
                wn,
                dn,
            ) == crate::ops::ptr_result(m.pointers[j], oldb, algo, k, wn, dn) by {
                if j < i {
                    assert(pointers@.push(newptr)[j] == pointers@[j]);
                    assert(crate::ops::ptr_result(
                        crate::node::ptr_model(pointers@[j], wn, dn),
                        store_entry.blocks@,
                        algo,
                        k,
                        wn,
                        dn,
                    ) == crate::ops::ptr_result(m.pointers[j], oldb, algo, k, wn, dn));
                    crate::ops::lemma_ptr_store_extend(
                        crate::node::ptr_model(pointers@[j], wn, dn),
                        store_entry.blocks@,
                        store.blocks@,
                        algo,
                        k,
                        wn,
                        dn,
                    );
                } else {
                    assert(pointers@.push(newptr)[j] == newptr);
                }
            }
        }
        pointers.push(newptr);
        i = i + 1;
    }
    let n2 = Node { bitmap, pointers };
    proof {
        let m2 = node_model(n2, wn, dn);
        let oldb = old(store).blocks@;
        crate::node::lemma_ptrs_model_index(n2.pointers@, wn, dn);
        assert(m2.bitmap == m.bitmap);
        assert(wf_model(m2, wn, dn)) by {
            assert forall|j: int| 0 <= j < m2.pointers.len() implies crate::node::wf_ptr(
                #[trigger] m2.pointers[j],
                wn,
                dn,
            ) by {
                assert(m2.pointers[j] == crate::node::ptr_model(n2.pointers@[j], wn, dn));
            }
            crate::node::lemma_wf_ptrs_build(m2.pointers, wn, dn);
        }
        assert forall|algo: HashAlgorithm, k: Seq<u8>|
            path_result(m, oldb, algo, k, wn, dn) is Ok implies #[trigger] path_result(
            m2,
            store.blocks@,
            algo,
            k,
            wn,
            dn,
        ) == path_result(m, oldb, algo, k, wn, dn) by {
            let idx = crate::ops::slot_of(algo, k, wn, dn) as int;
            if 0 <= idx < m.bitmap.len() && m.bitmap[idx] {
                let rank = count_ones(m.bitmap, idx) as int;
                crate::node::lemma_count_mono(m.bitmap, idx, m.bitmap.len() as int);
                assert(m2.pointers[rank] == crate::node::ptr_model(n2.pointers@[rank], wn, dn));
                assert(path_result(m, oldb, algo, k, wn, dn) == crate::ops::ptr_result(
                    m.pointers[rank],
                    oldb,
                    algo,
                    k,
                    wn,
                    dn,
                ));
                assert(crate::ops::ptr_result(
                    crate::node::ptr_model(n2.pointers@[rank], wn, dn),
                    store.blocks@,
                    algo,
                    k,
                    wn,
                    dn,
                ) == crate::ops::ptr_result(m.pointers[rank], oldb, algo, k, wn, dn));
            }
        }
    }
    Ok(n2)
}

impl Trie {
    /// Serializes every dirty node bottom-up, writes the blocks, and returns
    /// the new root reference; clears the dirty flag. Children are written
    /// before the parent that references them, and every lookup the trie
    /// resolved before the flush resolves to the same answer against the
    /// grown store afterwards — a returned reference never leads to an
    /// unwritten block. Flushing an unmutated trie returns the reference of
    /// the last flush and writes nothing, and a clean flush cannot fail. A
    /// dirty flush fails only when the store already binds some block's
    /// digest to different bytes; the trie, its dirty state included, is
    /// then unchanged and the flush can be retried.
    pub fn flush(&mut self, store: &mut MemoryStore) -> (r: Result<Vec<u8>, Error>)
        requires
            old(self).wf(),
            old(store).wf(),
        ensures
            final(self).wf(),
            final(store).wf(),
            final(self).algo == old(self).algo,
            final(self).bit_width == old(self).bit_width,
            final(self).threshold == old(self).threshold,
            forall|r2: Seq<u8>|
                old(store).spec_get(r2) is Some ==> #[trigger] final(store).spec_get(r2) == old(
                    store,
                ).spec_get(r2),
            !old(self).dirty ==> r is Ok,
            match r {
                Ok(reference) => {
                    &&& !final(self).dirty
                    &&& final(self).last_root is Some
                    &&& final(self).last_root->Some_0@ == reference@
                    &&& forall|k: Seq<u8>|
                        old(self).lookup(old(store).blocks@, k) is Ok
                            ==> #[trigger] final(self).lookup(final(store).blocks@, k) == old(
                            self,
                        ).lookup(old(store).blocks@, k)
                    &&& !old(self).dirty ==> *final(self) == *old(self) && *final(store) == *old(
                        store,
                    ) && old(self).last_root->Some_0@ == reference@
                    &&& old(self).dirty ==> {
                        &&& reference@ == sha256_of(
                            enc_root(
                                old(self).bit_width as u8,
                                old(self).threshold as u64,
                                node_model(
                                    final(self).root,
                                    old(self).bit_width as nat,
                                    0,
                                ),
                            ),
                        )
                        &&& final(store).spec_get(reference@) == Some(
                            enc_root(
                                old(self).bit_width as u8,
                                old(self).threshold as u64,
                                node_model(final(self).root, old(self).bit_width as nat, 0),
                            ),
                        )
                        &&& encodable_node(final(self).root)
                        &&& parse_root(
                            enc_root(
                                old(self).bit_width as u8,
                                old(self).threshold as u64,
                                node_model(final(self).root, old(self).bit_width as nat, 0),
                            ),
                        ) == Some(
                            (
                                old(self).bit_width as u8,
                                old(self).threshold as u64,
                                node_model(final(self).root, old(self).bit_width as nat, 0),
                            ),
                        )
                    }
                },
                Err(e) => {
                    &&& e == Error::StorageError
                    &&& *final(self) == *old(self)
                    &&& exists|bs: Seq<u8>|
                        crate::store::digest_collision(final(store).blocks@, bs)
                },
            },
    {
        match &self.last_root {
            Some(reference) if !self.dirty => {
                let out = copy_bytes(reference);
                return Ok(out);
            },
            _ => {
                proof {
                    if !self.dirty {
                        assert(self.last_root is Some);
                        assert(false);
                    }
                }
            },
        }
        let clean = match flush_node(&self.root, store, self.bit_width, 0) {
            Ok(clean) => clean,
            Err(e) => {
                return Err(e);
            },
        };
        let body = encode_node(&clean);
        let mut block: Vec<u8> = Vec::new();
        block.push(self.bit_width as u8);
        push_be64(&mut block, self.threshold as u64);
        push_bytes(&mut block, &body);
        proof {
            let m2 = node_model(clean, self.bit_width as nat, 0);
            assert(body@ == crate::codec::enc_node(m2));
            assert(block@ =~= enc_root(
                self.bit_width as u8,
                self.threshold as u64,
                m2,
            ));
        }
        proof {
            let m2 = node_model(clean, self.bit_width as nat, 0);
            crate::node::lemma_ptrs_model_index(clean.pointers@, self.bit_width as nat, 0);
            assert(crate::node::is_clean(m2)) by {
                assert forall|j: int| 0 <= j < m2.pointers.len() implies !((
                #[trigger] m2.pointers[j]) is Dirty) by {
                    assert(m2.pointers[j] == crate::node::ptr_model(
                        clean.pointers@[j],
                        self.bit_width as nat,
                        0,
                    ));
                    assert(crate::codec::encodable_ptr(clean.pointers@[j]));
                }
            }
            assert forall|j: int| 0 <= j < m2.pointers.len()
                implies crate::codec::bounded_ptr(#[trigger] m2.pointers[j]) by {
                assert(m2.pointers[j] == crate::node::ptr_model(
                    clean.pointers@[j],
                    self.bit_width as nat,
                    0,
                ));
                assert(crate::codec::encodable_ptr(clean.pointers@[j]));
            }
            crate::codec::lemma_parse_root_round(
                self.bit_width as u8,
                self.threshold as u64,
                m2,
            );
        }
        let ghost store_afn = *store;
        let ghost blockg = block@;
        let reference = match store.put(block) {
            Ok(reference) => reference,
            Err(e) => {
                proof {
                    assert(crate::store::digest_collision(store.blocks@, blockg));
                }
                return Err(e);
            },
        };
        proof {
            let wn = self.bit_width as nat;
            let m0 = node_model(old(self).root, wn, 0);
            let m2 = node_model(clean, wn, 0);
            assert(crate::store::store_extends(store_afn.blocks@, store.blocks@)) by {
                assert forall|r2: Seq<u8>|
                    crate::store::store_find(store_afn.blocks@, r2) is Some
                    implies #[trigger] crate::store::store_find(store.blocks@, r2)
                    == crate::store::store_find(store_afn.blocks@, r2) by {
                    if r2 == reference@ {
                        assert(store_afn.spec_get(r2) is Some);
                        assert(store_afn.spec_get(r2) == Some(blockg));
                        assert(store.spec_get(r2) == Some(blockg));
                    } else {
                        assert(store.spec_get(r2) == store_afn.spec_get(r2));
                    }
                }
            }
            assert forall|k: Seq<u8>|
                path_result(m0, old(store).blocks@, old(self).algo, k, wn, 0) is Ok
                implies #[trigger] path_result(m2, store.blocks@, old(self).algo, k, wn, 0)
                == path_result(m0, old(store).blocks@, old(self).algo, k, wn, 0) by {
                assert(path_result(m2, store_afn.blocks@, old(self).algo, k, wn, 0)
                    == path_result(m0, old(store).blocks@, old(self).algo, k, wn, 0));
                crate::ops::lemma_path_store_extend(
                    m2,
                    store_afn.blocks@,
                    store.blocks@,
                    old(self).algo,
                    k,
                    wn,
                    0,
                );
            }
        }
        self.root = clean;
        self.dirty = false;
        let out = copy_bytes(&reference);
        self.last_root = Some(reference);
        Ok(out)
    }

    /// Reconstructs a trie from the root reference of an earlier flush. The
    /// block records the bit width and bucket threshold; the hash selection
    /// is the caller's, as it is not part of the serialized form.
    pub fn load(store: &MemoryStore, reference: &Vec<u8>, algo: HashAlgorithm) -> (r: Result<
        Trie,
        Error,
    >)
        ensures
            match r {
                Ok(t) => {
                    &&& t.wf()
                    &&& !t.dirty
                    &&& t.algo == algo
                    &&& t.last_root is Some
                    &&& t.last_root->Some_0@ == reference@
                    &&& store.spec_get(reference@) is Some
                    &&& parse_root(store.spec_get(reference@)->Some_0) is Some
                    &&& parse_root(store.spec_get(reference@)->Some_0)->Some_0.0 == t.bit_width as u8
                    &&& parse_root(store.spec_get(reference@)->Some_0)->Some_0.1
                        == t.threshold as u64
                    &&& parse_root(store.spec_get(reference@)->Some_0)->Some_0.2 == node_model(
                        t.root,
                        t.bit_width as nat,
                        0,
                    )
                },
                Err(Error::StorageError) => store.spec_get(reference@) is None,
                Err(Error::DecodeError) => store.spec_get(reference@) is Some && (parse_root(
                    store.spec_get(reference@)->Some_0,
                ) is None || parse_root(store.spec_get(reference@)->Some_0)->Some_0.1
                    > usize::MAX),
                Err(_) => false,
            },
    {
        let bytes = match store.get(reference) {
            None => {
                return Err(Error::StorageError);
            },
            Some(bytes) => bytes,
        };
        match crate::codec::decode_root(&bytes) {
            None => Err(Error::DecodeError),
            Some((w, t, root)) => {
                if t > usize::MAX as u64 {
                    return Err(Error::DecodeError);
                }
                let threshold: usize = t as usize;
                let out_ref = copy_bytes(reference);
                proof {
                    assert(0 * (w as nat) < 256) by (nonlinear_arith);
                }
                Ok(
                    Trie {
                        root,
                        algo,
                        bit_width: w,
                        threshold,
                        dirty: false,
                        last_root: Some(out_ref),
                    },
                )
            },
        }
    }
}


impl Trie {
    /// The pairs of the trie in traversal order: depth-first, ascending slot
    /// index at each level.
    pub open spec fn spec_entries(self, store: Seq<Block>) -> Result<
        Seq<(Seq<u8>, Seq<u8>)>,
        Error,
    > {
        entries_node(
            node_model(self.root, self.bit_width as nat, 0),
            store,
            self.bit_width as nat,
            0,
        )
    }

    /// Collects every pair, depth-first in ascending slot order, loading
    /// stored children as needed; never mutates. Fails exactly when a block
    /// of the trie is missing or malformed.
    pub fn entries(&self, store: &MemoryStore) -> (r: Result<Vec<KeyValue>, Error>)
        requires
            self.wf(),
        ensures
            match r {
                Ok(v) => self.spec_entries(store.blocks@) == Ok::<Seq<(Seq<u8>, Seq<u8>)>, Error>(
                    pairs_model(v@),
                ),
                Err(e) => self.spec_entries(store.blocks@) == Err::<
                    Seq<(Seq<u8>, Seq<u8>)>,
                    Error,
                >(e),
            },
    {
        node_entries(&self.root, store, self.bit_width, 0)
    }
}


impl Trie {
    /// Resumes a paginated traversal: the pairs that follow the first pair
    /// holding `resume`, in the same traversal order as `entries`; empty
    /// when `resume` was never yielded. Never mutates.
    pub fn entries_after(&self, store: &MemoryStore, resume: &Vec<u8>) -> (r: Result<
        Vec<KeyValue>,
        Error,
    >)
        requires
            self.wf(),
        ensures
            match r {
                Ok(v) => self.spec_entries(store.blocks@) is Ok && pairs_model(v@)
                    == crate::ops::after_key(
                    self.spec_entries(store.blocks@)->Ok_0,
                    resume@,
                ),
                Err(e) => self.spec_entries(store.blocks@) == Err::<
                    Seq<(Seq<u8>, Seq<u8>)>,
                    Error,
                >(e),
            },
    {
        let mut all = match self.entries(store) {
            Ok(all) => all,
            Err(e) => {
                return Err(e);
            },
        };
        let ghost s0 = pairs_model(all@);
        loop
            invariant
                self.spec_entries(store.blocks@) == Ok::<Seq<(Seq<u8>, Seq<u8>)>, Error>(s0),
                crate::ops::after_key(s0, resume@) == crate::ops::after_key(
                    pairs_model(all@),
                    resume@,
                ),
            decreases all@.len(),
        {
            proof {
                let cur = pairs_model(all@);
                if all@.len() > 0 {
                    assert(cur[0] == (all@[0].key@, all@[0].value@));
                    assert(cur.skip(1) =~= pairs_model(all@.skip(1)));
                }
            }
            if all.len() == 0 {
                proof {
                    assert(pairs_model(all@) =~= Seq::<(Seq<u8>, Seq<u8>)>::empty());
                    assert(crate::ops::after_key(pairs_model(all@), resume@) =~= pairs_model(
                        all@,
                    ));
                }
                return Ok(all);
            }
            let hit = crate::bucket::keys_equal(&all[0].key, resume);
            let ghost before = all@;
            let _dropped = all.remove(0);
            proof {
                assert(all@ =~= before.skip(1));
            }
            if hit {
                return Ok(all);
            }
        }
    }
}

} // verus!
