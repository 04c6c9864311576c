//! Navigation semantics and the node-level operations.
//!
//! `path_result` walks a model node by the key's hash bits: it returns the
//! value found, absence, or the exact error that resolving an unloaded child
//! against the store produces. The executable get, set and delete mirror it.

use vstd::prelude::*;
use vstd::arithmetic::power2::pow2;

use crate::bucket::{Bucket, KeyValue};
use crate::codec::parse_node;
use crate::errors::Error;
use crate::hash::{hash_of, HashAlgorithm};
use crate::hash_bits::{bits_value, take_len, HashBits, HashedKey};
use crate::node::{
    count_ones, find_model, node_model, pairs_model, wf_model, wf_ptr, Node, NodeModel, Pointer,
    PointerModel,
};
use crate::store::{store_extends, store_find, Block, MemoryStore};

verus! {

/// The slot a key selects at depth `d`: its next `w` hash bits (fewer when
/// the hash is nearly exhausted).
pub open spec fn slot_of(algo: HashAlgorithm, k: Seq<u8>, w: nat, d: nat) -> nat {
    bits_value(hash_of(algo, k), d * w, take_len(w, d * w))
}

/// What looking `k` up below the model node `m` at depth `d` yields:
/// the value, absence, or the error that resolving a stored child produces.
pub open spec fn path_result(
    m: NodeModel,
    store: Seq<Block>,
    algo: HashAlgorithm,
    k: Seq<u8>,
    w: nat,
    d: nat,
) -> Result<Option<Seq<u8>>, Error>
    decreases 256 - d, 2int, 0int,
{
    if d >= 256 || d * w >= 256 || w < 1 {
        Ok(None)
    } else {
        let idx = slot_of(algo, k, w, d) as int;
        if !(0 <= idx < m.bitmap.len()) || !m.bitmap[idx] {
            Ok(None)
        } else {
            ptr_result(m.pointers[count_ones(m.bitmap, idx) as int], store, algo, k, w, d)
        }
    }
}

/// What looking `k` up through one slot pointer yields.
pub open spec fn ptr_result(
    p: PointerModel,
    store: Seq<Block>,
    algo: HashAlgorithm,
    k: Seq<u8>,
    w: nat,
    d: nat,
) -> Result<Option<Seq<u8>>, Error>
    decreases 256 - d, 0int, 0int,
{
    match p {
        PointerModel::Values { pairs } => Ok(find_model(pairs, k)),
        PointerModel::Dirty { node } => {
            if d < 255 && (d + 1) * w < 256 {
                path_result(*node, store, algo, k, w, d + 1)
            } else {
                Ok(None)
            }
        },
        PointerModel::Link { reference } => match store_find(store, reference) {
            None => Err(Error::StorageError),
            Some(bytes) => match parse_node(bytes, w) {
                None => Err(Error::DecodeError),
                Some(child) => {
                    if d < 255 && (d + 1) * w < 256 {
                        path_result(child, store, algo, k, w, d + 1)
                    } else {
                        Ok(None)
                    }
                },
            },
        },
    }
}

/// A depth and width admissible for a node: some hash bits remain.
pub open spec fn depth_ok(w: nat, d: nat) -> bool {
    1 <= w <= 8 && d < 256 && d * w < 256
}

/// Replacing the pointer of one occupied slot: keys of other slots are
/// unaffected, keys of that slot follow the new pointer.
pub proof fn lemma_path_replace(
    m: NodeModel,
    m2: NodeModel,
    store: Seq<Block>,
    algo: HashAlgorithm,
    w: nat,
    d: nat,
    idx: int,
)
    requires
        depth_ok(w, d),
        wf_model(m, w, d),
        0 <= idx < m.bitmap.len(),
        m.bitmap[idx],
        m2.bitmap == m.bitmap,
        m2.pointers == m.pointers.update(count_ones(m.bitmap, idx) as int, m2.pointers[count_ones(
            m.bitmap,
            idx,
        ) as int]),
        m2.pointers.len() == m.pointers.len(),
    ensures
        forall|k: Seq<u8>|
            slot_of(algo, k, w, d) != idx ==> #[trigger] path_result(m2, store, algo, k, w, d)
                == path_result(m, store, algo, k, w, d),
        forall|k: Seq<u8>|
            slot_of(algo, k, w, d) == idx ==> #[trigger] path_result(m2, store, algo, k, w, d)
                == ptr_result(
                m2.pointers[count_ones(m.bitmap, idx) as int],
                store,
                algo,
                k,
                w,
                d,
            ) && path_result(m, store, algo, k, w, d) == ptr_result(
                m.pointers[count_ones(m.bitmap, idx) as int],
                store,
                algo,
                k,
                w,
                d,
            ),
{
    let r = count_ones(m.bitmap, idx) as int;
    crate::node::lemma_count_mono(m.bitmap, idx, m.bitmap.len() as int);
    assert forall|k: Seq<u8>| slot_of(algo, k, w, d) != idx implies #[trigger] path_result(
        m2,
        store,
        algo,
        k,
        w,
        d,
    ) == path_result(m, store, algo, k, w, d) by {
        let idx2 = slot_of(algo, k, w, d) as int;
        if 0 <= idx2 < m.bitmap.len() && m.bitmap[idx2] {
            let r2 = count_ones(m.bitmap, idx2) as int;
            crate::node::lemma_count_mono(m.bitmap, idx2, m.bitmap.len() as int);
            if idx2 < idx {
                crate::node::lemma_count_mono(m.bitmap, idx2, idx);
                assert(r2 < r || !m.bitmap[idx2] || m2.pointers[r2] == m.pointers[r2]);
            } else {
                crate::node::lemma_count_mono(m.bitmap, idx, idx2);
            }
            assert(m2.pointers[r2] == m.pointers[r2] || r2 == r);
            if r2 == r && idx2 != idx {
                if idx2 < idx {
                    crate::node::lemma_count_mono(m.bitmap, idx2, idx);
                    assert(false);
                } else {
                    crate::node::lemma_count_mono(m.bitmap, idx, idx2);
                    assert(false);
                }
            }
            assert(m2.pointers[r2] == m.pointers[r2]);
        }
    }
}

/// Occupying a previously empty slot: keys of other slots are unaffected;
/// keys of that slot previously found nothing and now follow the new
/// pointer.
pub proof fn lemma_path_insert(
    m: NodeModel,
    m2: NodeModel,
    store: Seq<Block>,
    algo: HashAlgorithm,
    w: nat,
    d: nat,
    idx: int,
    p: PointerModel,
)
    requires
        depth_ok(w, d),
        wf_model(m, w, d),
        0 <= idx < m.bitmap.len(),
        !m.bitmap[idx],
        m2.bitmap == m.bitmap.update(idx, true),
        m2.pointers == m.pointers.insert(count_ones(m.bitmap, idx) as int, p),
    ensures
        forall|k: Seq<u8>|
            slot_of(algo, k, w, d) != idx ==> #[trigger] path_result(m2, store, algo, k, w, d)
                == path_result(m, store, algo, k, w, d),
        forall|k: Seq<u8>|
            slot_of(algo, k, w, d) == idx ==> #[trigger] path_result(m2, store, algo, k, w, d)
                == ptr_result(p, store, algo, k, w, d) && path_result(m, store, algo, k, w, d)
                == Ok::<Option<Seq<u8>>, Error>(None),
{
    let r = count_ones(m.bitmap, idx) as int;
    crate::node::lemma_count_bound(m.bitmap, idx);
    crate::node::lemma_count_mono(m.bitmap, idx, m.bitmap.len() as int);
    assert forall|k: Seq<u8>| slot_of(algo, k, w, d) != idx implies #[trigger] path_result(
        m2,
        store,
        algo,
        k,
        w,
        d,
    ) == path_result(m, store, algo, k, w, d) by {
        let idx2 = slot_of(algo, k, w, d) as int;
        if 0 <= idx2 < m.bitmap.len() {
            assert(m2.bitmap[idx2] == m.bitmap[idx2]);
            if m.bitmap[idx2] {
                let r2 = count_ones(m.bitmap, idx2) as int;
                let r2n = count_ones(m2.bitmap, idx2) as int;
                crate::node::lemma_count_update(m.bitmap, idx, true, idx2);
                crate::node::lemma_count_mono(m.bitmap, idx2, m.bitmap.len() as int);
                if idx2 < idx {
                    // Ranks below the new slot are unchanged and point at
                    // entries below the insertion point.
                    assert(r2n == r2);
                    crate::node::lemma_count_mono(m.bitmap, idx2, idx);
                    assert(r2 < r || r2 == r);
                    if r2 == r {
                        crate::node::lemma_count_mono(m.bitmap, idx2 + 1, idx);
                        assert(count_ones(m.bitmap, idx2 + 1) == r2 + 1);
                        assert(false);
                    }
                    assert(m2.pointers[r2n] == m.pointers[r2]);
                } else {
                    assert(r2n == r2 + 1);
                    crate::node::lemma_count_mono(m.bitmap, idx, idx2);
                    assert(r2 >= r);
                    assert(m2.pointers[r2 + 1] == m.pointers[r2]);
                }
            }
        }
    }
    assert forall|k: Seq<u8>| slot_of(algo, k, w, d) == idx implies #[trigger] path_result(
        m2,
        store,
        algo,
        k,
        w,
        d,
    ) == ptr_result(p, store, algo, k, w, d) && path_result(m, store, algo, k, w, d) == Ok::<
        Option<Seq<u8>>,
        Error,
    >(None) by {
        crate::node::lemma_count_update(m.bitmap, idx, true, idx);
        assert(m2.pointers[r] == p);
    }
}

/// Clearing an occupied slot: keys of other slots are unaffected; keys of
/// that slot now find nothing.
pub proof fn lemma_path_remove(
    m: NodeModel,
    m2: NodeModel,
    store: Seq<Block>,
    algo: HashAlgorithm,
    w: nat,
    d: nat,
    idx: int,
)
    requires
        depth_ok(w, d),
        wf_model(m, w, d),
        0 <= idx < m.bitmap.len(),
        m.bitmap[idx],
        m2.bitmap == m.bitmap.update(idx, false),
        m2.pointers == m.pointers.remove(count_ones(m.bitmap, idx) as int),
    ensures
        forall|k: Seq<u8>|
            slot_of(algo, k, w, d) != idx ==> #[trigger] path_result(m2, store, algo, k, w, d)
                == path_result(m, store, algo, k, w, d),
        forall|k: Seq<u8>|
            slot_of(algo, k, w, d) == idx ==> #[trigger] path_result(m2, store, algo, k, w, d)
                == Ok::<Option<Seq<u8>>, Error>(None),
{
    let r = count_ones(m.bitmap, idx) as int;
    crate::node::lemma_count_bound(m.bitmap, idx);
    crate::node::lemma_count_mono(m.bitmap, idx, m.bitmap.len() as int);
    assert forall|k: Seq<u8>| slot_of(algo, k, w, d) != idx implies #[trigger] path_result(
        m2,
        store,
        algo,
        k,
        w,
        d,
    ) == path_result(m, store, algo, k, w, d) by {
        let idx2 = slot_of(algo, k, w, d) as int;
        if 0 <= idx2 < m.bitmap.len() {
            assert(m2.bitmap[idx2] == m.bitmap[idx2]);
            if m.bitmap[idx2] {
                let r2 = count_ones(m.bitmap, idx2) as int;
                let r2n = count_ones(m2.bitmap, idx2) as int;
                crate::node::lemma_count_update(m.bitmap, idx, false, idx2);
                crate::node::lemma_count_mono(m.bitmap, idx2, m.bitmap.len() as int);
                if idx2 < idx {
                    assert(r2n == r2);
                    crate::node::lemma_count_mono(m.bitmap, idx2 + 1, idx);
                    assert(r2 < r);
                    assert(m2.pointers[r2n] == m.pointers[r2]);
                } else {
                    assert(r2n == r2 - 1);
                    crate::node::lemma_count_mono(m.bitmap, idx, idx2);
                    crate::node::lemma_count_mono(m.bitmap, idx + 1, idx2);
                    assert(count_ones(m.bitmap, idx + 1) == r + 1);
                    assert(r2 >= r + 1);
                    assert(m2.pointers[r2 - 1] == m.pointers[r2]);
                }
            }
        }
    }
}

/// The result of `r` matched against a path outcome.
pub open spec fn mirrors(
    r: Result<Option<Vec<u8>>, Error>,
    pr: Result<Option<Seq<u8>>, Error>,
) -> bool {
    match r {
        Ok(Some(v)) => pr == Ok::<Option<Seq<u8>>, Error>(Some(v@)),
        Ok(None) => pr == Ok::<Option<Seq<u8>>, Error>(None::<Seq<u8>>),
        Err(e) => pr == Err::<Option<Seq<u8>>, Error>(e),
    }
}

/// Extracts the slot index for depth `d` from the hashed key.
fn slot_index(h: &HashedKey, w: u32, d: u32) -> (r: u32)
    requires
        1 <= w <= 8,
        d < 256,
        (d as nat) * (w as nat) < 256,
    ensures
        r as nat == bits_value(
            h@,
            (d as nat) * (w as nat),
            take_len(w as nat, (d as nat) * (w as nat)),
        ),
        (r as nat) < pow2(w as nat),
{
    let consumed = d * w;
    let mut hb = HashBits::new_at_index(h, consumed);
    match hb.next(w) {
        Ok(idx) => {
            proof {
                crate::hash_bits::lemma_bits_value_bound(
                    h@,
                    (d as nat) * (w as nat),
                    take_len(w as nat, (d as nat) * (w as nat)),
                );
                if take_len(w as nat, (d as nat) * (w as nat)) < w as nat {
                    vstd::arithmetic::power2::lemma_pow2_strictly_increases(
                        take_len(w as nat, (d as nat) * (w as nat)),
                        w as nat,
                    );
                }
            }
            idx
        },
        Err(_) => {
            proof {
                assert(false);
            }
            0
        },
    }
}

/// Loads the node a link names, decoding its block.
fn load_child(store: &MemoryStore, reference: &Vec<u8>, w: u32) -> (r: Result<Node, Error>)
    requires
        1 <= w <= 8,
    ensures
        match r {
            Ok(child) => {
                &&& store.spec_get(reference@) is Some
                &&& parse_node(store.spec_get(reference@)->Some_0, w as nat) is Some
                &&& forall|d: nat|
                    d < 256 && d * (w as nat) < 256 ==> parse_node(
                        store.spec_get(reference@)->Some_0,
                        w as nat,
                    ) == Some(#[trigger] node_model(child, w as nat, d))
                &&& forall|d: nat|
                    d < 256 && d * (w as nat) < 256 ==> wf_model(
                        #[trigger] node_model(child, w as nat, d),
                        w as nat,
                        d,
                    )
            },
            Err(e) => {
                &&& (e == Error::StorageError || e == Error::DecodeError)
                &&& e == Error::StorageError <==> store.spec_get(reference@) is None
                &&& e == Error::DecodeError ==> parse_node(
                    store.spec_get(reference@)->Some_0,
                    w as nat,
                ) is None
            },
        },
{
    match store.get(reference) {
        None => Err(Error::StorageError),
        Some(bytes) => match crate::codec::decode_node(&bytes, w) {
            None => Err(Error::DecodeError),
            Some(child) => {
                proof {
                    let wn = w as nat;
                    assert(0 * wn < 256) by (nonlinear_arith);
                    assert(parse_node(bytes@, wn) == Some(node_model(child, wn, 0)));
                }
                Ok(child)
            },
        },
    }
}

/// Looks `key` up below `n`, loading stored children as the path demands.
///
/// The result mirrors `path_result` exactly: the stored value, `None` for an
/// absent key, or the error the first failing block resolution produces.
pub fn node_get(
    n: &Node,
    store: &MemoryStore,
    algo: HashAlgorithm,
    key: &Vec<u8>,
    h: &HashedKey,
    w: u32,
    d: u32,
) -> (r: Result<Option<Vec<u8>>, Error>)
    requires
        depth_ok(w as nat, d as nat),
        wf_model(node_model(*n, w as nat, d as nat), w as nat, d as nat),
        h@ == hash_of(algo, key@),
    ensures
        mirrors(r, path_result(node_model(*n, w as nat, d as nat), store.blocks@, algo, key@, w as nat, d as nat)),
    decreases 256 - d,
{
    let ghost m = node_model(*n, w as nat, d as nat);
    let ghost wn = w as nat;
    let ghost dn = d as nat;
    let idx = slot_index(h, w, d);
    proof {
        assert(idx as nat == slot_of(algo, key@, wn, dn));
        assert(n.bitmap@.len() == pow2(wn));
    }
    let idxu = idx as usize;
    if !n.bitmap[idxu] {
        return Ok(None);
    }
    let rank = crate::node::popcount_prefix(&n.bitmap, idxu);
    proof {
        crate::node::lemma_count_mono(n.bitmap@, idxu as int, n.bitmap@.len() as int);
        crate::node::lemma_ptrs_model_index(n.pointers@, wn, dn);
        crate::node::lemma_wf_ptrs_index(m.pointers, wn, dn);
        assert(m.pointers[rank as int] == crate::node::ptr_model(n.pointers@[rank as int], wn, dn));
        assert(wf_ptr(m.pointers[rank as int], wn, dn));
        assert(path_result(m, store.blocks@, algo, key@, wn, dn) == ptr_result(
            m.pointers[rank as int],
            store.blocks@,
            algo,
            key@,
            wn,
            dn,
        ));
    }
    match &n.pointers[rank] {
        Pointer::Values { bucket } => {
            proof {
                crate::node::lemma_find_model_bridge(bucket.pairs@, key@);
            }
            Ok(bucket.get(key))
        },
        Pointer::Dirty { node } => {
            proof {
                assert((dn + 1) * wn < 256);
                assert(dn + 1 <= (dn + 1) * wn) by (nonlinear_arith)
                    requires
                        wn >= 1 && dn >= 0,
                ;
            }
            node_get(node, store, algo, key, h, w, d + 1)
        },
        Pointer::Link { reference } => {
            proof {
                assert(m.pointers[rank as int] == PointerModel::Link { reference: reference@ });
            }
            match load_child(store, reference, w) {
                Err(e) => Err(e),
                Ok(child) => {
                    proof {
                        assert((d as int + 1) * (w as int) <= 2048) by (nonlinear_arith)
                            requires
                                d as int <= 255 && w as int <= 8,
                        ;
                    }
                    let next_fits = (d + 1) * w < 256;
                    if next_fits {
                        proof {
                            assert((dn + 1) * wn < 256);
                            assert(dn + 1 <= (dn + 1) * wn) by (nonlinear_arith)
                                requires
                                    wn >= 1 && dn >= 0,
                            ;
                            assert(dn < 255);
                        }
                        node_get(&child, store, algo, key, h, w, d + 1)
                    } else {
                        proof {
                            assert(!(dn < 255 && (dn + 1) * wn < 256)) by (nonlinear_arith)
                                requires
                                    (dn + 1) * (wn) >= 256 || !((d + 1) * w < 256),
                                    wn >= 1,
                                    (dn + 1) * wn == ((d + 1) * w) as nat || (dn + 1) * wn >= 256,
                            ;
                        }
                        Ok(None)
                    }
                },
            }
        },
    }
}

/// Model of a pointer run after inserting a pointer.
proof fn lemma_ptrs_model_insert(s: Seq<Pointer>, i: int, p: Pointer, w: nat, d: nat)
    requires
        d < 256,
        d * w < 256,
        0 <= i <= s.len(),
    ensures
        crate::node::ptrs_model(s.insert(i, p), w, d) =~= crate::node::ptrs_model(
            s,
            w,
            d,
        ).insert(i, crate::node::ptr_model(p, w, d)),
{
    crate::node::lemma_ptrs_model_index(s, w, d);
    crate::node::lemma_ptrs_model_index(s.insert(i, p), w, d);
}

/// Model of a pointer run after removing a pointer.
proof fn lemma_ptrs_model_remove(s: Seq<Pointer>, i: int, w: nat, d: nat)
    requires
        d < 256,
        d * w < 256,
        0 <= i < s.len(),
    ensures
        crate::node::ptrs_model(s.remove(i), w, d) =~= crate::node::ptrs_model(s, w, d).remove(i),
{
    crate::node::lemma_ptrs_model_index(s, w, d);
    crate::node::lemma_ptrs_model_index(s.remove(i), w, d);
}

/// Appending a pair with a fresh key binds it and changes no other key.
proof fn lemma_find_model_push(s: Seq<(Seq<u8>, Seq<u8>)>, p: (Seq<u8>, Seq<u8>))
    requires
        forall|m: int| 0 <= m < s.len() ==> (#[trigger] s[m]).0 != p.0,
    ensures
        find_model(s.push(p), p.0) == Some(p.1),
        forall|k: Seq<u8>| k != p.0 ==> #[trigger] find_model(s.push(p), k) == find_model(s, k),
    decreases s.len(),
{
    let t = s.push(p);
    if s.len() == 0 {
        assert(t[0] == p);
        assert(t.skip(1) =~= Seq::<(Seq<u8>, Seq<u8>)>::empty());
        assert forall|k: Seq<u8>| k != p.0 implies #[trigger] find_model(t, k) == find_model(
            s,
            k,
        ) by {
            assert(find_model(t, k) == find_model(t.skip(1), k));
            assert(find_model(t.skip(1), k) == None::<Seq<u8>>);
        }
    } else {
        assert(t[0] == s[0]);
        assert(t.skip(1) =~= s.skip(1).push(p));
        assert(forall|m: int| 0 <= m < s.skip(1).len() ==> s.skip(1)[m] == s[m + 1]);
        lemma_find_model_push(s.skip(1), p);
        assert(find_model(t, p.0) == find_model(t.skip(1), p.0));
        assert forall|k: Seq<u8>| k != p.0 implies #[trigger] find_model(t, k) == find_model(
            s,
            k,
        ) by {
            assert(find_model(s.skip(1).push(p), k) == find_model(s.skip(1), k));
            assert(find_model(t.skip(1), k) == find_model(s.skip(1), k));
        }
    }
}

/// An empty node holds nothing, whatever the key and store.
pub proof fn lemma_empty_node_path(n: Node, w: nat, d: nat)
    requires
        depth_ok(w, d),
        n.bitmap@.len() == pow2(w),
        n.pointers@.len() == 0,
        forall|m: int| 0 <= m < n.bitmap@.len() ==> !(#[trigger] n.bitmap@[m]),
    ensures
        wf_model(node_model(n, w, d), w, d),
        crate::node::no_links(node_model(n, w, d), w, d),
{
    let m = node_model(n, w, d);
    crate::node::lemma_ptrs_model_index(n.pointers@, w, d);
    crate::node::lemma_count_zeros(n.bitmap@, n.bitmap@.len() as int);
    assert(m.pointers.len() == 0);
}

/// What a successful bind of `key` to `value` guarantees: the new model
/// answers `key` with `value`, answers every other key as before, and
/// reports the key's previous binding.
pub open spec fn set_post(
    m: NodeModel,
    m2: NodeModel,
    algo: HashAlgorithm,
    key: Seq<u8>,
    value: Seq<u8>,
    prev: Option<Vec<u8>>,
    w: nat,
    d: nat,
) -> bool {
    &&& wf_model(m2, w, d)
    &&& (crate::node::no_links(m, w, d) ==> crate::node::no_links(m2, w, d))
    &&& forall|store: Seq<Block>| #[trigger] path_result(m2, store, algo, key, w, d) == Ok::<
        Option<Seq<u8>>,
        Error,
    >(Some(value))
    &&& forall|store: Seq<Block>, k2: Seq<u8>|
        k2 != key ==> #[trigger] path_result(m2, store, algo, k2, w, d) == path_result(
            m,
            store,
            algo,
            k2,
            w,
            d,
        )
    &&& match prev {
        Some(pv) => forall|store: Seq<Block>| #[trigger] path_result(m, store, algo, key, w, d)
            == Ok::<Option<Seq<u8>>, Error>(Some(pv@)),
        None => forall|store: Seq<Block>| #[trigger] path_result(m, store, algo, key, w, d)
            == Ok::<Option<Seq<u8>>, Error>(None::<Seq<u8>>),
    }
}

/// Occupies the empty slot `idxu` with a one-pair bucket.
fn fresh_empty_slot(
    n: Node,
    algo: HashAlgorithm,
    key: Vec<u8>,
    value: Vec<u8>,
    rank: usize,
    idxu: usize,
    w: u32,
    d: u32,
) -> (r: Node)
    requires
        depth_ok(w as nat, d as nat),
        wf_model(node_model(n, w as nat, d as nat), w as nat, d as nat),
        idxu < n.bitmap@.len(),
        !n.bitmap@[idxu as int],
        idxu as nat == slot_of(algo, key@, w as nat, d as nat),
        rank as int == count_ones(n.bitmap@, idxu as int),
    ensures
        set_post(
            node_model(n, w as nat, d as nat),
            node_model(r, w as nat, d as nat),
            algo,
            key@,
            value@,
            None::<Vec<u8>>,
            w as nat,
            d as nat,
        ),
{
    let ghost wn = w as nat;
    let ghost dn = d as nat;
    let ghost m = node_model(n, wn, dn);
    let ghost bm0 = n.bitmap@;
    let ghost ps0 = n.pointers@;
    let mut n = n;
    proof {
        crate::node::lemma_ptrs_model_index(ps0, wn, dn);
        crate::node::lemma_wf_ptrs_index(m.pointers, wn, dn);
        if crate::node::no_links(m, wn, dn) {
            crate::node::lemma_no_links_ptrs_index(m.pointers, wn, dn);
        }
        crate::node::lemma_count_mono(bm0, idxu as int, bm0.len() as int);
    }
    let mut bucket = Bucket::new();
    bucket.set(key, value);
    n.bitmap.remove(idxu);
    n.bitmap.insert(idxu, true);
    let ptr = Pointer::Values { bucket };
    let ghost ptrg = ptr;
    n.pointers.insert(rank, ptr);
    proof {
        let m2 = node_model(n, wn, dn);
        assert(n.bitmap@ =~= bm0.update(idxu as int, true));
        assert(n.pointers@ =~= ps0.insert(rank as int, ptrg));
        lemma_ptrs_model_insert(ps0, rank as int, ptrg, wn, dn);
        let pm = crate::node::ptr_model(ptrg, wn, dn);
        assert(m2.pointers =~= m.pointers.insert(rank as int, pm));
        crate::node::lemma_sorted_model_bridge(ptrg->Values_bucket.pairs@);
        assert(wf_ptr(pm, wn, dn));
        crate::node::lemma_count_update(bm0, idxu as int, true, bm0.len() as int);
        assert(wf_model(m2, wn, dn)) by {
            assert forall|j: int| 0 <= j < m2.pointers.len() implies wf_ptr(
                #[trigger] m2.pointers[j],
                wn,
                dn,
            ) by {
                if j < rank {
                    assert(m2.pointers[j] == m.pointers[j]);
                } else if j > rank {
                    assert(m2.pointers[j] == m.pointers[j - 1]);
                }
            }
            crate::node::lemma_wf_ptrs_build(m2.pointers, wn, dn);
        }
        if crate::node::no_links(m, wn, dn) {
            assert(crate::node::no_links(m2, wn, dn)) by {
                assert forall|j: int| 0 <= j < m2.pointers.len() implies crate::node::no_links_ptr(
                    #[trigger] m2.pointers[j],
                    wn,
                    dn,
                ) by {
                    if j < rank {
                        assert(m2.pointers[j] == m.pointers[j]);
                    } else if j > rank {
                        assert(m2.pointers[j] == m.pointers[j - 1]);
                    }
                }
                crate::node::lemma_no_links_ptrs_build(m2.pointers, wn, dn);
            }
        }
        assert forall|store: Seq<Block>| true implies #[trigger] path_result(
            m2,
            store,
            algo,
            key@,
            wn,
            dn,
        ) == Ok::<Option<Seq<u8>>, Error>(Some(value@)) && path_result(m, store, algo, key@, wn, dn)
            == Ok::<Option<Seq<u8>>, Error>(None::<Seq<u8>>) by {
            lemma_path_insert(m, m2, store, algo, wn, dn, idxu as int, pm);
            crate::node::lemma_find_model_bridge(ptrg->Values_bucket.pairs@, key@);
            assert(ptrg->Values_bucket.spec_find(key@) == Some(value@));
        }
        assert forall|store: Seq<Block>, k2: Seq<u8>| k2 != key@ implies #[trigger] path_result(
            m2,
            store,
            algo,
            k2,
            wn,
            dn,
        ) == path_result(m, store, algo, k2, wn, dn) by {
            lemma_path_insert(m, m2, store, algo, wn, dn, idxu as int, pm);
            if slot_of(algo, k2, wn, dn) == idxu as nat {
                crate::node::lemma_find_model_bridge(ptrg->Values_bucket.pairs@, k2);
                assert(ptrg->Values_bucket.spec_find(k2) == None::<Seq<u8>>);
            }
        }
    }
    n
}

/// Puts `p` back into slot `idxu` of `n`, whose pointer at `rank` was taken
/// out, and carries the path consequences of the replacement.
fn replace_slot(
    n: Node,
    p: Pointer,
    rank: usize,
    idxu: usize,
    w: u32,
    d: u32,
    Ghost(m): Ghost<NodeModel>,
    Ghost(ps0): Ghost<Seq<Pointer>>,
) -> (r: Node)
    requires
        depth_ok(w as nat, d as nat),
        wf_model(m, w as nat, d as nat),
        m.bitmap == n.bitmap@,
        m.pointers == crate::node::ptrs_model(ps0, w as nat, d as nat),
        idxu < n.bitmap@.len(),
        n.bitmap@[idxu as int],
        rank as int == count_ones(n.bitmap@, idxu as int),
        rank < ps0.len(),
        n.pointers@ == ps0.remove(rank as int),
        wf_ptr(crate::node::ptr_model(p, w as nat, d as nat), w as nat, d as nat),
    ensures
        ({
            let m2 = node_model(r, w as nat, d as nat);
            let pm = crate::node::ptr_model(p, w as nat, d as nat);
            &&& wf_model(m2, w as nat, d as nat)
            &&& (crate::node::no_links(m, w as nat, d as nat) && crate::node::no_links_ptr(
                pm,
                w as nat,
                d as nat,
            ) ==> crate::node::no_links(m2, w as nat, d as nat))
            &&& m2.bitmap == m.bitmap
            &&& m2.pointers == m.pointers.update(rank as int, pm)
        }),
{
    let ghost wn = w as nat;
    let ghost dn = d as nat;
    let ghost pg = p;
    let mut n = n;
    proof {
        crate::node::lemma_ptrs_model_index(ps0, wn, dn);
        crate::node::lemma_count_mono(n.bitmap@, idxu as int, n.bitmap@.len() as int);
    }
    n.pointers.insert(rank, p);
    proof {
        let m2 = node_model(n, wn, dn);
        let pm = crate::node::ptr_model(pg, wn, dn);
        assert(n.pointers@ =~= ps0.update(rank as int, pg));
        assert(ps0.update(rank as int, pg) =~= ps0.remove(rank as int).insert(rank as int, pg));
        lemma_ptrs_model_remove(ps0, rank as int, wn, dn);
        lemma_ptrs_model_insert(ps0.remove(rank as int), rank as int, pg, wn, dn);
        assert(m2.pointers =~= m.pointers.update(rank as int, pm));
        crate::node::lemma_wf_ptrs_index(m.pointers, wn, dn);
        assert(wf_model(m2, wn, dn)) by {
            assert forall|j: int| 0 <= j < m2.pointers.len() implies wf_ptr(
                #[trigger] m2.pointers[j],
                wn,
                dn,
            ) by {
                if j != rank {
                    assert(m2.pointers[j] == m.pointers[j]);
                }
            }
            crate::node::lemma_wf_ptrs_build(m2.pointers, wn, dn);
        }
        if crate::node::no_links(m, wn, dn) && crate::node::no_links_ptr(pm, wn, dn) {
            crate::node::lemma_no_links_ptrs_index(m.pointers, wn, dn);
            assert(crate::node::no_links(m2, wn, dn)) by {
                assert forall|j: int| 0 <= j < m2.pointers.len() implies crate::node::no_links_ptr(
                    #[trigger] m2.pointers[j],
                    wn,
                    dn,
                ) by {
                    if j != rank {
                        assert(m2.pointers[j] == m.pointers[j]);
                    }
                }
                crate::node::lemma_no_links_ptrs_build(m2.pointers, wn, dn);
            }
        }
    }
    n
}

/// Binds `key` to `value` below a fully loaded node. The node must hold no
/// unresolved references, so the operation cannot fail; a bucket grown past
/// the threshold is split into a child level, repeatedly if the redistributed
/// pairs still collide.
pub fn insert_fresh(
    n: Node,
    algo: HashAlgorithm,
    key: Vec<u8>,
    h: &HashedKey,
    value: Vec<u8>,
    w: u32,
    threshold: usize,
    d: u32,
) -> (r: (Node, Option<Vec<u8>>))
    requires
        depth_ok(w as nat, d as nat),
        wf_model(node_model(n, w as nat, d as nat), w as nat, d as nat),
        crate::node::no_links(node_model(n, w as nat, d as nat), w as nat, d as nat),
        h@ == hash_of(algo, key@),
        threshold >= 1,
    ensures
        set_post(
            node_model(n, w as nat, d as nat),
            node_model(r.0, w as nat, d as nat),
            algo,
            key@,
            value@,
            r.1,
            w as nat,
            d as nat,
        ),
    decreases 256 - d, 1int,
{
    let ghost wn = w as nat;
    let ghost dn = d as nat;
    let ghost m = node_model(n, wn, dn);
    let mut n = n;
    let idx = slot_index(h, w, d);
    let idxu = idx as usize;
    proof {
        assert(idx as nat == slot_of(algo, key@, wn, dn));
        assert(n.bitmap@.len() == pow2(wn));
        crate::node::lemma_ptrs_model_index(n.pointers@, wn, dn);
        crate::node::lemma_wf_ptrs_index(m.pointers, wn, dn);
        crate::node::lemma_no_links_ptrs_index(m.pointers, wn, dn);
        crate::node::lemma_count_mono(n.bitmap@, idx as int, n.bitmap@.len() as int);
    }
    let rank = crate::node::popcount_prefix(&n.bitmap, idxu);
    if !n.bitmap[idxu] {
        let n2 = fresh_empty_slot(n, algo, key, value, rank, idxu, w, d);
        (n2, None)
    } else {
        let ghost bm0 = n.bitmap@;
        let ghost ps0 = n.pointers@;
        let ptr = n.pointers.remove(rank);
        let ghost ptr0 = ptr;
        let ghost pm0 = crate::node::ptr_model(ptr0, wn, dn);
        proof {
            assert(pm0 == m.pointers[rank as int]);
            assert(wf_ptr(pm0, wn, dn));
            assert(crate::node::no_links_ptr(pm0, wn, dn));
        }
        match ptr {
            Pointer::Values { bucket } => {
                proof {
                    crate::node::lemma_sorted_model_bridge(bucket.pairs@);
                }
                let (newptr, prev, ghost_newpairs) = bucket_with_pair(
                    bucket,
                    algo,
                    key,
                    value,
                    w,
                    threshold,
                    d,
                );
                let ghost pmn = crate::node::ptr_model(newptr, wn, dn);
                let ghost bpairs0 = ptr0->Values_bucket.pairs@;
                let n2 = replace_slot(n, newptr, rank, idxu, w, d, Ghost(m), Ghost(ps0));
                proof {
                    let m2 = node_model(n2, wn, dn);
                    assert forall|store: Seq<Block>, k2: Seq<u8>| true implies {
                        &&& (k2 == key@ ==> #[trigger] path_result(m2, store, algo, k2, wn, dn)
                            == Ok::<Option<Seq<u8>>, Error>(Some(value@)))
                        &&& (k2 != key@ ==> path_result(m2, store, algo, k2, wn, dn) == path_result(
                            m,
                            store,
                            algo,
                            k2,
                            wn,
                            dn,
                        ))
                        &&& (k2 == key@ ==> path_result(m, store, algo, k2, wn, dn) == Ok::<
                            Option<Seq<u8>>,
                            Error,
                        >(crate::bucket::bucket_find(bpairs0, key@)))
                    } by {
                        lemma_path_replace(m, m2, store, algo, wn, dn, idxu as int);
                        assert(m2.pointers[count_ones(m.bitmap, idxu as int) as int] == pmn);
                        assert(m.pointers[count_ones(m.bitmap, idxu as int) as int] == pm0);
                        assert(ptr_result(
                            crate::node::ptr_model(newptr, wn, dn),
                            store,
                            algo,
                            k2,
                            wn,
                            dn,
                        ) == Ok::<Option<Seq<u8>>, Error>(find_model(ghost_newpairs@, k2)));
                        if slot_of(algo, k2, wn, dn) == idxu as nat {
                            assert(ptr_result(pm0, store, algo, k2, wn, dn) == Ok::<
                                Option<Seq<u8>>,
                                Error,
                            >(find_model(pairs_model(bpairs0), k2)));
                            crate::node::lemma_find_model_bridge(bpairs0, k2);
                        }
                    }
                    crate::node::lemma_find_model_bridge(bpairs0, key@);
                    assert forall|store: Seq<Block>| true implies #[trigger] path_result(
                        m,
                        store,
                        algo,
                        key@,
                        wn,
                        dn,
                    ) == Ok::<Option<Seq<u8>>, Error>(
                        crate::bucket::bucket_find(bpairs0, key@),
                    ) by {
                        assert(path_result(m2, store, algo, key@, wn, dn) == Ok::<
                            Option<Seq<u8>>,
                            Error,
                        >(Some(value@)));
                    }
                }
                (n2, prev)
            },
            Pointer::Dirty { node } => {
                proof {
                    assert((dn + 1) * wn < 256);
                    assert(dn + 1 <= (dn + 1) * wn) by (nonlinear_arith)
                        requires
                            wn >= 1 && dn >= 0,
                    ;
                }
                let ghost childm0 = node_model(*node, wn, (d + 1) as nat);
                let (c2, prev) = insert_fresh(*node, algo, key, h, value, w, threshold, d + 1);
                let ghost childm2 = node_model(c2, wn, (d + 1) as nat);
                let newptr = Pointer::Dirty { node: Box::new(c2) };
                let ghost pmn = crate::node::ptr_model(newptr, wn, dn);
                let n2 = replace_slot(n, newptr, rank, idxu, w, d, Ghost(m), Ghost(ps0));
                proof {
                    let m2 = node_model(n2, wn, dn);
                    assert(pmn == PointerModel::Dirty { node: Box::new(childm2) });
                    assert(pm0 == PointerModel::Dirty { node: Box::new(childm0) });
                    assert forall|store: Seq<Block>, k2: Seq<u8>| true implies {
                        &&& (k2 == key@ ==> #[trigger] path_result(m2, store, algo, k2, wn, dn)
                            == Ok::<Option<Seq<u8>>, Error>(Some(value@)))
                        &&& (k2 != key@ ==> path_result(m2, store, algo, k2, wn, dn) == path_result(
                            m,
                            store,
                            algo,
                            k2,
                            wn,
                            dn,
                        ))
                        &&& (k2 == key@ ==> path_result(m, store, algo, k2, wn, dn) == path_result(
                            childm0,
                            store,
                            algo,
                            k2,
                            wn,
                            (d + 1) as nat,
                        ))
                    } by {
                        lemma_path_replace(m, m2, store, algo, wn, dn, idxu as int);
                        assert(m2.pointers[count_ones(m.bitmap, idxu as int) as int] == pmn);
                        assert(m.pointers[count_ones(m.bitmap, idxu as int) as int] == pm0);
                        if slot_of(algo, k2, wn, dn) == idxu as nat {
                            assert(ptr_result(pmn, store, algo, k2, wn, dn) == path_result(
                                childm2,
                                store,
                                algo,
                                k2,
                                wn,
                                (d + 1) as nat,
                            ));
                            assert(ptr_result(pm0, store, algo, k2, wn, dn) == path_result(
                                childm0,
                                store,
                                algo,
                                k2,
                                wn,
                                (d + 1) as nat,
                            ));
                        }
                    }
                    assert forall|store: Seq<Block>| true implies #[trigger] path_result(
                        m,
                        store,
                        algo,
                        key@,
                        wn,
                        dn,
                    ) == path_result(childm0, store, algo, key@, wn, (d + 1) as nat) by {
                        assert(path_result(m2, store, algo, key@, wn, dn) == Ok::<
                            Option<Seq<u8>>,
                            Error,
                        >(Some(value@)));
                    }
                }
                (n2, prev)
            },
            Pointer::Link { reference } => {
                // Unreachable: the node holds no unresolved references.
                proof {
                    assert(false);
                }
                let restored = Pointer::Link { reference };
                n.pointers.insert(rank, restored);
                (n, None)
            },
        }
    }
}

/// Adds the pair to a bucket taken from an occupied slot, splitting the
/// bucket into a child level when it outgrows the threshold and hash bits
/// remain.
fn bucket_with_pair(
    bucket: Bucket,
    algo: HashAlgorithm,
    key: Vec<u8>,
    value: Vec<u8>,
    w: u32,
    threshold: usize,
    d: u32,
) -> (r: (Pointer, Option<Vec<u8>>, Ghost<Seq<(Seq<u8>, Seq<u8>)>>))
    requires
        depth_ok(w as nat, d as nat),
        bucket.wf(),
        bucket.pairs@.len() >= 1,
        threshold >= 1,
    ensures
        ({
            let pm = crate::node::ptr_model(r.0, w as nat, d as nat);
            &&& wf_ptr(pm, w as nat, d as nat)
            &&& crate::node::no_links_ptr(pm, w as nat, d as nat)
            &&& forall|store: Seq<Block>, k2: Seq<u8>| #[trigger] ptr_result(
                pm,
                store,
                algo,
                k2,
                w as nat,
                d as nat,
            ) == Ok::<Option<Seq<u8>>, Error>(find_model(r.2@, k2))
            &&& forall|k2: Seq<u8>|
                k2 != key@ ==> #[trigger] find_model(r.2@, k2) == find_model(
                    pairs_model(bucket.pairs@),
                    k2,
                )
            &&& find_model(r.2@, key@) == Some(value@)
            &&& match r.1 {
                Some(pv) => find_model(pairs_model(bucket.pairs@), key@) == Some(pv@),
                None => find_model(pairs_model(bucket.pairs@), key@) == None::<Seq<u8>>,
            }
        }),
    decreases 256 - d, 0int,
{
    let ghost wn = w as nat;
    let ghost dn = d as nat;
    let ghost bpairs0 = bucket.pairs@;
    let mut bucket = bucket;
    proof {
        crate::node::lemma_find_model_bridge(bpairs0, key@);
    }
    let prev = bucket.set(key, value);
    let ghost bpairs1 = bucket.pairs@;
    let ghost key_g = key@;
    let ghost value_g = value@;
    proof {
        assert((d as int + 1) * (w as int) <= 2048) by (nonlinear_arith)
            requires
                d as int <= 255 && w as int <= 8,
        ;
        crate::node::lemma_find_model_bridge(bpairs1, key_g);
        assert forall|k2: Seq<u8>| k2 != key_g implies #[trigger] find_model(
            pairs_model(bpairs1),
            k2,
        ) == find_model(pairs_model(bpairs0), k2) by {
            crate::node::lemma_find_model_bridge(bpairs1, k2);
            crate::node::lemma_find_model_bridge(bpairs0, k2);
            assert(bucket.spec_find(k2) == crate::bucket::bucket_find(bpairs1, k2));
        }
    }
    let next_fits = d < 255 && (d + 1) * w < 256;
    if bucket.pairs.len() > threshold && next_fits {
        // Split: redistribute every pair one level down.
        let mut child = Node::new_empty(w);
        proof {
            assert((dn + 1) * wn < 256);
            lemma_empty_node_path(child, wn, (d + 1) as nat);
            crate::node::lemma_ptrs_model_index(child.pointers@, wn, (d + 1) as nat);
            crate::node::lemma_count_zeros(child.bitmap@, child.bitmap@.len() as int);
            crate::bucket::lemma_sorted_distinct(bpairs1);
            assert(pairs_model(bpairs1.take(0)) =~= Seq::<(Seq<u8>, Seq<u8>)>::empty());
        }
        let ghost total = bpairs1.len() as int;
        proof {
            assert(total <= usize::MAX);
        }
        let mut moved: usize = 0;
        while bucket.pairs.len() > 0
            invariant
                wn == w as nat,
                dn == d as nat,
                total == bpairs1.len() as int,
                total <= usize::MAX,
                depth_ok(wn, (d + 1) as nat),
                threshold >= 1,
                moved + bucket.pairs@.len() == total,
                bucket.pairs@ =~= bpairs1.skip(moved as int),
                crate::bucket::bucket_sorted(bpairs1),
                forall|x: int, y: int|
                    0 <= x < bpairs1.len() && 0 <= y < bpairs1.len() && x != y ==> (
                    #[trigger] bpairs1[x].key@) != (#[trigger] bpairs1[y].key@),
                wf_model(node_model(child, wn, (d + 1) as nat), wn, (d + 1) as nat),
                crate::node::no_links(node_model(child, wn, (d + 1) as nat), wn, (d + 1) as nat),
                forall|store: Seq<Block>, k2: Seq<u8>| #[trigger] path_result(
                    node_model(child, wn, (d + 1) as nat),
                    store,
                    algo,
                    k2,
                    wn,
                    (d + 1) as nat,
                ) == Ok::<Option<Seq<u8>>, Error>(
                    find_model(pairs_model(bpairs1.take(moved as int)), k2),
                ),
            decreases bucket.pairs@.len(),
        {
            let ghost before = bucket.pairs@;
            let kv = bucket.pairs.remove(0);
            proof {
                assert(moved < bpairs1.len());
                assert(before == bpairs1.skip(moved as int));
                assert(before[0] == bpairs1.skip(moved as int)[0]);
                assert(bpairs1.skip(moved as int)[0] == bpairs1[moved as int + 0]);
                assert(kv == bpairs1[moved as int]);
                assert(bucket.pairs@ == before.remove(0));
                assert forall|x: int|
                    0 <= x < bucket.pairs@.len() implies bucket.pairs@[x] == bpairs1[moved as int
                    + 1 + x] by {
                    assert(bucket.pairs@[x] == before[x + 1]);
                    assert(before[x + 1] == bpairs1[moved as int + x + 1]);
                }
                assert(bucket.pairs@ =~= bpairs1.skip(moved as int + 1));
            }
            let h2 = crate::hash::hash_key(algo, &kv.key);
            let ghost kvkey = kv.key@;
            let ghost kvval = kv.value@;
            let (c2, _discard) = insert_fresh(child, algo, kv.key, &h2, kv.value, w, threshold, d + 1);
            child = c2;
            proof {
                let prefix = pairs_model(bpairs1.take(moved as int));
                let prefix2 = pairs_model(bpairs1.take(moved as int + 1));
                assert forall|mx: int| 0 <= mx < prefix.len() implies #[trigger] prefix[mx] == (
                    bpairs1[mx].key@,
                    bpairs1[mx].value@,
                ) by {
                    assert(bpairs1.take(moved as int)[mx] == bpairs1[mx]);
                }
                assert forall|mx: int| 0 <= mx < prefix2.len() implies #[trigger] prefix2[mx] == (
                    bpairs1[mx].key@,
                    bpairs1[mx].value@,
                ) by {
                    assert(bpairs1.take(moved as int + 1)[mx] == bpairs1[mx]);
                }
                assert(prefix2 =~= prefix.push((kvkey, kvval)));
                assert forall|mx: int| 0 <= mx < prefix.len() implies (#[trigger] prefix[mx]).0
                    != kvkey by {
                    assert(prefix[mx].0 == bpairs1[mx].key@);
                    assert(bpairs1[mx].key@ != bpairs1[moved as int].key@);
                }
                lemma_find_model_push(prefix, (kvkey, kvval));
            }
            moved = moved + 1;
        }
        proof {
            assert(bpairs1.take(moved as int) =~= bpairs1);
        }
        let newptr = Pointer::Dirty { node: Box::new(child) };
        proof {
            let childm = node_model(child, wn, (d + 1) as nat);
            let pmn = crate::node::ptr_model(newptr, wn, dn);
            assert(pmn == PointerModel::Dirty { node: Box::new(childm) });
            assert(wf_ptr(pmn, wn, dn));
            assert(crate::node::no_links_ptr(pmn, wn, dn));
            assert forall|store: Seq<Block>, k2: Seq<u8>| true implies #[trigger] ptr_result(
                pmn,
                store,
                algo,
                k2,
                wn,
                dn,
            ) == Ok::<Option<Seq<u8>>, Error>(find_model(pairs_model(bpairs1), k2)) by {
                assert(ptr_result(pmn, store, algo, k2, wn, dn) == path_result(
                    childm,
                    store,
                    algo,
                    k2,
                    wn,
                    (d + 1) as nat,
                ));
            }
        }
        (newptr, prev, Ghost(pairs_model(bpairs1)))
    } else {
        proof {
            crate::node::lemma_sorted_model_bridge(bpairs1);
        }
        let newptr = Pointer::Values { bucket };
        proof {
            let pmn = crate::node::ptr_model(newptr, wn, dn);
            assert(pmn == PointerModel::Values { pairs: pairs_model(bpairs1) });
            assert(wf_ptr(pmn, wn, dn));
        }
        (newptr, prev, Ghost(pairs_model(bpairs1)))
    }
}

/// What a successful bind guarantees against one particular store.
pub open spec fn set_post_at(
    m: NodeModel,
    m2: NodeModel,
    store: Seq<Block>,
    algo: HashAlgorithm,
    key: Seq<u8>,
    value: Seq<u8>,
    prev: Option<Vec<u8>>,
    w: nat,
    d: nat,
) -> bool {
    &&& wf_model(m2, w, d)
    &&& path_result(m2, store, algo, key, w, d) == Ok::<Option<Seq<u8>>, Error>(Some(value))
    &&& forall|k2: Seq<u8>|
        k2 != key ==> #[trigger] path_result(m2, store, algo, k2, w, d) == path_result(
            m,
            store,
            algo,
            k2,
            w,
            d,
        )
    &&& match prev {
        Some(pv) => path_result(m, store, algo, key, w, d) == Ok::<Option<Seq<u8>>, Error>(
            Some(pv@),
        ),
        None => path_result(m, store, algo, key, w, d) == Ok::<Option<Seq<u8>>, Error>(
            None::<Seq<u8>>,
        ),
    }
}

/// What a failed operation guarantees: the failure is the one the key's own
/// path produces — a block on it missing from the store or malformed — and
/// the node, though it may have resolved some stored children in place,
/// answers every key as before.
pub open spec fn fail_post_at(
    m: NodeModel,
    m2: NodeModel,
    store: Seq<Block>,
    algo: HashAlgorithm,
    key: Seq<u8>,
    e: Error,
    w: nat,
    d: nat,
) -> bool {
    &&& wf_model(m2, w, d)
    &&& (e == Error::StorageError || e == Error::DecodeError)
    &&& path_result(m, store, algo, key, w, d) == Err::<Option<Seq<u8>>, Error>(e)
    &&& forall|k2: Seq<u8>| #[trigger] path_result(m2, store, algo, k2, w, d) == path_result(
        m,
        store,
        algo,
        k2,
        w,
        d,
    )
}

/// Binds `key` to `value` below `n`, resolving stored children as the path
/// demands. Fails exactly when a block on the key's path is missing or
/// malformed; the node then still answers every key as before.
#[verifier::rlimit(60)]
pub fn node_set(
    n: Node,
    store: &MemoryStore,
    algo: HashAlgorithm,
    key: Vec<u8>,
    h: &HashedKey,
    value: Vec<u8>,
    w: u32,
    threshold: usize,
    d: u32,
) -> (r: Result<(Node, Option<Vec<u8>>), (Node, Error)>)
    requires
        depth_ok(w as nat, d as nat),
        wf_model(node_model(n, w as nat, d as nat), w as nat, d as nat),
        h@ == hash_of(algo, key@),
        threshold >= 1,
    ensures
        match r {
            Ok((n2, prev)) => set_post_at(
                node_model(n, w as nat, d as nat),
                node_model(n2, w as nat, d as nat),
                store.blocks@,
                algo,
                key@,
                value@,
                prev,
                w as nat,
                d as nat,
            ),
            Err((n2, e)) => fail_post_at(
                node_model(n, w as nat, d as nat),
                node_model(n2, w as nat, d as nat),
                store.blocks@,
                algo,
                key@,
                e,
                w as nat,
                d as nat,
            ),
        },
    decreases 256 - d, 3int,
{
    let ghost wn = w as nat;
    let ghost dn = d as nat;
    let ghost m = node_model(n, wn, dn);
    let ghost sb = store.blocks@;
    let mut n = n;
    let idx = slot_index(h, w, d);
    let idxu = idx as usize;
    proof {
        assert(idx as nat == slot_of(algo, key@, wn, dn));
        assert(n.bitmap@.len() == pow2(wn));
        crate::node::lemma_ptrs_model_index(n.pointers@, wn, dn);
        crate::node::lemma_wf_ptrs_index(m.pointers, wn, dn);
        crate::node::lemma_count_mono(n.bitmap@, idx as int, n.bitmap@.len() as int);
    }
    let rank = crate::node::popcount_prefix(&n.bitmap, idxu);
    if !n.bitmap[idxu] {
        let n2 = fresh_empty_slot(n, algo, key, value, rank, idxu, w, d);
        Ok((n2, None))
    } else {
        let ghost bm0 = n.bitmap@;
        let ghost ps0 = n.pointers@;
        let ptr = n.pointers.remove(rank);
        let ghost ptr0 = ptr;
        let ghost pm0 = crate::node::ptr_model(ptr0, wn, dn);
        proof {
            assert(pm0 == m.pointers[rank as int]);
            assert(wf_ptr(pm0, wn, dn));
        }
        match ptr {
            Pointer::Values { bucket } => {
                proof {
                    crate::node::lemma_sorted_model_bridge(bucket.pairs@);
                }
                let ghost bpairs0 = bucket.pairs@;
                let (newptr, prev, ghost_newpairs) = bucket_with_pair(
                    bucket,
                    algo,
                    key,
                    value,
                    w,
                    threshold,
                    d,
                );
                let ghost pmn = crate::node::ptr_model(newptr, wn, dn);
                let n2 = replace_slot(n, newptr, rank, idxu, w, d, Ghost(m), Ghost(ps0));
                proof {
                    let m2 = node_model(n2, wn, dn);
                    lemma_path_replace(m, m2, sb, algo, wn, dn, idxu as int);
                    assert(m2.pointers[count_ones(m.bitmap, idxu as int) as int] == pmn);
                    assert(m.pointers[count_ones(m.bitmap, idxu as int) as int] == pm0);
                    assert(ptr_result(crate::node::ptr_model(newptr, wn, dn), sb, algo, key@, wn, dn)
                        == Ok::<Option<Seq<u8>>, Error>(find_model(ghost_newpairs@, key@)));
                    crate::node::lemma_find_model_bridge(bpairs0, key@);
                    assert forall|k2: Seq<u8>| k2 != key@ implies #[trigger] path_result(
                        m2,
                        sb,
                        algo,
                        k2,
                        wn,
                        dn,
                    ) == path_result(m, sb, algo, k2, wn, dn) by {
                        if slot_of(algo, k2, wn, dn) == idxu as nat {
                            assert(ptr_result(
                                crate::node::ptr_model(newptr, wn, dn),
                                sb,
                                algo,
                                k2,
                                wn,
                                dn,
                            ) == Ok::<Option<Seq<u8>>, Error>(find_model(ghost_newpairs@, k2)));
                            assert(ptr_result(pm0, sb, algo, k2, wn, dn) == Ok::<
                                Option<Seq<u8>>,
                                Error,
                            >(find_model(pairs_model(bpairs0), k2)));
                        }
                    }
                }
                Ok((n2, prev))
            },
            Pointer::Dirty { node } => {
                proof {
                    assert((dn + 1) * wn < 256);
                    assert(dn + 1 <= (dn + 1) * wn) by (nonlinear_arith)
                        requires
                            wn >= 1 && dn >= 0,
                    ;
                }
                let ghost childm0 = node_model(*node, wn, (d + 1) as nat);
                match node_set(*node, store, algo, key, h, value, w, threshold, d + 1) {
                    Ok((c2, prev)) => {
                        let ghost childm2 = node_model(c2, wn, (d + 1) as nat);
                        let newptr = Pointer::Dirty { node: Box::new(c2) };
                        let ghost pmn = crate::node::ptr_model(newptr, wn, dn);
                        let n2 = replace_slot(n, newptr, rank, idxu, w, d, Ghost(m), Ghost(ps0));
                        proof {
                            let m2 = node_model(n2, wn, dn);
                            lemma_path_replace(m, m2, sb, algo, wn, dn, idxu as int);
                            assert(m2.pointers[count_ones(m.bitmap, idxu as int) as int] == pmn);
                            assert(m.pointers[count_ones(m.bitmap, idxu as int) as int] == pm0);
                            assert(pmn == PointerModel::Dirty { node: Box::new(childm2) });
                            assert(pm0 == PointerModel::Dirty { node: Box::new(childm0) });
                            assert(ptr_result(pmn, sb, algo, key@, wn, dn) == path_result(
                                childm2, sb, algo, key@, wn, (d + 1) as nat));
                            assert(ptr_result(pm0, sb, algo, key@, wn, dn) == path_result(
                                childm0, sb, algo, key@, wn, (d + 1) as nat));
                            assert forall|k2: Seq<u8>| k2 != key@ implies #[trigger] path_result(
                                m2, sb, algo, k2, wn, dn,
                            ) == path_result(m, sb, algo, k2, wn, dn) by {
                                if slot_of(algo, k2, wn, dn) == idxu as nat {
                                    assert(ptr_result(pmn, sb, algo, k2, wn, dn) == path_result(
                                        childm2, sb, algo, k2, wn, (d + 1) as nat));
                                    assert(ptr_result(pm0, sb, algo, k2, wn, dn) == path_result(
                                        childm0, sb, algo, k2, wn, (d + 1) as nat));
                                    assert(path_result(childm2, sb, algo, k2, wn, (d + 1) as nat)
                                        == path_result(childm0, sb, algo, k2, wn, (d + 1) as nat));
                                }
                            }
                        }
                        Ok((n2, prev))
                    },
                    Err((c2, e)) => {
                        let ghost childm2 = node_model(c2, wn, (d + 1) as nat);
                        let newptr = Pointer::Dirty { node: Box::new(c2) };
                        let ghost pmn = crate::node::ptr_model(newptr, wn, dn);
                        let n2 = replace_slot(n, newptr, rank, idxu, w, d, Ghost(m), Ghost(ps0));
                        proof {
                            let m2 = node_model(n2, wn, dn);
                            lemma_path_replace(m, m2, sb, algo, wn, dn, idxu as int);
                            assert(m2.pointers[count_ones(m.bitmap, idxu as int) as int] == pmn);
                            assert(m.pointers[count_ones(m.bitmap, idxu as int) as int] == pm0);
                            assert(pmn == PointerModel::Dirty { node: Box::new(childm2) });
                            assert(pm0 == PointerModel::Dirty { node: Box::new(childm0) });
                            assert forall|k2: Seq<u8>| true implies #[trigger] path_result(
                                m2, sb, algo, k2, wn, dn,
                            ) == path_result(m, sb, algo, k2, wn, dn) by {
                                if slot_of(algo, k2, wn, dn) == idxu as nat {
                                    assert(ptr_result(pmn, sb, algo, k2, wn, dn) == path_result(
                                        childm2, sb, algo, k2, wn, (d + 1) as nat));
                                    assert(ptr_result(pm0, sb, algo, k2, wn, dn) == path_result(
                                        childm0, sb, algo, k2, wn, (d + 1) as nat));
                                    assert(path_result(childm2, sb, algo, k2, wn, (d + 1) as nat)
                                        == path_result(childm0, sb, algo, k2, wn, (d + 1) as nat));
                                }
                            }
                        }
                        Err((n2, e))
                    },
                }
            },
            Pointer::Link { reference } => {
                let ghost refg = reference@;
                match load_child(store, &reference, w) {
                    Err(e) => {
                        let restored = Pointer::Link { reference };
                        let n2 = replace_slot(n, restored, rank, idxu, w, d, Ghost(m), Ghost(ps0));
                        proof {
                            let m2 = node_model(n2, wn, dn);
                            lemma_path_replace(m, m2, sb, algo, wn, dn, idxu as int);
                            assert(m2.pointers[count_ones(m.bitmap, idxu as int) as int] == pm0);
                            assert(m.pointers[count_ones(m.bitmap, idxu as int) as int] == pm0);
                            assert forall|k2: Seq<u8>| true implies #[trigger] path_result(
                                m2, sb, algo, k2, wn, dn,
                            ) == path_result(m, sb, algo, k2, wn, dn) by {}
                        }
                        Err((n2, e))
                    },
                    Ok(child) => {
                        proof {
                            assert((d as int + 1) * (w as int) <= 2048) by (nonlinear_arith)
                                requires
                                    d as int <= 255 && w as int <= 8,
                            ;
                        }
                        let next_fits = (d + 1) * w < 256;
                        if next_fits {
                            proof {
                                assert((dn + 1) * wn < 256);
                                assert(dn + 1 <= (dn + 1) * wn) by (nonlinear_arith)
                                    requires
                                        wn >= 1 && dn >= 0,
                                ;
                            }
                            let ghost childm0 = node_model(child, wn, (d + 1) as nat);
                            match node_set(child, store, algo, key, h, value, w, threshold, d + 1) {
                                Ok((c2, prev)) => {
                                    let ghost childm2 = node_model(c2, wn, (d + 1) as nat);
                                    let newptr = Pointer::Dirty { node: Box::new(c2) };
                                    let ghost pmn = crate::node::ptr_model(newptr, wn, dn);
                                    let n2 = replace_slot(
                                        n,
                                        newptr,
                                        rank,
                                        idxu,
                                        w,
                                        d,
                                        Ghost(m),
                                        Ghost(ps0),
                                    );
                                    proof {
                                        let m2 = node_model(n2, wn, dn);
                                        lemma_path_replace(m, m2, sb, algo, wn, dn, idxu as int);
                                        assert(m2.pointers[count_ones(m.bitmap, idxu as int) as int]
                                            == pmn);
                                        assert(m.pointers[count_ones(m.bitmap, idxu as int) as int]
                                            == pm0);
                                        assert(pmn == PointerModel::Dirty {
                                            node: Box::new(childm2),
                                        });
                                        assert(pm0 == PointerModel::Link { reference: refg });
                                        assert forall|k2: Seq<u8>| true implies #[trigger] ptr_result(
                                            pm0,
                                            sb,
                                            algo,
                                            k2,
                                            wn,
                                            dn,
                                        ) == path_result(childm0, sb, algo, k2, wn, (d + 1) as nat) by {
                                            assert(store_find(sb, refg) == store.spec_get(refg));
                                        }
                                        assert forall|k2: Seq<u8>| k2 != key@ implies #[trigger] path_result(
                                            m2, sb, algo, k2, wn, dn,
                                        ) == path_result(m, sb, algo, k2, wn, dn) by {
                                            if slot_of(algo, k2, wn, dn) == idxu as nat {
                                                assert(ptr_result(pmn, sb, algo, k2, wn, dn)
                                                    == path_result(childm2, sb, algo, k2, wn, (d + 1) as nat));
                                                assert(path_result(childm2, sb, algo, k2, wn, (d + 1) as nat)
                                                    == path_result(childm0, sb, algo, k2, wn, (d + 1) as nat));
                                            }
                                        }
                                        assert(ptr_result(pmn, sb, algo, key@, wn, dn) == path_result(
                                            childm2, sb, algo, key@, wn, (d + 1) as nat));
                                    }
                                    Ok((n2, prev))
                                },
                                Err((c2, e)) => {
                                    let ghost childm2 = node_model(c2, wn, (d + 1) as nat);
                                    let newptr = Pointer::Dirty { node: Box::new(c2) };
                                    let ghost pmn = crate::node::ptr_model(newptr, wn, dn);
                                    let n2 = replace_slot(
                                        n,
                                        newptr,
                                        rank,
                                        idxu,
                                        w,
                                        d,
                                        Ghost(m),
                                        Ghost(ps0),
                                    );
                                    proof {
                                        let m2 = node_model(n2, wn, dn);
                                        lemma_path_replace(m, m2, sb, algo, wn, dn, idxu as int);
                                        assert(m2.pointers[count_ones(m.bitmap, idxu as int) as int]
                                            == pmn);
                                        assert(m.pointers[count_ones(m.bitmap, idxu as int) as int]
                                            == pm0);
                                        assert(pmn == PointerModel::Dirty {
                                            node: Box::new(childm2),
                                        });
                                        assert(pm0 == PointerModel::Link { reference: refg });
                                        assert forall|k2: Seq<u8>| true implies #[trigger] ptr_result(
                                            pm0,
                                            sb,
                                            algo,
                                            k2,
                                            wn,
                                            dn,
                                        ) == path_result(childm0, sb, algo, k2, wn, (d + 1) as nat) by {
                                            assert(store_find(sb, refg) == store.spec_get(refg));
                                        }
                                        assert forall|k2: Seq<u8>| true implies #[trigger] path_result(
                                            m2, sb, algo, k2, wn, dn,
                                        ) == path_result(m, sb, algo, k2, wn, dn) by {
                                            if slot_of(algo, k2, wn, dn) == idxu as nat {
                                                assert(ptr_result(pmn, sb, algo, k2, wn, dn)
                                                    == path_result(childm2, sb, algo, k2, wn, (d + 1) as nat));
                                                assert(path_result(childm2, sb, algo, k2, wn, (d + 1) as nat)
                                                    == path_result(childm0, sb, algo, k2, wn, (d + 1) as nat));
                                            }
                                        }
                                    }
                                    Err((n2, e))
                                },
                            }
                        } else {
                            // No hash bits remain below this level, so the
                            // stored child is unreachable by any key; the
                            // slot is rebuilt as a one-pair bucket.
                            let mut bucket = Bucket::new();
                            bucket.set(key, value);
                            let newptr = Pointer::Values { bucket };
                            let ghost pmn = crate::node::ptr_model(newptr, wn, dn);
                            let n2 = replace_slot(n, newptr, rank, idxu, w, d, Ghost(m), Ghost(ps0));
                            proof {
                                let m2 = node_model(n2, wn, dn);
                                lemma_path_replace(m, m2, sb, algo, wn, dn, idxu as int);
                                assert(m2.pointers[count_ones(m.bitmap, idxu as int) as int] == pmn);
                                assert(m.pointers[count_ones(m.bitmap, idxu as int) as int] == pm0);
                                assert(pm0 == PointerModel::Link { reference: refg });
                                assert(!((dn) < 255 && (dn + 1) * wn < 256)) by (nonlinear_arith)
                                    requires
                                        (dn + 1) * wn >= 256 || !(dn < 255),
                                ;
                                assert forall|k2: Seq<u8>| true implies #[trigger] ptr_result(
                                    pm0,
                                    sb,
                                    algo,
                                    k2,
                                    wn,
                                    dn,
                                ) == Ok::<Option<Seq<u8>>, Error>(None::<Seq<u8>>) by {
                                    assert(store_find(sb, refg) == store.spec_get(refg));
                                }
                                crate::node::lemma_find_model_bridge(
                                    newptr->Values_bucket.pairs@,
                                    key@,
                                );
                                assert forall|k2: Seq<u8>| k2 != key@ implies #[trigger] ptr_result(
                                    pmn,
                                    sb,
                                    algo,
                                    k2,
                                    wn,
                                    dn,
                                ) == Ok::<Option<Seq<u8>>, Error>(None::<Seq<u8>>) by {
                                    crate::node::lemma_find_model_bridge(
                                        newptr->Values_bucket.pairs@,
                                        k2,
                                    );
                                    assert(newptr->Values_bucket.spec_find(k2) == None::<Seq<u8>>);
                                }
                            }
                            Ok((n2, None))
                        }
                    },
                }
            },
        }
    }
}

/// What a successful removal guarantees against one particular store.
pub open spec fn del_post_at(
    m: NodeModel,
    m2: NodeModel,
    store: Seq<Block>,
    algo: HashAlgorithm,
    key: Seq<u8>,
    removed: Option<Vec<u8>>,
    w: nat,
    d: nat,
) -> bool {
    &&& wf_model(m2, w, d)
    &&& path_result(m2, store, algo, key, w, d) == Ok::<Option<Seq<u8>>, Error>(None::<Seq<u8>>)
    &&& forall|k2: Seq<u8>|
        k2 != key ==> #[trigger] path_result(m2, store, algo, k2, w, d) == path_result(
            m,
            store,
            algo,
            k2,
            w,
            d,
        )
    &&& match removed {
        Some(pv) => path_result(m, store, algo, key, w, d) == Ok::<Option<Seq<u8>>, Error>(
            Some(pv@),
        ),
        None => path_result(m, store, algo, key, w, d) == Ok::<Option<Seq<u8>>, Error>(
            None::<Seq<u8>>,
        ),
    }
}

/// A node with no pointers answers every key with absence.
pub proof fn lemma_no_pointers_empty(m: NodeModel, store: Seq<Block>, algo: HashAlgorithm, w: nat, d: nat)
    requires
        wf_model(m, w, d),
        m.pointers.len() == 0,
    ensures
        forall|k: Seq<u8>| #[trigger] path_result(m, store, algo, k, w, d) == Ok::<
            Option<Seq<u8>>,
            Error,
        >(None::<Seq<u8>>),
{
    assert forall|k: Seq<u8>| true implies #[trigger] path_result(m, store, algo, k, w, d) == Ok::<
        Option<Seq<u8>>,
        Error,
    >(None::<Seq<u8>>) by {
        let idx = slot_of(algo, k, w, d) as int;
        if 0 <= idx < m.bitmap.len() && m.bitmap[idx] {
            crate::node::lemma_count_mono(m.bitmap, idx, m.bitmap.len() as int);
            assert(count_ones(m.bitmap, idx + 1) > 0) by {
                crate::node::lemma_count_mono(m.bitmap, idx, idx + 1);
            }
            crate::node::lemma_count_mono(m.bitmap, idx + 1, m.bitmap.len() as int);
            assert(false);
        }
    }
}

/// Clears the occupied slot `idxu` of `n`, whose pointer at `rank` was taken
/// out.
fn clear_slot(
    n: Node,
    rank: usize,
    idxu: usize,
    w: u32,
    d: u32,
    Ghost(m): Ghost<NodeModel>,
    Ghost(ps0): Ghost<Seq<Pointer>>,
) -> (r: Node)
    requires
        depth_ok(w as nat, d as nat),
        wf_model(m, w as nat, d as nat),
        m.bitmap == n.bitmap@,
        m.pointers == crate::node::ptrs_model(ps0, w as nat, d as nat),
        idxu < n.bitmap@.len(),
        n.bitmap@[idxu as int],
        rank as int == count_ones(n.bitmap@, idxu as int),
        rank < ps0.len(),
        n.pointers@ == ps0.remove(rank as int),
    ensures
        ({
            let m2 = node_model(r, w as nat, d as nat);
            &&& wf_model(m2, w as nat, d as nat)
            &&& m2.bitmap == m.bitmap.update(idxu as int, false)
            &&& m2.pointers == m.pointers.remove(rank as int)
        }),
{
    let ghost wn = w as nat;
    let ghost dn = d as nat;
    let ghost bm0 = n.bitmap@;
    let mut n = n;
    proof {
        crate::node::lemma_ptrs_model_index(ps0, wn, dn);
        crate::node::lemma_count_mono(bm0, idxu as int, bm0.len() as int);
    }
    n.bitmap.remove(idxu);
    n.bitmap.insert(idxu, false);
    proof {
        let m2 = node_model(n, wn, dn);
        assert(n.bitmap@ =~= bm0.update(idxu as int, false));
        lemma_ptrs_model_remove(ps0, rank as int, wn, dn);
        assert(m2.pointers =~= m.pointers.remove(rank as int));
        crate::node::lemma_count_update(bm0, idxu as int, false, bm0.len() as int);
        crate::node::lemma_count_congruent(
            n.bitmap@,
            bm0.update(idxu as int, false),
            n.bitmap@.len() as int,
        );
        crate::node::lemma_wf_ptrs_index(m.pointers, wn, dn);
        assert(wf_model(m2, wn, dn)) by {
            assert forall|j: int| 0 <= j < m2.pointers.len() implies wf_ptr(
                #[trigger] m2.pointers[j],
                wn,
                dn,
            ) by {
                if j < rank {
                    assert(m2.pointers[j] == m.pointers[j]);
                } else {
                    assert(m2.pointers[j] == m.pointers[j + 1]);
                }
            }
            crate::node::lemma_wf_ptrs_build(m2.pointers, wn, dn);
        }
    }
    n
}

/// Removes the binding of `key` below `n`, resolving stored children as the
/// path demands; a bucket left empty, or a child left with no occupied
/// slots, is dropped from its parent. Fails exactly when a block on the
/// key's path is missing or malformed.
#[verifier::rlimit(60)]
pub fn node_delete(
    n: Node,
    store: &MemoryStore,
    algo: HashAlgorithm,
    key: &Vec<u8>,
    h: &HashedKey,
    w: u32,
    threshold: usize,
    d: u32,
) -> (r: Result<(Node, Option<Vec<u8>>), (Node, Error)>)
    requires
        depth_ok(w as nat, d as nat),
        wf_model(node_model(n, w as nat, d as nat), w as nat, d as nat),
        h@ == hash_of(algo, key@),
    ensures
        match r {
            Ok((n2, removed)) => del_post_at(
                node_model(n, w as nat, d as nat),
                node_model(n2, w as nat, d as nat),
                store.blocks@,
                algo,
                key@,
                removed,
                w as nat,
                d as nat,
            ),
            Err((n2, e)) => fail_post_at(
                node_model(n, w as nat, d as nat),
                node_model(n2, w as nat, d as nat),
                store.blocks@,
                algo,
                key@,
                e,
                w as nat,
                d as nat,
            ),
        },
    decreases 256 - d, 3int,
{
    let ghost wn = w as nat;
    let ghost dn = d as nat;
    let ghost m = node_model(n, wn, dn);
    let ghost sb = store.blocks@;
    let mut n = n;
    let idx = slot_index(h, w, d);
    let idxu = idx as usize;
    proof {
        assert(idx as nat == slot_of(algo, key@, wn, dn));
        assert(n.bitmap@.len() == pow2(wn));
        crate::node::lemma_ptrs_model_index(n.pointers@, wn, dn);
        crate::node::lemma_wf_ptrs_index(m.pointers, wn, dn);
        crate::node::lemma_count_mono(n.bitmap@, idx as int, n.bitmap@.len() as int);
    }
    if !n.bitmap[idxu] {
        return Ok((n, None));
    }
    let rank = crate::node::popcount_prefix(&n.bitmap, idxu);
    let ghost bm0 = n.bitmap@;
    let ghost ps0 = n.pointers@;
    let ptr = n.pointers.remove(rank);
    let ghost ptr0 = ptr;
    let ghost pm0 = crate::node::ptr_model(ptr0, wn, dn);
    proof {
        assert(pm0 == m.pointers[rank as int]);
        assert(wf_ptr(pm0, wn, dn));
    }
    match ptr {
        Pointer::Values { mut bucket } => {
            proof {
                crate::node::lemma_sorted_model_bridge(bucket.pairs@);
            }
            let ghost bpairs0 = bucket.pairs@;
            let removed = bucket.remove(key);
            let ghost bpairs1 = bucket.pairs@;
            proof {
                crate::node::lemma_find_model_bridge(bpairs0, key@);
                crate::node::lemma_find_model_bridge(bpairs1, key@);
            }
            if bucket.pairs.len() == 0 {
                let n2 = clear_slot(n, rank, idxu, w, d, Ghost(m), Ghost(ps0));
                proof {
                    let m2 = node_model(n2, wn, dn);
                    lemma_path_remove(m, m2, sb, algo, wn, dn, idxu as int);
                    assert(m.pointers[count_ones(m.bitmap, idxu as int) as int] == pm0);
                    assert forall|k2: Seq<u8>| true implies #[trigger] ptr_result(
                        pm0,
                        sb,
                        algo,
                        k2,
                        wn,
                        dn,
                    ) == Ok::<Option<Seq<u8>>, Error>(
                        crate::bucket::bucket_find(bpairs0, k2),
                    ) by {
                        crate::node::lemma_find_model_bridge(bpairs0, k2);
                    }
                    assert forall|k2: Seq<u8>| k2 != key@ implies crate::bucket::bucket_find(
                        bpairs0,
                        k2,
                    ) == None::<Seq<u8>> by {
                        assert(bucket.spec_find(k2) == None::<Seq<u8>>) by {
                            assert(bucket.pairs@.len() == 0);
                        }
                    }
                    assert forall|k2: Seq<u8>| k2 != key@ implies #[trigger] path_result(
                        m2,
                        sb,
                        algo,
                        k2,
                        wn,
                        dn,
                    ) == path_result(m, sb, algo, k2, wn, dn) by {
                        if slot_of(algo, k2, wn, dn) == idxu as nat {
                            assert(path_result(m, sb, algo, k2, wn, dn) == ptr_result(
                                pm0,
                                sb,
                                algo,
                                k2,
                                wn,
                                dn,
                            ));
                        }
                    }
                }
                Ok((n2, removed))
            } else {
                let newptr = Pointer::Values { bucket };
                let ghost pmn = crate::node::ptr_model(newptr, wn, dn);
                let n2 = replace_slot(n, newptr, rank, idxu, w, d, Ghost(m), Ghost(ps0));
                proof {
                    let m2 = node_model(n2, wn, dn);
                    lemma_path_replace(m, m2, sb, algo, wn, dn, idxu as int);
                    assert(m2.pointers[count_ones(m.bitmap, idxu as int) as int] == pmn);
                    assert(m.pointers[count_ones(m.bitmap, idxu as int) as int] == pm0);
                    assert forall|k2: Seq<u8>| true implies #[trigger] ptr_result(
                        pmn,
                        sb,
                        algo,
                        k2,
                        wn,
                        dn,
                    ) == Ok::<Option<Seq<u8>>, Error>(crate::bucket::bucket_find(bpairs1, k2))
                        && ptr_result(pm0, sb, algo, k2, wn, dn) == Ok::<Option<Seq<u8>>, Error>(
                        crate::bucket::bucket_find(bpairs0, k2),
                    ) by {
                        crate::node::lemma_find_model_bridge(bpairs1, k2);
                        crate::node::lemma_find_model_bridge(bpairs0, k2);
                    }
                    assert forall|k2: Seq<u8>| k2 != key@ implies crate::bucket::bucket_find(
                        bpairs1,
                        k2,
                    ) == crate::bucket::bucket_find(bpairs0, k2) by {
                        assert(bucket.spec_find(k2) == crate::bucket::bucket_find(bpairs1, k2));
                    }
                    assert forall|k2: Seq<u8>| k2 != key@ implies #[trigger] path_result(
                        m2,
                        sb,
                        algo,
                        k2,
                        wn,
                        dn,
                    ) == path_result(m, sb, algo, k2, wn, dn) by {
                        if slot_of(algo, k2, wn, dn) == idxu as nat {
                            assert(path_result(m, sb, algo, k2, wn, dn) == ptr_result(
                                pm0,
                                sb,
                                algo,
                                k2,
                                wn,
                                dn,
                            ));
                        }
                    }
                }
                Ok((n2, removed))
            }
        },
        Pointer::Dirty { node } => {
            proof {
                assert((dn + 1) * wn < 256);
                assert(dn + 1 <= (dn + 1) * wn) by (nonlinear_arith)
                    requires
                        wn >= 1 && dn >= 0,
                ;
            }
            let ghost childm0 = node_model(*node, wn, (d + 1) as nat);
            match node_delete(*node, store, algo, key, h, w, threshold, d + 1) {
                Ok((c2, removed)) => {
                    let ghost childm2 = node_model(c2, wn, (d + 1) as nat);
                    if c2.pointers.len() == 0 {
                        proof {
                            crate::node::lemma_ptrs_model_index(c2.pointers@, wn, (d + 1) as nat);
                            lemma_no_pointers_empty(childm2, sb, algo, wn, (d + 1) as nat);
                        }
                        let n2 = clear_slot(n, rank, idxu, w, d, Ghost(m), Ghost(ps0));
                        proof {
                            let m2 = node_model(n2, wn, dn);
                            lemma_path_remove(m, m2, sb, algo, wn, dn, idxu as int);
                            assert(m.pointers[count_ones(m.bitmap, idxu as int) as int] == pm0);
                            assert(pm0 == PointerModel::Dirty { node: Box::new(childm0) });
                            assert forall|k2: Seq<u8>| true implies #[trigger] ptr_result(
                                pm0,
                                sb,
                                algo,
                                k2,
                                wn,
                                dn,
                            ) == path_result(childm0, sb, algo, k2, wn, (d + 1) as nat) by {}
                            assert forall|k2: Seq<u8>| k2 != key@ implies #[trigger] path_result(
                                childm0,
                                sb,
                                algo,
                                k2,
                                wn,
                                (d + 1) as nat,
                            ) == Ok::<Option<Seq<u8>>, Error>(None::<Seq<u8>>) by {
                                assert(path_result(childm2, sb, algo, k2, wn, (d + 1) as nat)
                                    == path_result(childm0, sb, algo, k2, wn, (d + 1) as nat));
                            }
                            assert forall|k2: Seq<u8>| k2 != key@ implies #[trigger] path_result(
                                m2,
                                sb,
                                algo,
                                k2,
                                wn,
                                dn,
                            ) == path_result(m, sb, algo, k2, wn, dn) by {
                                if slot_of(algo, k2, wn, dn) == idxu as nat {
                                    assert(path_result(m, sb, algo, k2, wn, dn) == ptr_result(
                                        pm0,
                                        sb,
                                        algo,
                                        k2,
                                        wn,
                                        dn,
                                    ));
                                }
                            }
                        }
                        Ok((n2, removed))
                    } else {
                        let newptr = Pointer::Dirty { node: Box::new(c2) };
                        let ghost pmn = crate::node::ptr_model(newptr, wn, dn);
                        let n2 = replace_slot(n, newptr, rank, idxu, w, d, Ghost(m), Ghost(ps0));
                        proof {
                            let m2 = node_model(n2, wn, dn);
                            lemma_path_replace(m, m2, sb, algo, wn, dn, idxu as int);
                            assert(m2.pointers[count_ones(m.bitmap, idxu as int) as int] == pmn);
                            assert(m.pointers[count_ones(m.bitmap, idxu as int) as int] == pm0);
                            assert(pmn == PointerModel::Dirty { node: Box::new(childm2) });
                            assert(pm0 == PointerModel::Dirty { node: Box::new(childm0) });
                            assert forall|k2: Seq<u8>| k2 != key@ implies #[trigger] path_result(
                                m2,
                                sb,
                                algo,
                                k2,
                                wn,
                                dn,
                            ) == path_result(m, sb, algo, k2, wn, dn) by {
                                if slot_of(algo, k2, wn, dn) == idxu as nat {
                                    assert(ptr_result(pmn, sb, algo, k2, wn, dn) == path_result(
                                        childm2,
                                        sb,
                                        algo,
                                        k2,
                                        wn,
                                        (d + 1) as nat,
                                    ));
                                    assert(ptr_result(pm0, sb, algo, k2, wn, dn) == path_result(
                                        childm0,
                                        sb,
                                        algo,
                                        k2,
                                        wn,
                                        (d + 1) as nat,
                                    ));
                                    assert(path_result(childm2, sb, algo, k2, wn, (d + 1) as nat)
                                        == path_result(childm0, sb, algo, k2, wn, (d + 1) as nat));
                                }
                            }
                            assert(ptr_result(pmn, sb, algo, key@, wn, dn) == path_result(
                                childm2,
                                sb,
                                algo,
                                key@,
                                wn,
                                (d + 1) as nat,
                            ));
                            assert(ptr_result(pm0, sb, algo, key@, wn, dn) == path_result(
                                childm0,
                                sb,
                                algo,
                                key@,
                                wn,
                                (d + 1) as nat,
                            ));
                        }
                        Ok((n2, removed))
                    }
                },
                Err((c2, e)) => {
                    let ghost childm2 = node_model(c2, wn, (d + 1) as nat);
                    let newptr = Pointer::Dirty { node: Box::new(c2) };
                    let ghost pmn = crate::node::ptr_model(newptr, wn, dn);
                    let n2 = replace_slot(n, newptr, rank, idxu, w, d, Ghost(m), Ghost(ps0));
                    proof {
                        let m2 = node_model(n2, wn, dn);
                        lemma_path_replace(m, m2, sb, algo, wn, dn, idxu as int);
                        assert(m2.pointers[count_ones(m.bitmap, idxu as int) as int] == pmn);
                        assert(m.pointers[count_ones(m.bitmap, idxu as int) as int] == pm0);
                        assert(pmn == PointerModel::Dirty { node: Box::new(childm2) });
                        assert(pm0 == PointerModel::Dirty { node: Box::new(childm0) });
                        assert forall|k2: Seq<u8>| true implies #[trigger] path_result(
                            m2,
                            sb,
                            algo,
                            k2,
                            wn,
                            dn,
                        ) == path_result(m, sb, algo, k2, wn, dn) by {
                            if slot_of(algo, k2, wn, dn) == idxu as nat {
                                assert(ptr_result(pmn, sb, algo, k2, wn, dn) == path_result(
                                    childm2,
                                    sb,
                                    algo,
                                    k2,
                                    wn,
                                    (d + 1) as nat,
                                ));
                                assert(ptr_result(pm0, sb, algo, k2, wn, dn) == path_result(
                                    childm0,
                                    sb,
                                    algo,
                                    k2,
                                    wn,
                                    (d + 1) as nat,
                                ));
                                assert(path_result(childm2, sb, algo, k2, wn, (d + 1) as nat)
                                    == path_result(childm0, sb, algo, k2, wn, (d + 1) as nat));
                            }
                        }
                    }
                    Err((n2, e))
                },
            }
        },
        Pointer::Link { reference } => {
            let ghost refg = reference@;
            match load_child(store, &reference, w) {
                Err(e) => {
                    let restored = Pointer::Link { reference };
                    let n2 = replace_slot(n, restored, rank, idxu, w, d, Ghost(m), Ghost(ps0));
                    proof {
                        let m2 = node_model(n2, wn, dn);
                        lemma_path_replace(m, m2, sb, algo, wn, dn, idxu as int);
                        assert(m2.pointers[count_ones(m.bitmap, idxu as int) as int] == pm0);
                        assert(m.pointers[count_ones(m.bitmap, idxu as int) as int] == pm0);
                        assert forall|k2: Seq<u8>| true implies #[trigger] path_result(
                            m2,
                            sb,
                            algo,
                            k2,
                            wn,
                            dn,
                        ) == path_result(m, sb, algo, k2, wn, dn) by {}
                    }
                    Err((n2, e))
                },
                Ok(child) => {
                    proof {
                        assert((d as int + 1) * (w as int) <= 2048) by (nonlinear_arith)
                            requires
                                d as int <= 255 && w as int <= 8,
                        ;
                    }
                    let next_fits = (d + 1) * w < 256;
                    if !next_fits {
                        let restored = Pointer::Link { reference };
                        let n2 = replace_slot(n, restored, rank, idxu, w, d, Ghost(m), Ghost(ps0));
                        proof {
                            let m2 = node_model(n2, wn, dn);
                            lemma_path_replace(m, m2, sb, algo, wn, dn, idxu as int);
                            assert(m2.pointers[count_ones(m.bitmap, idxu as int) as int] == pm0);
                            assert(m.pointers[count_ones(m.bitmap, idxu as int) as int] == pm0);
                            assert(!((dn) < 255 && (dn + 1) * wn < 256)) by (nonlinear_arith)
                                requires
                                    (dn + 1) * wn >= 256 || !(dn < 255),
                            ;
                            assert forall|k2: Seq<u8>| true implies #[trigger] ptr_result(
                                pm0,
                                sb,
                                algo,
                                k2,
                                wn,
                                dn,
                            ) == Ok::<Option<Seq<u8>>, Error>(None::<Seq<u8>>) by {
                                assert(store_find(sb, refg) == store.spec_get(refg));
                            }
                            assert forall|k2: Seq<u8>| true implies #[trigger] path_result(
                                m2,
                                sb,
                                algo,
                                k2,
                                wn,
                                dn,
                            ) == path_result(m, sb, algo, k2, wn, dn) by {}
                        }
                        return Ok((n2, None));
                    }
                    proof {
                        assert((dn + 1) * wn < 256);
                        assert(dn + 1 <= (dn + 1) * wn) by (nonlinear_arith)
                            requires
                                wn >= 1 && dn >= 0,
                        ;
                    }
                    let ghost childm0 = node_model(child, wn, (d + 1) as nat);
                    proof {
                        assert forall|k2: Seq<u8>| true implies #[trigger] ptr_result(
                            pm0,
                            sb,
                            algo,
                            k2,
                            wn,
                            dn,
                        ) == path_result(childm0, sb, algo, k2, wn, (d + 1) as nat) by {
                            assert(store_find(sb, refg) == store.spec_get(refg));
                        }
                    }
                    match node_delete(child, store, algo, key, h, w, threshold, d + 1) {
                        Ok((c2, removed)) => {
                            let ghost childm2 = node_model(c2, wn, (d + 1) as nat);
                            if c2.pointers.len() == 0 {
                                proof {
                                    crate::node::lemma_ptrs_model_index(
                                        c2.pointers@,
                                        wn,
                                        (d + 1) as nat,
                                    );
                                    lemma_no_pointers_empty(childm2, sb, algo, wn, (d + 1) as nat);
                                }
                                let n2 = clear_slot(n, rank, idxu, w, d, Ghost(m), Ghost(ps0));
                                proof {
                                    let m2 = node_model(n2, wn, dn);
                                    lemma_path_remove(m, m2, sb, algo, wn, dn, idxu as int);
                                    assert(m.pointers[count_ones(m.bitmap, idxu as int) as int]
                                        == pm0);
                                    assert forall|k2: Seq<u8>| k2 != key@ implies #[trigger] path_result(
                                        childm0,
                                        sb,
                                        algo,
                                        k2,
                                        wn,
                                        (d + 1) as nat,
                                    ) == Ok::<Option<Seq<u8>>, Error>(None::<Seq<u8>>) by {
                                        assert(path_result(childm2, sb, algo, k2, wn, (d + 1) as nat)
                                            == path_result(childm0, sb, algo, k2, wn, (d + 1) as nat));
                                    }
                                    assert forall|k2: Seq<u8>| k2 != key@ implies #[trigger] path_result(
                                        m2,
                                        sb,
                                        algo,
                                        k2,
                                        wn,
                                        dn,
                                    ) == path_result(m, sb, algo, k2, wn, dn) by {
                                        if slot_of(algo, k2, wn, dn) == idxu as nat {
                                            assert(path_result(m, sb, algo, k2, wn, dn) == ptr_result(
                                                pm0,
                                                sb,
                                                algo,
                                                k2,
                                                wn,
                                                dn,
                                            ));
                                        }
                                    }
                                }
                                Ok((n2, removed))
                            } else {
                                let newptr = Pointer::Dirty { node: Box::new(c2) };
                                let ghost pmn = crate::node::ptr_model(newptr, wn, dn);
                                let n2 = replace_slot(
                                    n,
                                    newptr,
                                    rank,
                                    idxu,
                                    w,
                                    d,
                                    Ghost(m),
                                    Ghost(ps0),
                                );
                                proof {
                                    let m2 = node_model(n2, wn, dn);
                                    lemma_path_replace(m, m2, sb, algo, wn, dn, idxu as int);
                                    assert(m2.pointers[count_ones(m.bitmap, idxu as int) as int]
                                        == pmn);
                                    assert(m.pointers[count_ones(m.bitmap, idxu as int) as int]
                                        == pm0);
                                    assert(pmn == PointerModel::Dirty { node: Box::new(childm2) });
                                    assert forall|k2: Seq<u8>| k2 != key@ implies #[trigger] path_result(
                                        m2,
                                        sb,
                                        algo,
                                        k2,
                                        wn,
                                        dn,
                                    ) == path_result(m, sb, algo, k2, wn, dn) by {
                                        if slot_of(algo, k2, wn, dn) == idxu as nat {
                                            assert(ptr_result(pmn, sb, algo, k2, wn, dn)
                                                == path_result(childm2, sb, algo, k2, wn, (d + 1) as nat));
                                            assert(path_result(childm2, sb, algo, k2, wn, (d + 1) as nat)
                                                == path_result(childm0, sb, algo, k2, wn, (d + 1) as nat));
                                        }
                                    }
                                    assert(ptr_result(pmn, sb, algo, key@, wn, dn) == path_result(
                                        childm2,
                                        sb,
                                        algo,
                                        key@,
                                        wn,
                                        (d + 1) as nat,
                                    ));
                                assert forall|k2: Seq<u8>| k2 != key@ implies #[trigger] path_result(
                                    m2,
                                    sb,
                                    algo,
                                    k2,
                                    wn,
                                    dn,
                                ) == path_result(m, sb, algo, k2, wn, dn) by {
                                    if slot_of(algo, k2, wn, dn) == idxu as nat {
                                        assert(path_result(m, sb, algo, k2, wn, dn) == ptr_result(
                                            pm0,
                                            sb,
                                            algo,
                                            k2,
                                            wn,
                                            dn,
                                        ));
                                    }
                                }
                                }
                                Ok((n2, removed))
                            }
                        },
                        Err((c2, e)) => {
                            let ghost childm2 = node_model(c2, wn, (d + 1) as nat);
                            let newptr = Pointer::Dirty { node: Box::new(c2) };
                            let ghost pmn = crate::node::ptr_model(newptr, wn, dn);
                            let n2 = replace_slot(n, newptr, rank, idxu, w, d, Ghost(m), Ghost(ps0));
                            proof {
                                let m2 = node_model(n2, wn, dn);
                                lemma_path_replace(m, m2, sb, algo, wn, dn, idxu as int);
                                assert(m2.pointers[count_ones(m.bitmap, idxu as int) as int] == pmn);
                                assert(m.pointers[count_ones(m.bitmap, idxu as int) as int] == pm0);
                                assert(pmn == PointerModel::Dirty { node: Box::new(childm2) });
                                assert forall|k2: Seq<u8>| true implies #[trigger] path_result(
                                    m2,
                                    sb,
                                    algo,
                                    k2,
                                    wn,
                                    dn,
                                ) == path_result(m, sb, algo, k2, wn, dn) by {
                                    if slot_of(algo, k2, wn, dn) == idxu as nat {
                                        assert(ptr_result(pmn, sb, algo, k2, wn, dn) == path_result(
                                            childm2,
                                            sb,
                                            algo,
                                            k2,
                                            wn,
                                            (d + 1) as nat,
                                        ));
                                        assert(path_result(childm2, sb, algo, k2, wn, (d + 1) as nat)
                                            == path_result(childm0, sb, algo, k2, wn, (d + 1) as nat));
                                    }
                                }
                            }
                            Err((n2, e))
                        },
                    }
                },
            }
        },
    }
}

/// The pairs below a model node, depth-first in ascending slot order;
/// or the error the first failing child resolution produces.
pub open spec fn entries_node(
    m: NodeModel,
    store: Seq<Block>,
    w: nat,
    d: nat,
) -> Result<Seq<(Seq<u8>, Seq<u8>)>, Error>
    decreases 256 - d, 2int, 0int,
{
    if d >= 256 || d * w >= 256 || w < 1 {
        Ok(Seq::empty())
    } else {
        entries_ptrs(m.pointers, 0, store, w, d)
    }
}

/// The pairs below the pointers from index `i` on, left to right.
pub open spec fn entries_ptrs(
    s: Seq<PointerModel>,
    i: int,
    store: Seq<Block>,
    w: nat,
    d: nat,
) -> Result<Seq<(Seq<u8>, Seq<u8>)>, Error>
    decreases 256 - d, 1int, s.len() - i,
{
    if d >= 256 || d * w >= 256 || i < 0 || i >= s.len() {
        Ok(Seq::empty())
    } else {
        match entries_ptr(s[i], store, w, d) {
            Err(e) => Err(e),
            Ok(head) => match entries_ptrs(s, i + 1, store, w, d) {
                Err(e) => Err(e),
                Ok(rest) => Ok(head + rest),
            },
        }
    }
}

/// The pairs below one pointer.
pub open spec fn entries_ptr(
    p: PointerModel,
    store: Seq<Block>,
    w: nat,
    d: nat,
) -> Result<Seq<(Seq<u8>, Seq<u8>)>, Error>
    decreases 256 - d, 0int, 0int,
{
    match p {
        PointerModel::Values { pairs } => Ok(pairs),
        PointerModel::Dirty { node } => {
            if d < 255 && (d + 1) * w < 256 {
                entries_node(*node, store, w, d + 1)
            } else {
                Ok(Seq::empty())
            }
        },
        PointerModel::Link { reference } => match store_find(store, reference) {
            None => Err(Error::StorageError),
            Some(bytes) => match parse_node(bytes, w) {
                None => Err(Error::DecodeError),
                Some(child) => {
                    if d < 255 && (d + 1) * w < 256 {
                        entries_node(child, store, w, d + 1)
                    } else {
                        Ok(Seq::empty())
                    }
                },
            },
        },
    }
}

/// Collects the pairs below one pointer, mirroring `entries_ptr`.
fn pointer_entries(
    p: &Pointer,
    store: &MemoryStore,
    w: u32,
    d: u32,
) -> (r: Result<Vec<KeyValue>, Error>)
    requires
        depth_ok(w as nat, d as nat),
        wf_ptr(crate::node::ptr_model(*p, w as nat, d as nat), w as nat, d as nat),
    ensures
        match r {
            Ok(v) => entries_ptr(
                crate::node::ptr_model(*p, w as nat, d as nat),
                store.blocks@,
                w as nat,
                d as nat,
            ) == Ok::<Seq<(Seq<u8>, Seq<u8>)>, Error>(pairs_model(v@)),
            Err(e) => entries_ptr(
                crate::node::ptr_model(*p, w as nat, d as nat),
                store.blocks@,
                w as nat,
                d as nat,
            ) == Err::<Seq<(Seq<u8>, Seq<u8>)>, Error>(e),
        },
    decreases 256 - d, 0int,
{
    let ghost wn = w as nat;
    let ghost dn = d as nat;
    let ghost pmi = crate::node::ptr_model(*p, wn, dn);
    let ghost sb = store.blocks@;
    match p {
        Pointer::Values { bucket } => {
            let pairs = crate::bucket::copy_pairs(&bucket.pairs);
            Ok(pairs)
        },
        Pointer::Dirty { node } => {
            proof {
                assert((dn + 1) * wn < 256 && wn >= 1 && dn < 256) by {
                    if !(dn < 256 && (dn + 1) * wn < 256 && wn >= 1) {
                        assert(pmi == PointerModel::Link { reference: Seq::empty() });
                    }
                }
                assert(dn + 1 <= (dn + 1) * wn) by (nonlinear_arith)
                    requires
                        wn >= 1 && dn >= 0,
                ;
            }
            node_entries(node, store, w, d + 1)
        },
        Pointer::Link { reference } => {
            let ghost refg = reference@;
            proof {
                assert(store_find(sb, refg) == store.spec_get(refg));
            }
            let child = match load_child(store, reference, w) {
                Err(e) => {
                    return Err(e);
                },
                Ok(child) => child,
            };
            proof {
                assert((d as int + 1) * (w as int) <= 2048) by (nonlinear_arith)
                    requires
                        d as int <= 255 && w as int <= 8,
                ;
            }
            let next_fits = (d + 1) * w < 256;
            if !next_fits {
                proof {
                    assert(!((dn) < 255 && (dn + 1) * wn < 256)) by (nonlinear_arith)
                        requires
                            (dn + 1) * wn >= 256 || !(dn < 255),
                    ;
                    assert(pairs_model(Seq::<KeyValue>::empty()) =~= Seq::<
                        (Seq<u8>, Seq<u8>),
                    >::empty());
                }
                return Ok(Vec::new());
            }
            proof {
                assert((dn + 1) * wn < 256);
                assert(dn + 1 <= (dn + 1) * wn) by (nonlinear_arith)
                    requires
                        wn >= 1 && dn >= 0,
                ;
            }
            node_entries(&child, store, w, d + 1)
        },
    }
}

/// Collects every pair below `n`, depth-first in ascending slot order,
/// loading stored children as needed. The result mirrors `entries_node`
/// exactly.
pub fn node_entries(
    n: &Node,
    store: &MemoryStore,
    w: u32,
    d: u32,
) -> (r: Result<Vec<KeyValue>, Error>)
    requires
        depth_ok(w as nat, d as nat),
        wf_model(node_model(*n, w as nat, d as nat), w as nat, d as nat),
    ensures
        match r {
            Ok(v) => entries_node(
                node_model(*n, w as nat, d as nat),
                store.blocks@,
                w as nat,
                d as nat,
            ) == Ok::<Seq<(Seq<u8>, Seq<u8>)>, Error>(pairs_model(v@)),
            Err(e) => entries_node(
                node_model(*n, w as nat, d as nat),
                store.blocks@,
                w as nat,
                d as nat,
            ) == Err::<Seq<(Seq<u8>, Seq<u8>)>, Error>(e),
        },
    decreases 256 - d, 1int,
{
    let ghost wn = w as nat;
    let ghost dn = d as nat;
    let ghost m = node_model(*n, wn, dn);
    let ghost sb = store.blocks@;
    proof {
        crate::node::lemma_ptrs_model_index(n.pointers@, wn, dn);
        crate::node::lemma_wf_ptrs_index(m.pointers, wn, dn);
    }
    let mut acc: Vec<KeyValue> = Vec::new();
    let mut i: usize = 0;
    proof {
        assert(pairs_model(acc@) =~= Seq::<(Seq<u8>, Seq<u8>)>::empty());
    }
    while i < n.pointers.len()
        invariant
            wn == w as nat,
            dn == d as nat,
            depth_ok(wn, dn),
            i <= n.pointers@.len(),
            m == node_model(*n, wn, dn),
            wf_model(m, wn, dn),
            sb == store.blocks@,
            m.pointers.len() == n.pointers@.len(),
            forall|j: int|
                0 <= j < n.pointers@.len() ==> #[trigger] m.pointers[j]
                    == crate::node::ptr_model(n.pointers@[j], wn, dn),
            forall|j: int|
                0 <= j < n.pointers@.len() ==> crate::node::wf_ptr(
                    #[trigger] m.pointers[j],
                    wn,
                    dn,
                ),
            match entries_ptrs(m.pointers, i as int, sb, wn, dn) {
                Ok(rest) => entries_ptrs(m.pointers, 0, sb, wn, dn) == Ok::<
                    Seq<(Seq<u8>, Seq<u8>)>,
                    Error,
                >(pairs_model(acc@) + rest),
                Err(e) => entries_ptrs(m.pointers, 0, sb, wn, dn) == Err::<
                    Seq<(Seq<u8>, Seq<u8>)>,
                    Error,
                >(e),
            },
        decreases n.pointers@.len() - i,
    {
        let ghost pmi = m.pointers[i as int];
        let mut found: Vec<KeyValue> = match pointer_entries(&n.pointers[i], store, w, d) {
            Err(e) => {
                return Err(e);
            },
            Ok(v) => v,
        };
        let ghost accm = pairs_model(acc@);
        let ghost foundm = pairs_model(found@);
        acc.append(&mut found);
        proof {
            assert(pairs_model(acc@) =~= accm + foundm);
            assert(entries_ptr(pmi, sb, wn, dn) == Ok::<Seq<(Seq<u8>, Seq<u8>)>, Error>(foundm));
            if entries_ptrs(m.pointers, i + 1, sb, wn, dn) is Ok {
                let rest = entries_ptrs(m.pointers, i + 1, sb, wn, dn)->Ok_0;
                assert(accm + foundm + rest =~= accm + (foundm + rest));
            }
        }
        i = i + 1;
    }
    proof {
        assert(entries_ptrs(m.pointers, i as int, sb, wn, dn) == Ok::<
            Seq<(Seq<u8>, Seq<u8>)>,
            Error,
        >(Seq::empty()));
        assert(pairs_model(acc@) + Seq::<(Seq<u8>, Seq<u8>)>::empty() =~= pairs_model(acc@));
    }
    Ok(acc)
}
/// A store that has only grown answers every already-resolved path as
/// before: a resolved lookup never changes when blocks are added.
pub proof fn lemma_path_store_extend(
    m: NodeModel,
    s1: Seq<Block>,
    s2: Seq<Block>,
    algo: HashAlgorithm,
    k: Seq<u8>,
    w: nat,
    d: nat,
)
    requires
        store_extends(s1, s2),
        path_result(m, s1, algo, k, w, d) is Ok,
    ensures
        path_result(m, s2, algo, k, w, d) == path_result(m, s1, algo, k, w, d),
    decreases 256 - d, 1int,
{
    if d >= 256 || d * w >= 256 || w < 1 {
    } else {
        let idx = slot_of(algo, k, w, d) as int;
        if 0 <= idx < m.bitmap.len() && m.bitmap[idx] {
            lemma_ptr_store_extend(
                m.pointers[count_ones(m.bitmap, idx) as int],
                s1,
                s2,
                algo,
                k,
                w,
                d,
            );
        }
    }
}

/// The pointer-level companion of `lemma_path_store_extend`.
pub proof fn lemma_ptr_store_extend(
    p: PointerModel,
    s1: Seq<Block>,
    s2: Seq<Block>,
    algo: HashAlgorithm,
    k: Seq<u8>,
    w: nat,
    d: nat,
)
    requires
        store_extends(s1, s2),
        ptr_result(p, s1, algo, k, w, d) is Ok,
    ensures
        ptr_result(p, s2, algo, k, w, d) == ptr_result(p, s1, algo, k, w, d),
    decreases 256 - d, 0int,
{
    match p {
        PointerModel::Values { .. } => {
        },
        PointerModel::Dirty { node } => {
            if d < 255 && (d + 1) * w < 256 {
                lemma_path_store_extend(*node, s1, s2, algo, k, w, d + 1);
            }
        },
        PointerModel::Link { reference } => {
            assert(store_find(s1, reference) is Some);
            assert(store_find(s2, reference) == store_find(s1, reference));
            let bytes = store_find(s1, reference)->Some_0;
            assert(parse_node(bytes, w) is Some);
            if d < 255 && (d + 1) * w < 256 {
                lemma_path_store_extend(parse_node(bytes, w)->Some_0, s1, s2, algo, k, w, d + 1);
            }
        },
    }
}

/// The pairs that follow the first pair holding `k`, in traversal order;
/// empty when no pair holds `k`.
pub open spec fn after_key(s: Seq<(Seq<u8>, Seq<u8>)>, k: Seq<u8>) -> Seq<(Seq<u8>, Seq<u8>)>
    decreases s.len(),
{
    if s.len() == 0 {
        Seq::empty()
    } else if s[0].0 == k {
        s.skip(1)
    } else {
        after_key(s.skip(1), k)
    }
}

} // verus!
