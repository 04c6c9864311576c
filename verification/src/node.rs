//! Trie nodes: a bitmap over `2^bit_width` slots and a dense, rank-indexed
//! vector of the occupied slots' pointers.
//!
//! Each in-memory node is mirrored by a mathematical model (`NodeModel`) over
//! sequences; contracts and the serialization format speak of models, so a
//! node loaded from the store and the node that produced its block can be
//! compared directly.

use vstd::prelude::*;
use vstd::arithmetic::power2::pow2;

use crate::bucket::{lex_lt, Bucket, KeyValue};

verus! {

/// A slot pointer: an unresolved block reference, an in-memory child node,
/// or a leaf bucket.
pub enum Pointer {
    /// A not-yet-loaded reference to a stored child node.
    Link { reference: Vec<u8> },
    /// A loaded (possibly mutated) child node.
    Dirty { node: Box<Node> },
    /// A leaf bucket of key-value pairs.
    Values { bucket: Bucket },
}

/// One level of the trie.
pub struct Node {
    /// One flag per slot; flag `i` says slot `i` is occupied.
    pub bitmap: Vec<bool>,
    /// The occupied slots' pointers, in ascending slot order.
    pub pointers: Vec<Pointer>,
}

/// The mathematical mirror of a pointer.
pub enum PointerModel {
    Link { reference: Seq<u8> },
    Dirty { node: Box<NodeModel> },
    Values { pairs: Seq<(Seq<u8>, Seq<u8>)> },
}

/// The mathematical mirror of a node.
pub struct NodeModel {
    pub bitmap: Seq<bool>,
    pub pointers: Seq<PointerModel>,
}

/// The pairs of a bucket as mathematical values.
pub open spec fn pairs_model(s: Seq<KeyValue>) -> Seq<(Seq<u8>, Seq<u8>)> {
    s.map_values(|kv: KeyValue| (kv.key@, kv.value@))
}

/// Linear lookup in a model bucket.
pub open spec fn find_model(s: Seq<(Seq<u8>, Seq<u8>)>, k: Seq<u8>) -> Option<Seq<u8>>
    decreases s.len(),
{
    if s.len() == 0 {
        None
    } else if s[0].0 == k {
        Some(s[0].1)
    } else {
        find_model(s.skip(1), k)
    }
}

/// Model pairs in strictly ascending key order.
pub open spec fn sorted_model(s: Seq<(Seq<u8>, Seq<u8>)>) -> bool {
    forall|i: int, j: int| 0 <= i < j < s.len() ==> lex_lt((#[trigger] s[i]).0, (#[trigger] s[j]).0)
}

/// Looking a key up in a bucket's model finds what the bucket holds.
pub proof fn lemma_find_model_bridge(s: Seq<KeyValue>, k: Seq<u8>)
    ensures
        find_model(pairs_model(s), k) == crate::bucket::bucket_find(s, k),
    decreases s.len(),
{
    if s.len() > 0 {
        lemma_find_model_bridge(s.skip(1), k);
        assert(pairs_model(s).skip(1) =~= pairs_model(s.skip(1)));
    }
}

/// A bucket's model is sorted exactly when the bucket is.
pub proof fn lemma_sorted_model_bridge(s: Seq<KeyValue>)
    ensures
        sorted_model(pairs_model(s)) == crate::bucket::bucket_sorted(s),
{
    let m = pairs_model(s);
    if crate::bucket::bucket_sorted(s) {
        assert forall|i: int, j: int| 0 <= i < j < m.len() implies lex_lt(
            (#[trigger] m[i]).0,
            (#[trigger] m[j]).0,
        ) by {
            assert(m[i].0 == s[i].key@ && m[j].0 == s[j].key@);
        }
    }
    if sorted_model(m) {
        assert forall|i: int, j: int| 0 <= i < j < s.len() implies lex_lt(
            #[trigger] s[i].key@,
            #[trigger] s[j].key@,
        ) by {
            assert(m[i].0 == s[i].key@ && m[j].0 == s[j].key@);
        }
    }
}

/// Number of set flags among the first `upto` slots: the rank of slot
/// `upto` in the dense pointer vector.
pub open spec fn count_ones(bm: Seq<bool>, upto: int) -> nat
    decreases upto,
{
    if upto <= 0 {
        0
    } else {
        count_ones(bm, upto - 1) + if bm[upto - 1] {
            1nat
        } else {
            0nat
        }
    }
}

/// The rank never exceeds the slot index.
pub proof fn lemma_count_bound(bm: Seq<bool>, j: int)
    ensures
        count_ones(bm, j) <= if j <= 0 {
            0
        } else {
            j
        },
    decreases j,
{
    if j > 0 {
        lemma_count_bound(bm, j - 1);
    }
}

/// Ranks grow with the slot index, and strictly past an occupied slot.
pub proof fn lemma_count_mono(bm: Seq<bool>, i: int, j: int)
    requires
        0 <= i <= j,
    ensures
        count_ones(bm, i) <= count_ones(bm, j),
        i < j && bm[i] ==> count_ones(bm, i) < count_ones(bm, j),
    decreases j,
{
    if i < j {
        lemma_count_mono(bm, i, j - 1);
    }
}

/// How flipping one slot changes each rank.
pub proof fn lemma_count_update(bm: Seq<bool>, i: int, v: bool, j: int)
    requires
        0 <= i < bm.len(),
        0 <= j <= bm.len(),
    ensures
        count_ones(bm.update(i, v), j) as int == count_ones(bm, j) as int + if i < j {
            (if v {
                1int
            } else {
                0int
            }) - (if bm[i] {
                1int
            } else {
                0int
            })
        } else {
            0int
        },
    decreases j,
{
    if j > 0 {
        lemma_count_update(bm, i, v, j - 1);
    }
}

/// A run of clear flags counts for nothing.
pub proof fn lemma_count_zeros(bm: Seq<bool>, j: int)
    requires
        forall|m: int| 0 <= m < j ==> !(#[trigger] bm[m]),
    ensures
        count_ones(bm, j) == 0,
    decreases j,
{
    if j > 0 {
        lemma_count_zeros(bm, j - 1);
    }
}

/// Counting is unchanged where the flags agree.
pub proof fn lemma_count_congruent(bm1: Seq<bool>, bm2: Seq<bool>, j: int)
    requires
        forall|m: int| 0 <= m < j ==> (#[trigger] bm1[m]) == bm2[m],
    ensures
        count_ones(bm1, j) == count_ones(bm2, j),
    decreases j,
{
    if j > 0 {
        lemma_count_congruent(bm1, bm2, j - 1);
    }
}

/// The model of a run of pointers.
pub open spec fn ptrs_model(s: Seq<Pointer>, w: nat, d: nat) -> Seq<PointerModel>
    decreases 256 - d, 1int, s.len(),
{
    if d >= 256 || d * w >= 256 || s.len() == 0 {
        Seq::empty()
    } else {
        seq![ptr_model(s[0], w, d)] + ptrs_model(s.skip(1), w, d)
    }
}

/// The model of one pointer.
pub open spec fn ptr_model(p: Pointer, w: nat, d: nat) -> PointerModel
    decreases 256 - d, 0int, 0int,
{
    match p {
        Pointer::Link { reference } => PointerModel::Link { reference: reference@ },
        Pointer::Values { bucket } => PointerModel::Values { pairs: pairs_model(bucket.pairs@) },
        Pointer::Dirty { node } => {
            if d < 256 && (d + 1) * w < 256 && w >= 1 {
                PointerModel::Dirty { node: Box::new(node_model(*node, w, d + 1)) }
            } else {
                PointerModel::Link { reference: Seq::empty() }
            }
        },
    }
}

/// The model of a node standing at depth `d` of a trie with bit width `w`.
pub open spec fn node_model(n: Node, w: nat, d: nat) -> NodeModel
    decreases 256 - d, 2int, 0int,
{
    NodeModel { bitmap: n.bitmap@, pointers: ptrs_model(n.pointers@, w, d) }
}

/// Pointer models line up with the pointers.
pub proof fn lemma_ptrs_model_index(s: Seq<Pointer>, w: nat, d: nat)
    requires
        d < 256,
        d * w < 256,
    ensures
        ptrs_model(s, w, d).len() == s.len(),
        forall|i: int|
            0 <= i < s.len() ==> #[trigger] ptrs_model(s, w, d)[i] == ptr_model(s[i], w, d),
    decreases s.len(),
{
    if s.len() > 0 {
        lemma_ptrs_model_index(s.skip(1), w, d);
        let m = ptrs_model(s, w, d);
        assert forall|i: int| 0 <= i < s.len() implies #[trigger] m[i] == ptr_model(
            s[i],
            w,
            d,
        ) by {
            if i > 0 {
                assert(m[i] == ptrs_model(s.skip(1), w, d)[i - 1]);
                assert(s.skip(1)[i - 1] == s[i]);
            }
        }
    }
}

/// Structural well-formedness of a model node at depth `d`.
pub open spec fn wf_model(m: NodeModel, w: nat, d: nat) -> bool
    decreases 256 - d, 2int, 0int,
{
    if w < 1 || w > 8 || d >= 256 || d * w >= 256 {
        false
    } else {
        &&& m.bitmap.len() == pow2(w)
        &&& m.pointers.len() == count_ones(m.bitmap, m.bitmap.len() as int)
        &&& wf_ptrs(m.pointers, w, d)
    }
}

/// Structural well-formedness of a run of pointer models.
pub open spec fn wf_ptrs(s: Seq<PointerModel>, w: nat, d: nat) -> bool
    decreases 256 - d, 1int, s.len(),
{
    if d >= 256 || d * w >= 256 {
        false
    } else if s.len() == 0 {
        true
    } else {
        wf_ptr(s[0], w, d) && wf_ptrs(s.skip(1), w, d)
    }
}

/// Structural well-formedness of one pointer model.
pub open spec fn wf_ptr(p: PointerModel, w: nat, d: nat) -> bool
    decreases 256 - d, 0int, 0int,
{
    match p {
        PointerModel::Link { reference } => reference.len() == 32,
        PointerModel::Values { pairs } => sorted_model(pairs) && pairs.len() >= 1,
        PointerModel::Dirty { node } => {
            if d < 256 && (d + 1) * w < 256 && w >= 1 {
                wf_model(*node, w, d + 1)
            } else {
                false
            }
        },
    }
}

/// Each pointer of a well-formed run is well-formed.
pub proof fn lemma_wf_ptrs_index(s: Seq<PointerModel>, w: nat, d: nat)
    requires
        wf_ptrs(s, w, d),
    ensures
        forall|i: int| 0 <= i < s.len() ==> wf_ptr(#[trigger] s[i], w, d),
    decreases s.len(),
{
    if s.len() > 0 {
        lemma_wf_ptrs_index(s.skip(1), w, d);
        assert forall|i: int| 0 <= i < s.len() implies wf_ptr(#[trigger] s[i], w, d) by {
            if i > 0 {
                assert(s.skip(1)[i - 1] == s[i]);
                assert(wf_ptr(s.skip(1)[i - 1], w, d));
            }
        }
    }
}

/// A run whose pointers are each well-formed is well-formed.
pub proof fn lemma_wf_ptrs_build(s: Seq<PointerModel>, w: nat, d: nat)
    requires
        d < 256,
        d * w < 256,
        forall|i: int| 0 <= i < s.len() ==> wf_ptr(#[trigger] s[i], w, d),
    ensures
        wf_ptrs(s, w, d),
    decreases s.len(),
{
    if s.len() > 0 {
        assert(forall|m: int| 0 <= m < s.skip(1).len() ==> s.skip(1)[m] == s[m + 1]);
        lemma_wf_ptrs_build(s.skip(1), w, d);
    }
}

/// No link pointers anywhere below this model node: every child is loaded.
pub open spec fn no_links(m: NodeModel, w: nat, d: nat) -> bool
    decreases 256 - d, 2int, 0int,
{
    if d >= 256 || d * w >= 256 {
        true
    } else {
        no_links_ptrs(m.pointers, w, d)
    }
}

/// No link pointers in a run of pointer models.
pub open spec fn no_links_ptrs(s: Seq<PointerModel>, w: nat, d: nat) -> bool
    decreases 256 - d, 1int, s.len(),
{
    if d >= 256 || d * w >= 256 || s.len() == 0 {
        true
    } else {
        no_links_ptr(s[0], w, d) && no_links_ptrs(s.skip(1), w, d)
    }
}

/// No link pointers in or below one pointer model.
pub open spec fn no_links_ptr(p: PointerModel, w: nat, d: nat) -> bool
    decreases 256 - d, 0int, 0int,
{
    match p {
        PointerModel::Link { .. } => false,
        PointerModel::Values { .. } => true,
        PointerModel::Dirty { node } => {
            if d < 256 && (d + 1) * w < 256 && w >= 1 {
                no_links(*node, w, d + 1)
            } else {
                true
            }
        },
    }
}

/// Each pointer of a link-free run is link-free.
pub proof fn lemma_no_links_ptrs_index(s: Seq<PointerModel>, w: nat, d: nat)
    requires
        no_links_ptrs(s, w, d),
        d < 256,
        d * w < 256,
    ensures
        forall|i: int| 0 <= i < s.len() ==> no_links_ptr(#[trigger] s[i], w, d),
    decreases s.len(),
{
    if s.len() > 0 {
        lemma_no_links_ptrs_index(s.skip(1), w, d);
        assert forall|i: int| 0 <= i < s.len() implies no_links_ptr(#[trigger] s[i], w, d) by {
            if i > 0 {
                assert(s.skip(1)[i - 1] == s[i]);
                assert(no_links_ptr(s.skip(1)[i - 1], w, d));
            }
        }
    }
}

/// A run whose pointers are each link-free is link-free.
pub proof fn lemma_no_links_ptrs_build(s: Seq<PointerModel>, w: nat, d: nat)
    requires
        d < 256,
        d * w < 256,
        forall|i: int| 0 <= i < s.len() ==> no_links_ptr(#[trigger] s[i], w, d),
    ensures
        no_links_ptrs(s, w, d),
    decreases s.len(),
{
    if s.len() > 0 {
        assert(forall|m: int| 0 <= m < s.skip(1).len() ==> s.skip(1)[m] == s[m + 1]);
        lemma_no_links_ptrs_build(s.skip(1), w, d);
    }
}

/// No pointer of this node is a loaded child: every child is a reference or
/// a bucket, as the serialized form requires.
pub open spec fn is_clean(m: NodeModel) -> bool {
    forall|i: int|
        0 <= i < m.pointers.len() ==> !((#[trigger] m.pointers[i]) is Dirty)
}

/// Counts the set flags among the first `upto` slots.
pub fn popcount_prefix(bitmap: &Vec<bool>, upto: usize) -> (r: usize)
    requires
        upto <= bitmap@.len(),
    ensures
        r == count_ones(bitmap@, upto as int),
{
    proof {
        lemma_count_bound(bitmap@, upto as int);
    }
    let mut r: usize = 0;
    let mut i: usize = 0;
    while i < upto
        invariant
            i <= upto,
            upto <= bitmap@.len(),
            r == count_ones(bitmap@, i as int),
            r <= i,
        decreases upto - i,
    {
        if bitmap[i] {
            r = r + 1;
        }
        i = i + 1;
    }
    r
}

impl Node {
    /// An empty node for a trie of bit width `w`: all slots clear.
    pub fn new_empty(w: u32) -> (r: Node)
        requires
            1 <= w <= 8,
        ensures
            r.bitmap@.len() == pow2(w as nat),
            r.pointers@.len() == 0,
            forall|m: int| 0 <= m < r.bitmap@.len() ==> !(#[trigger] r.bitmap@[m]),
    {
        let slots: usize = 1usize << w;
        proof {
            vstd::arithmetic::power2::lemma2_to64();
            vstd::bits::lemma_usize_pow2_no_overflow(w as nat);
            vstd::arithmetic::power2::lemma_pow2_strictly_increases(w as nat, 9);
            vstd::bits::lemma_usize_shl_is_mul(1usize, w as usize);
        }
        let mut bitmap: Vec<bool> = Vec::new();
        let mut i: usize = 0;
        while i < slots
            invariant
                i <= slots,
                bitmap@.len() == i,
                forall|m: int| 0 <= m < i ==> !(#[trigger] bitmap@[m]),
            decreases slots - i,
        {
            bitmap.push(false);
            i = i + 1;
        }
        Node { bitmap, pointers: Vec::new() }
    }
}

} // verus!
