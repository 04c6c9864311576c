//! The serialization codec: node models to block bytes and back.
//!
//! A block is a function of the node's model alone, so two nodes with the
//! same logical shape serialize to the same bytes. A node block holds the
//! bitmap (one byte per slot) followed by the occupied slots' entries in
//! ascending slot order; each entry is either a child-block reference or an
//! embedded bucket in canonical key order. A root block prefixes the node
//! block with the trie's bit width and bucket threshold.

use vstd::prelude::*;
use vstd::arithmetic::power2::pow2;

use crate::bucket::{Bucket, KeyValue};
use crate::node::{
    count_ones, sorted_model, pairs_model, Node, NodeModel, Pointer, PointerModel,
};

verus! {

/// The 8 bytes of `x`, most significant first.
pub open spec fn be64(x: u64) -> Seq<u8> {
    Seq::new(8, |i: int| (x >> ((56 - 8 * i) as u64)) as u8)
}

/// The value eight big-endian bytes stand for.
pub open spec fn be64_val(
    b0: u8,
    b1: u8,
    b2: u8,
    b3: u8,
    b4: u8,
    b5: u8,
    b6: u8,
    b7: u8,
) -> u64 {
    (((b0 as u64) << 56) | ((b1 as u64) << 48) | ((b2 as u64) << 40) | ((b3 as u64) << 32) | (
    (b4 as u64) << 24) | ((b5 as u64) << 16) | ((b6 as u64) << 8) | (b7 as u64)) as u64
}

/// Reading back the eight bytes of `x` gives `x`.
pub proof fn lemma_be64_roundtrip(x: u64)
    ensures
        be64_val(
            be64(x)[0],
            be64(x)[1],
            be64(x)[2],
            be64(x)[3],
            be64(x)[4],
            be64(x)[5],
            be64(x)[6],
            be64(x)[7],
        ) == x,
{
    let b0 = be64(x)[0];
    let b1 = be64(x)[1];
    let b2 = be64(x)[2];
    let b3 = be64(x)[3];
    let b4 = be64(x)[4];
    let b5 = be64(x)[5];
    let b6 = be64(x)[6];
    let b7 = be64(x)[7];
    assert((((b0 as u64) << 56) | ((b1 as u64) << 48) | ((b2 as u64) << 40) | ((b3 as u64) << 32)
        | ((b4 as u64) << 24) | ((b5 as u64) << 16) | ((b6 as u64) << 8) | (b7 as u64)) == x)
        by (bit_vector)
        requires
            b0 == (x >> 56) as u8,
            b1 == (x >> 48) as u8,
            b2 == (x >> 40) as u8,
            b3 == (x >> 32) as u8,
            b4 == (x >> 24) as u8,
            b5 == (x >> 16) as u8,
            b6 == (x >> 8) as u8,
            b7 == (x >> 0) as u8,
    ;
}

/// Appends the eight big-endian bytes of `x`.
pub fn push_be64(out: &mut Vec<u8>, x: u64)
    ensures
        final(out)@ == old(out)@ + be64(x),
{
    let ghost s0 = out@;
    out.push((x >> 56) as u8);
    out.push((x >> 48) as u8);
    out.push((x >> 40) as u8);
    out.push((x >> 32) as u8);
    out.push((x >> 24) as u8);
    out.push((x >> 16) as u8);
    out.push((x >> 8) as u8);
    out.push(x as u8);
    proof {
        assert(x as u8 == (x >> 0) as u8) by (bit_vector);
        assert(out@ =~= s0 + be64(x));
    }
}

/// Reads the eight big-endian bytes at `pos`.
pub fn read_be64(b: &Vec<u8>, pos: usize) -> (r: u64)
    requires
        pos + 8 <= b@.len(),
    ensures
        r == be64_val(
            b@[pos as int],
            b@[pos + 1],
            b@[pos + 2],
            b@[pos + 3],
            b@[pos + 4],
            b@[pos + 5],
            b@[pos + 6],
            b@[pos + 7],
        ),
{
    let n = b.len();
    assert(pos + 8 <= n);
    ((b[pos] as u64) << 56u64) | ((b[pos + 1] as u64) << 48u64) | ((b[pos + 2] as u64) << 40u64) | (
    (b[pos + 3] as u64) << 32u64) | ((b[pos + 4] as u64) << 24u64) | ((b[pos + 5] as u64)
        << 16u64) | ((b[pos + 6] as u64) << 8u64) | (b[pos + 7] as u64)
}

// ---------------------------------------------------------------------------
// Encoding, as a function of the model.
// ---------------------------------------------------------------------------

/// The encoding of one key-value pair: both byte strings, length-prefixed.
pub open spec fn enc_pair(p: (Seq<u8>, Seq<u8>)) -> Seq<u8> {
    be64(p.0.len() as u64) + p.0 + be64(p.1.len() as u64) + p.1
}

/// The encoding of the pairs from index `i` on.
pub open spec fn enc_pairs_from(s: Seq<(Seq<u8>, Seq<u8>)>, i: int) -> Seq<u8>
    decreases s.len() - i,
{
    if i < 0 || i >= s.len() {
        Seq::empty()
    } else {
        enc_pair(s[i]) + enc_pairs_from(s, i + 1)
    }
}

/// The encoding of one child entry: a tagged reference or embedded bucket.
pub open spec fn enc_ptr(p: PointerModel) -> Seq<u8> {
    match p {
        PointerModel::Link { reference } => seq![0u8] + reference,
        PointerModel::Values { pairs } => seq![1u8] + be64(pairs.len() as u64) + enc_pairs_from(
            pairs,
            0,
        ),
        PointerModel::Dirty { .. } => Seq::empty(),
    }
}

/// The encoding of the child entries from index `i` on.
pub open spec fn enc_ptrs_from(s: Seq<PointerModel>, i: int) -> Seq<u8>
    decreases s.len() - i,
{
    if i < 0 || i >= s.len() {
        Seq::empty()
    } else {
        enc_ptr(s[i]) + enc_ptrs_from(s, i + 1)
    }
}

/// The bitmap as bytes, one per slot.
pub open spec fn enc_bitmap(bm: Seq<bool>) -> Seq<u8> {
    Seq::new(
        bm.len(),
        |i: int|
            if bm[i] {
                1u8
            } else {
                0u8
            },
    )
}

/// The encoding of a whole node block.
pub open spec fn enc_node(m: NodeModel) -> Seq<u8> {
    enc_bitmap(m.bitmap) + enc_ptrs_from(m.pointers, 0)
}

/// The encoding of a root block: bit width, bucket threshold, root node.
pub open spec fn enc_root(w: u8, threshold: u64, m: NodeModel) -> Seq<u8> {
    seq![w] + be64(threshold) + enc_node(m)
}

// ---------------------------------------------------------------------------
// Parsing, as a function of the bytes.
// ---------------------------------------------------------------------------

/// Parses one length-prefixed key-value pair at `pos`.
pub open spec fn parse_pair(b: Seq<u8>, pos: int) -> Option<((Seq<u8>, Seq<u8>), int)> {
    if pos < 0 || pos + 8 > b.len() {
        None
    } else {
        let kl = be64_val(
            b[pos],
            b[pos + 1],
            b[pos + 2],
            b[pos + 3],
            b[pos + 4],
            b[pos + 5],
            b[pos + 6],
            b[pos + 7],
        ) as int;
        if pos + 8 + kl + 8 > b.len() {
            None
        } else {
            let key = b.subrange(pos + 8, pos + 8 + kl);
            let p2 = pos + 8 + kl;
            let vl = be64_val(
                b[p2],
                b[p2 + 1],
                b[p2 + 2],
                b[p2 + 3],
                b[p2 + 4],
                b[p2 + 5],
                b[p2 + 6],
                b[p2 + 7],
            ) as int;
            if p2 + 8 + vl > b.len() {
                None
            } else {
                Some(((key, b.subrange(p2 + 8, p2 + 8 + vl)), p2 + 8 + vl))
            }
        }
    }
}

/// Parses `cnt` pairs starting at `pos`.
pub open spec fn parse_pairs(b: Seq<u8>, pos: int, cnt: nat) -> Option<
    (Seq<(Seq<u8>, Seq<u8>)>, int),
>
    decreases cnt,
{
    if cnt == 0 {
        Some((Seq::empty(), pos))
    } else {
        match parse_pair(b, pos) {
            None => None,
            Some((p, pos2)) => match parse_pairs(b, pos2, (cnt - 1) as nat) {
                None => None,
                Some((rest, end)) => Some((seq![p] + rest, end)),
            },
        }
    }
}

/// Parses one tagged child entry at `pos`. A bucket entry must be nonempty
/// and in strictly ascending key order, else the block is rejected.
pub open spec fn parse_ptr(b: Seq<u8>, pos: int) -> Option<(PointerModel, int)> {
    if pos < 0 || pos >= b.len() {
        None
    } else if b[pos] == 0 {
        if pos + 33 > b.len() {
            None
        } else {
            Some((PointerModel::Link { reference: b.subrange(pos + 1, pos + 33) }, pos + 33))
        }
    } else if b[pos] == 1 {
        if pos + 9 > b.len() {
            None
        } else {
            let cnt = be64_val(
                b[pos + 1],
                b[pos + 2],
                b[pos + 3],
                b[pos + 4],
                b[pos + 5],
                b[pos + 6],
                b[pos + 7],
                b[pos + 8],
            );
            if cnt == 0 {
                None
            } else {
                match parse_pairs(b, pos + 9, cnt as nat) {
                    None => None,
                    Some((pairs, end)) => if sorted_model(pairs) {
                        Some((PointerModel::Values { pairs }, end))
                    } else {
                        None
                    },
                }
            }
        }
    } else {
        None
    }
}

/// Parses `cnt` child entries starting at `pos`.
pub open spec fn parse_ptrs(b: Seq<u8>, pos: int, cnt: nat) -> Option<(Seq<PointerModel>, int)>
    decreases cnt,
{
    if cnt == 0 {
        Some((Seq::empty(), pos))
    } else {
        match parse_ptr(b, pos) {
            None => None,
            Some((p, pos2)) => match parse_ptrs(b, pos2, (cnt - 1) as nat) {
                None => None,
                Some((rest, end)) => Some((seq![p] + rest, end)),
            },
        }
    }
}

/// Parses a node block of a trie with bit width `w`. The block must be
/// consumed exactly, and every bitmap byte must be 0 or 1.
pub open spec fn parse_node(b: Seq<u8>, w: nat) -> Option<NodeModel> {
    let slots = pow2(w) as int;
    if w < 1 || w > 8 {
        None
    } else if b.len() < slots {
        None
    } else if exists|i: int| 0 <= i < slots && (#[trigger] b[i]) != 0 && b[i] != 1 {
        None
    } else {
        let bitmap = Seq::new(slots as nat, |i: int| b[i] == 1);
        match parse_ptrs(b, slots, count_ones(bitmap, slots)) {
            None => None,
            Some((ps, end)) => if end == b.len() {
                Some(NodeModel { bitmap, pointers: ps })
            } else {
                None
            },
        }
    }
}

/// Parses a root block: bit width, bucket threshold, root node.
pub open spec fn parse_root(b: Seq<u8>) -> Option<(u8, u64, NodeModel)> {
    if b.len() < 9 {
        None
    } else {
        let w = b[0];
        let threshold = be64_val(b[1], b[2], b[3], b[4], b[5], b[6], b[7], b[8]);
        if w < 1 || w > 8 || threshold == 0 {
            None
        } else {
            match parse_node(b.skip(9), w as nat) {
                None => None,
                Some(m) => Some((w, threshold, m)),
            }
        }
    }
}

// ---------------------------------------------------------------------------
// Executable encoding.
// ---------------------------------------------------------------------------

/// A pointer that can stand in a block: not a loaded child, and with sizes
/// that fit the length prefixes.
pub open spec fn encodable_ptr(p: Pointer) -> bool {
    match p {
        Pointer::Dirty { .. } => false,
        Pointer::Link { reference } => reference@.len() == 32,
        Pointer::Values { bucket } => {
            &&& 1 <= bucket.pairs@.len() <= u64::MAX
            &&& forall|j: int|
                0 <= j < bucket.pairs@.len() ==> (#[trigger] bucket.pairs@[j]).key@.len()
                    <= u64::MAX && bucket.pairs@[j].value@.len() <= u64::MAX
        },
    }
}

/// A node whose every pointer can stand in a block.
pub open spec fn encodable_node(n: Node) -> bool {
    forall|i: int| 0 <= i < n.pointers@.len() ==> encodable_ptr(#[trigger] n.pointers@[i])
}

/// The model of a pointer that is not a loaded child, the same at every
/// depth.
pub open spec fn clean_ptr_model(p: Pointer) -> PointerModel {
    match p {
        Pointer::Link { reference } => PointerModel::Link { reference: reference@ },
        Pointer::Values { bucket } => PointerModel::Values { pairs: pairs_model(bucket.pairs@) },
        Pointer::Dirty { .. } => PointerModel::Link { reference: Seq::empty() },
    }
}

/// Appends a copy of `v`.
pub fn push_bytes(out: &mut Vec<u8>, v: &Vec<u8>)
    ensures
        final(out)@ == old(out)@ + v@,
{
    let ghost s0 = out@;
    let mut i: usize = 0;
    while i < v.len()
        invariant
            i <= v.len(),
            out@ == s0 + v@.take(i as int),
        decreases v.len() - i,
    {
        out.push(v[i]);
        proof {
            assert(s0 + v@.take(i as int) + seq![v@[i as int]] =~= s0 + v@.take(i + 1));
        }
        i = i + 1;
    }
    proof {
        assert(s0 + v@.take(v@.len() as int) =~= s0 + v@);
    }
}

/// Appends the encodings of the pairs from index `i` on.
fn enc_pairs_exec(out: &mut Vec<u8>, pairs: &Vec<KeyValue>, i: usize)
    requires
        i <= pairs@.len(),
        forall|j: int|
            0 <= j < pairs@.len() ==> (#[trigger] pairs@[j]).key@.len() <= u64::MAX
                && pairs@[j].value@.len() <= u64::MAX,
    ensures
        final(out)@ == old(out)@ + enc_pairs_from(pairs_model(pairs@), i as int),
    decreases pairs@.len() - i,
{
    let ghost pm = pairs_model(pairs@);
    if i >= pairs.len() {
        proof {
            assert(out@ =~= out@ + enc_pairs_from(pm, i as int));
        }
        return ;
    }
    let ghost s0 = out@;
    let kv = &pairs[i];
    push_be64(out, kv.key.len() as u64);
    push_bytes(out, &kv.key);
    push_be64(out, kv.value.len() as u64);
    push_bytes(out, &kv.value);
    proof {
        assert(pm[i as int] == (pairs@[i as int].key@, pairs@[i as int].value@));
        assert(out@ =~= s0 + enc_pair(pm[i as int]));
    }
    enc_pairs_exec(out, pairs, i + 1);
    proof {
        assert(s0 + enc_pair(pm[i as int]) + enc_pairs_from(pm, i + 1) =~= s0 + enc_pairs_from(
            pm,
            i as int,
        ));
    }
}

/// Appends the encodings of the child entries from index `i` on.
fn enc_ptrs_exec(out: &mut Vec<u8>, ptrs: &Vec<Pointer>, i: usize)
    requires
        i <= ptrs@.len(),
        forall|j: int| 0 <= j < ptrs@.len() ==> encodable_ptr(#[trigger] ptrs@[j]),
    ensures
        final(out)@ == old(out)@ + enc_ptrs_from(
            ptrs@.subrange(i as int, ptrs@.len() as int).map_values(
                |p: Pointer| clean_ptr_model(p),
            ),
            0,
        ),
    decreases ptrs@.len() - i,
{
    let ghost rest = ptrs@.subrange(i as int, ptrs@.len() as int).map_values(
        |p: Pointer| clean_ptr_model(p),
    );
    if i >= ptrs.len() {
        proof {
            assert(rest.len() == 0);
            assert(out@ =~= out@ + enc_ptrs_from(rest, 0));
        }
        return ;
    }
    let ghost s0 = out@;
    match &ptrs[i] {
        Pointer::Link { reference } => {
            out.push(0u8);
            push_bytes(out, reference);
            proof {
                assert(rest[0] == clean_ptr_model(ptrs@[i as int]));
                assert(out@ =~= s0 + enc_ptr(rest[0]));
            }
        },
        Pointer::Values { bucket } => {
            out.push(1u8);
            push_be64(out, bucket.pairs.len() as u64);
            enc_pairs_exec(out, &bucket.pairs, 0);
            proof {
                assert(rest[0] == clean_ptr_model(ptrs@[i as int]));
                assert(out@ =~= s0 + enc_ptr(rest[0]));
            }
        },
        Pointer::Dirty { .. } => {
            proof {
                assert(encodable_ptr(ptrs@[i as int]));
                assert(false);
            }
        },
    }
    enc_ptrs_exec(out, ptrs, i + 1);
    proof {
        let tail = ptrs@.subrange(i + 1, ptrs@.len() as int).map_values(
            |p: Pointer| clean_ptr_model(p),
        );
        assert(rest.skip(1) =~= tail);
        assert(enc_ptrs_from(rest, 0) == enc_ptr(rest[0]) + enc_ptrs_from(rest, 1));
        lemma_enc_ptrs_shift(rest, tail);
        assert(s0 + enc_ptr(rest[0]) + enc_ptrs_from(tail, 0) =~= s0 + enc_ptrs_from(rest, 0));
    }
}

/// Dropping the first entry shifts the encoding of the rest.
proof fn lemma_enc_ptrs_shift(s: Seq<PointerModel>, t: Seq<PointerModel>)
    requires
        s.len() >= 1,
        t =~= s.skip(1),
    ensures
        enc_ptrs_from(s, 1) == enc_ptrs_from(t, 0),
    decreases s.len(),
{
    lemma_enc_ptrs_from_skip(s, 1);
    lemma_enc_ptrs_from_skip(t, 0);
    assert(s.skip(1) =~= t.skip(0));
}

/// The encoding from `i` on is the encoding of the suffix from 0.
proof fn lemma_enc_ptrs_from_skip(s: Seq<PointerModel>, i: int)
    requires
        0 <= i <= s.len(),
    ensures
        enc_ptrs_from(s, i) == enc_ptrs_from(s.skip(i), 0),
    decreases s.len() - i,
{
    if i < s.len() {
        lemma_enc_ptrs_from_skip(s, i + 1);
        let t = s.skip(i);
        assert(t[0] == s[i]);
        assert(t.skip(1) =~= s.skip(i + 1));
        lemma_enc_ptrs_from_zero_unfold(t);
        assert(enc_ptrs_from(s.skip(i + 1), 0) == enc_ptrs_from(t.skip(1), 0));
    } else {
        assert(s.skip(i).len() == 0);
    }
}

/// Unfolding the suffix encoding once.
proof fn lemma_enc_ptrs_from_zero_unfold(t: Seq<PointerModel>)
    requires
        t.len() >= 1,
    ensures
        enc_ptrs_from(t, 0) == enc_ptr(t[0]) + enc_ptrs_from(t.skip(1), 0),
    decreases t.len(),
{
    lemma_enc_ptrs_from_skip_one(t);
}

/// The encoding from 1 on equals the encoding of the tail from 0.
proof fn lemma_enc_ptrs_from_skip_one(t: Seq<PointerModel>)
    requires
        t.len() >= 1,
    ensures
        enc_ptrs_from(t, 1) == enc_ptrs_from(t.skip(1), 0),
    decreases t.len(),
{
    let u = t.skip(1);
    if t.len() == 1 {
        assert(u.len() == 0);
    } else {
        assert(u[0] == t[1]);
        assert(u.skip(1) =~= t.skip(2));
        lemma_enc_ptrs_from_skip_one_general(t, 1);
    }
}

/// The encoding from `i` on, unrolled elementwise against the suffix.
proof fn lemma_enc_ptrs_from_skip_one_general(t: Seq<PointerModel>, i: int)
    requires
        0 <= i <= t.len(),
    ensures
        enc_ptrs_from(t, i) == enc_ptrs_from(t.skip(i), 0),
    decreases t.len() - i,
{
    if i < t.len() {
        lemma_enc_ptrs_from_skip_one_general(t, i + 1);
        let u = t.skip(i);
        assert(u[0] == t[i]);
        assert(u.skip(1) =~= t.skip(i + 1));
        assert(enc_ptrs_from(u, 0) == enc_ptr(u[0]) + enc_ptrs_from(u.skip(1), 0)) by {
            lemma_enc_ptrs_from_skip_one_general(u, 1);
        }
    } else {
        assert(t.skip(i).len() == 0);
    }
}

/// Serializes a node block: the bitmap, then each occupied slot's entry in
/// ascending slot order.
pub fn encode_node(n: &Node) -> (r: Vec<u8>)
    requires
        encodable_node(*n),
    ensures
        forall|w: nat, d: nat|
            1 <= w && d < 256 && d * w < 256 ==> r@ == enc_node(
                #[trigger] crate::node::node_model(*n, w, d),
            ),
{
    let mut out: Vec<u8> = Vec::new();
    let mut i: usize = 0;
    while i < n.bitmap.len()
        invariant
            i <= n.bitmap@.len(),
            out@ == enc_bitmap(n.bitmap@).take(i as int),
        decreases n.bitmap@.len() - i,
    {
        if n.bitmap[i] {
            out.push(1u8);
        } else {
            out.push(0u8);
        }
        proof {
            assert(out@ =~= enc_bitmap(n.bitmap@).take(i + 1));
        }
        i = i + 1;
    }
    proof {
        assert(out@ =~= enc_bitmap(n.bitmap@));
    }
    enc_ptrs_exec(&mut out, &n.pointers, 0);
    proof {
        assert forall|w: nat, d: nat| 1 <= w && d < 256 && d * w < 256 implies out@ == enc_node(
            #[trigger] crate::node::node_model(*n, w, d),
        ) by {
            let m = crate::node::node_model(*n, w, d);
            crate::node::lemma_ptrs_model_index(n.pointers@, w, d);
            let mapped = n.pointers@.subrange(0, n.pointers@.len() as int).map_values(
                |p: Pointer| clean_ptr_model(p),
            );
            assert forall|j: int| 0 <= j < n.pointers@.len() implies m.pointers[j] == mapped[j] by {
                assert(m.pointers[j] == crate::node::ptr_model(n.pointers@[j], w, d));
                assert(encodable_ptr(n.pointers@[j]));
            }
            assert(m.pointers =~= mapped);
            assert(out@ =~= enc_bitmap(n.bitmap@) + enc_ptrs_from(mapped, 0));
        }
    }
    out
}

// ---------------------------------------------------------------------------
// Executable decoding.
// ---------------------------------------------------------------------------

/// Copies `b[from..to]`.
pub fn copy_range(b: &Vec<u8>, from: usize, to: usize) -> (r: Vec<u8>)
    requires
        from <= to <= b@.len(),
    ensures
        r@ == b@.subrange(from as int, to as int),
{
    let mut out: Vec<u8> = Vec::new();
    let mut i: usize = from;
    while i < to
        invariant
            from <= i <= to <= b@.len(),
            out@ == b@.subrange(from as int, i as int),
        decreases to - i,
    {
        out.push(b[i]);
        proof {
            assert(out@ =~= b@.subrange(from as int, i + 1));
        }
        i = i + 1;
    }
    out
}

/// Strictly ascending neighbours make the whole run strictly ascending.
proof fn lemma_lex_chain(s: Seq<KeyValue>, i: int, j: int)
    requires
        forall|m: int|
            0 <= m < s.len() - 1 ==> crate::bucket::lex_lt(
                (#[trigger] s[m]).key@,
                s[m + 1].key@,
            ),
        0 <= i < j < s.len(),
    ensures
        crate::bucket::lex_lt(s[i].key@, s[j].key@),
    decreases j - i,
{
    if j == i + 1 {
        assert(crate::bucket::lex_lt(s[i].key@, s[i + 1].key@));
    } else {
        lemma_lex_chain(s, i, j - 1);
        assert(crate::bucket::lex_lt(s[j - 1].key@, s[j].key@));
        crate::bucket::lemma_lex_trans(s[i].key@, s[j - 1].key@, s[j].key@);
    }
}

/// Checks that the pairs stand in strictly ascending key order.
pub fn check_sorted(pairs: &Vec<KeyValue>) -> (r: bool)
    ensures
        r == crate::bucket::bucket_sorted(pairs@),
{
    let mut i: usize = 0;
    if pairs.len() <= 1 {
        return true;
    }
    while i < pairs.len() - 1
        invariant
            pairs@.len() >= 1,
            i + 1 <= pairs@.len(),
            forall|m: int|
                0 <= m < i ==> crate::bucket::lex_lt(
                    (#[trigger] pairs@[m]).key@,
                    pairs@[m + 1].key@,
                ),
        decreases pairs@.len() - i,
    {
        if !crate::bucket::key_less(&pairs[i].key, &pairs[i + 1].key) {
            proof {
                assert(!crate::bucket::bucket_sorted(pairs@)) by {
                    if crate::bucket::bucket_sorted(pairs@) {
                        assert(crate::bucket::lex_lt(pairs@[i as int].key@, pairs@[i + 1].key@));
                    }
                }
            }
            return false;
        }
        i = i + 1;
    }
    proof {
        assert forall|x: int, y: int| 0 <= x < y < pairs@.len() implies crate::bucket::lex_lt(
            (#[trigger] pairs@[x]).key@,
            (#[trigger] pairs@[y]).key@,
        ) by {
            lemma_lex_chain(pairs@, x, y);
        }
    }
    true
}

/// Reads one length-prefixed key-value pair.
fn dec_pair(b: &Vec<u8>, pos: usize) -> (r: Option<(KeyValue, usize)>)
    ensures
        match r {
            Some(kvp) => {
                &&& parse_pair(b@, pos as int) == Some(
                    ((kvp.0.key@, kvp.0.value@), kvp.1 as int),
                )
                &&& pos < kvp.1 <= b@.len()
                &&& kvp.0.key@.len() <= u64::MAX
                &&& kvp.0.value@.len() <= u64::MAX
            },
            None => parse_pair(b@, pos as int) == None::<((Seq<u8>, Seq<u8>), int)>,
        },
{
    let n = b.len();
    if pos > n || n - pos < 8 {
        return None;
    }
    let kl = read_be64(b, pos);
    let rem8: u64 = (n - (pos + 8)) as u64;
    if kl > rem8 {
        return None;
    }
    let klu: usize = kl as usize;
    let p2 = pos + 8 + klu;
    if n - p2 < 8 {
        return None;
    }
    let key = copy_range(b, pos + 8, p2);
    let vl = read_be64(b, p2);
    let rem2: u64 = (n - (p2 + 8)) as u64;
    if vl > rem2 {
        return None;
    }
    let vlu: usize = vl as usize;
    let end = p2 + 8 + vlu;
    let value = copy_range(b, p2 + 8, end);
    Some((KeyValue { key, value }, end))
}

/// Reads `cnt` pairs.
fn dec_pairs(b: &Vec<u8>, pos: usize, cnt: u64) -> (r: Option<(Vec<KeyValue>, usize)>)
    requires
        pos <= b@.len(),
    ensures
        match r {
            Some(vp) => {
                &&& parse_pairs(b@, pos as int, cnt as nat) == Some(
                    (pairs_model(vp.0@), vp.1 as int),
                )
                &&& pos <= vp.1 <= b@.len()
                &&& vp.0@.len() == cnt
                &&& forall|j: int|
                    0 <= j < vp.0@.len() ==> (#[trigger] vp.0@[j]).key@.len() <= u64::MAX
                        && vp.0@[j].value@.len() <= u64::MAX
            },
            None => parse_pairs(b@, pos as int, cnt as nat) == None::<
                (Seq<(Seq<u8>, Seq<u8>)>, int),
            >,
        },
    decreases cnt,
{
    if cnt == 0 {
        let empty: Vec<KeyValue> = Vec::new();
        proof {
            assert(pairs_model(empty@) =~= Seq::<(Seq<u8>, Seq<u8>)>::empty());
        }
        return Some((empty, pos));
    }
    match dec_pair(b, pos) {
        None => None,
        Some((kv, p2)) => {
            let ghost kvm = (kv.key@, kv.value@);
            match dec_pairs(b, p2, cnt - 1) {
                None => None,
                Some((mut rest, end)) => {
                    rest.insert(0, kv);
                    proof {
                        assert(pairs_model(rest@) =~= seq![kvm] + pairs_model(
                            rest@.skip(1),
                        )) by {
                            assert(rest@[0] == kv);
                        }
                        assert(rest@.skip(1) =~= rest@.subrange(1, rest@.len() as int));
                    }
                    Some((rest, end))
                },
            }
        },
    }
}

/// Reads one tagged child entry.
fn dec_ptr(b: &Vec<u8>, pos: usize) -> (r: Option<(Pointer, usize)>)
    requires
        pos <= b@.len(),
    ensures
        match r {
            Some(pp) => {
                &&& !(pp.0 is Dirty)
                &&& encodable_ptr(pp.0)
                &&& parse_ptr(b@, pos as int) == Some((clean_ptr_model(pp.0), pp.1 as int))
                &&& pos < pp.1 <= b@.len()
            },
            None => parse_ptr(b@, pos as int) == None::<(PointerModel, int)>,
        },
{
    let n = b.len();
    if pos >= n {
        return None;
    }
    let tag = b[pos];
    if tag == 0 {
        if n - (pos + 1) < 32 {
            return None;
        }
        let reference = copy_range(b, pos + 1, pos + 33);
        let p = Pointer::Link { reference };
        proof {
            assert(b@[pos as int] == 0);
            assert(clean_ptr_model(p) == PointerModel::Link {
                reference: b@.subrange(pos + 1, pos + 33),
            });
            assert(parse_ptr(b@, pos as int) == Some((clean_ptr_model(p), pos + 33)));
        }
        Some((p, pos + 33))
    } else if tag == 1 {
        if n - (pos + 1) < 8 {
            return None;
        }
        let cnt = read_be64(b, pos + 1);
        if cnt == 0 {
            return None;
        }
        match dec_pairs(b, pos + 9, cnt) {
            None => None,
            Some((pairs, end)) => {
                if check_sorted(&pairs) {
                    proof {
                        crate::node::lemma_sorted_model_bridge(pairs@);
                    }
                    Some((Pointer::Values { bucket: Bucket { pairs } }, end))
                } else {
                    proof {
                        crate::node::lemma_sorted_model_bridge(pairs@);
                    }
                    None
                }
            },
        }
    } else {
        None
    }
}

/// Reads `cnt` tagged child entries.
fn dec_ptrs(b: &Vec<u8>, pos: usize, cnt: usize) -> (r: Option<(Vec<Pointer>, usize)>)
    requires
        pos <= b@.len(),
    ensures
        match r {
            Some(vp) => {
                &&& parse_ptrs(b@, pos as int, cnt as nat) == Some(
                    (vp.0@.map_values(|p: Pointer| clean_ptr_model(p)), vp.1 as int),
                )
                &&& pos <= vp.1 <= b@.len()
                &&& vp.0@.len() == cnt
                &&& forall|i: int|
                    0 <= i < vp.0@.len() ==> !((#[trigger] vp.0@[i]) is Dirty) && encodable_ptr(
                        vp.0@[i],
                    )
            },
            None => parse_ptrs(b@, pos as int, cnt as nat) == None::<(Seq<PointerModel>, int)>,
        },
    decreases cnt,
{
    if cnt == 0 {
        let empty: Vec<Pointer> = Vec::new();
        proof {
            assert(empty@.map_values(|p: Pointer| clean_ptr_model(p)) =~= Seq::<
                PointerModel,
            >::empty());
        }
        return Some((empty, pos));
    }
    match dec_ptr(b, pos) {
        None => None,
        Some((p, pos2)) => {
            let ghost pm = clean_ptr_model(p);
            match dec_ptrs(b, pos2, cnt - 1) {
                None => None,
                Some((mut rest, end)) => {
                    rest.insert(0, p);
                    proof {
                        let mapped = rest@.map_values(|q: Pointer| clean_ptr_model(q));
                        let tail = rest@.subrange(1, rest@.len() as int).map_values(
                            |q: Pointer| clean_ptr_model(q),
                        );
                        assert(rest@[0] == p);
                        assert(mapped =~= seq![pm] + tail);
                    }
                    Some((rest, end))
                },
            }
        },
    }
}

/// Parsed child entries are well-formed pointers at any admissible depth.
proof fn lemma_parse_ptrs_wf(b: Seq<u8>, pos: int, cnt: nat, w: nat, d: nat)
    requires
        parse_ptrs(b, pos, cnt) is Some,
        1 <= w <= 8,
        d < 256,
        d * w < 256,
    ensures
        crate::node::wf_ptrs(parse_ptrs(b, pos, cnt)->Some_0.0, w, d),
    decreases cnt,
{
    let ps = parse_ptrs(b, pos, cnt)->Some_0.0;
    if cnt == 0 {
        assert(ps.len() == 0);
    } else {
        let p = parse_ptr(b, pos)->Some_0.0;
        let pos2 = parse_ptr(b, pos)->Some_0.1;
        lemma_parse_ptrs_wf(b, pos2, (cnt - 1) as nat, w, d);
        let rest = parse_ptrs(b, pos2, (cnt - 1) as nat)->Some_0.0;
        assert(ps =~= seq![p] + rest);
        assert(crate::node::wf_ptr(p, w, d)) by {
            if b[pos] == 0 {
                assert(b.subrange(pos + 1, pos + 33).len() == 32);
            }
        }
        assert(ps[0] == p);
        assert(ps.skip(1) =~= rest);
    }
}

/// Reads a node block of a trie with bit width `w`.
pub fn decode_node(bytes: &Vec<u8>, w: u32) -> (r: Option<Node>)
    requires
        1 <= w <= 8,
    ensures
        match r {
            Some(n) => {
                &&& n.bitmap@.len() == pow2(w as nat)
                &&& n.pointers@.len() == count_ones(n.bitmap@, n.bitmap@.len() as int)
                &&& encodable_node(n)
                &&& forall|i: int| 0 <= i < n.pointers@.len() ==> !((#[trigger] n.pointers@[i]) is Dirty)
                &&& forall|d: nat|
                    d < 256 && d * (w as nat) < 256 ==> parse_node(bytes@, w as nat) == Some(
                        #[trigger] crate::node::node_model(n, w as nat, d),
                    )
                &&& forall|d: nat|
                    d < 256 && d * (w as nat) < 256 ==> crate::node::wf_model(
                        #[trigger] crate::node::node_model(n, w as nat, d),
                        w as nat,
                        d,
                    )
            },
            None => parse_node(bytes@, w as nat) == None::<NodeModel>,
        },
{
    let slots: usize = 1usize << w;
    proof {
        vstd::arithmetic::power2::lemma2_to64();
        vstd::bits::lemma_usize_pow2_no_overflow(w as nat);
        vstd::arithmetic::power2::lemma_pow2_strictly_increases(w as nat, 9);
        vstd::bits::lemma_usize_shl_is_mul(1usize, w as usize);
    }
    if bytes.len() < slots {
        return None;
    }
    let mut bitmap: Vec<bool> = Vec::new();
    let mut i: usize = 0;
    while i < slots
        invariant
            i <= slots,
            slots <= bytes@.len(),
            slots == pow2(w as nat),
            1 <= w <= 8,
            bitmap@.len() == i,
            forall|m: int| 0 <= m < i ==> (#[trigger] bytes@[m]) == 0 || bytes@[m] == 1,
            forall|m: int| 0 <= m < i ==> (#[trigger] bitmap@[m]) == (bytes@[m] == 1),
        decreases slots - i,
    {
        let byte = bytes[i];
        if byte == 1 {
            bitmap.push(true);
        } else if byte == 0 {
            bitmap.push(false);
        } else {
            proof {
                assert(bytes@[i as int] != 0 && bytes@[i as int] != 1);
                assert(exists|m: int|
                    0 <= m < pow2(w as nat) && (#[trigger] bytes@[m]) != 0 && bytes@[m] != 1);
            }
            return None;
        }
        i = i + 1;
    }
    let ghost specmap = Seq::new(pow2(w as nat), |m: int| bytes@[m] == 1);
    proof {
        assert(bitmap@ =~= specmap);
    }
    let cnt = crate::node::popcount_prefix(&bitmap, slots);
    match dec_ptrs(bytes, slots, cnt) {
        None => None,
        Some((pointers, end)) => {
            if end == bytes.len() {
                let n = Node { bitmap, pointers };
                proof {
                    let m0 = parse_node(bytes@, w as nat)->Some_0;
                    assert forall|d: nat| d < 256 && d * (w as nat) < 256 implies parse_node(
                        bytes@,
                        w as nat,
                    ) == Some(#[trigger] crate::node::node_model(n, w as nat, d)) by {
                        crate::node::lemma_ptrs_model_index(n.pointers@, w as nat, d);
                        let mm = crate::node::node_model(n, w as nat, d);
                        assert forall|j: int| 0 <= j < n.pointers@.len() implies mm.pointers[j]
                            == m0.pointers[j] by {
                            assert(mm.pointers[j] == crate::node::ptr_model(
                                n.pointers@[j],
                                w as nat,
                                d,
                            ));
                            assert(m0.pointers[j] == n.pointers@.map_values(
                                |p: Pointer| clean_ptr_model(p),
                            )[j]);
                        }
                        assert(mm.pointers =~= m0.pointers);
                        assert(mm.bitmap =~= m0.bitmap);
                        assert(mm =~= m0);
                    }
                    assert forall|d: nat| d < 256 && d * (w as nat) < 256
                        implies crate::node::wf_model(
                        #[trigger] crate::node::node_model(n, w as nat, d),
                        w as nat,
                        d,
                    ) by {
                        lemma_parse_ptrs_wf(bytes@, slots as int, cnt as nat, w as nat, d);
                        assert(crate::node::node_model(n, w as nat, d) == m0);
                    }
                }
                Some(n)
            } else {
                None
            }
        },
    }
}

/// Reads a root block: bit width, bucket threshold, root node.
pub fn decode_root(bytes: &Vec<u8>) -> (r: Option<(u32, u64, Node)>)
    ensures
        match r {
            Some(root) => {
                &&& 1 <= root.0 <= 8
                &&& root.1 >= 1
                &&& parse_root(bytes@) is Some
                &&& parse_root(bytes@)->Some_0.0 == root.0 as u8
                &&& parse_root(bytes@)->Some_0.1 == root.1
                &&& root.2.bitmap@.len() == pow2(root.0 as nat)
                &&& root.2.pointers@.len() == count_ones(
                    root.2.bitmap@,
                    root.2.bitmap@.len() as int,
                )
                &&& encodable_node(root.2)
                &&& forall|d: nat|
                    d < 256 && d * (root.0 as nat) < 256 ==> parse_root(bytes@)->Some_0.2
                        == #[trigger] crate::node::node_model(root.2, root.0 as nat, d)
                &&& forall|d: nat|
                    d < 256 && d * (root.0 as nat) < 256 ==> crate::node::wf_model(
                        #[trigger] crate::node::node_model(root.2, root.0 as nat, d),
                        root.0 as nat,
                        d,
                    )
            },
            None => parse_root(bytes@) == None::<(u8, u64, NodeModel)>,
        },
{
    let n = bytes.len();
    if n < 9 {
        return None;
    }
    let w = bytes[0];
    let threshold = read_be64(bytes, 1);
    if w < 1 || w > 8 || threshold == 0 {
        return None;
    }
    let body = copy_range(bytes, 9, n);
    proof {
        assert(body@ =~= bytes@.skip(9));
    }
    match decode_node(&body, w as u32) {
        None => None,
        Some(node) => {
            proof {
                let wn = w as nat;
                assert(0 * wn < 256) by (nonlinear_arith);
                assert(parse_node(body@, wn) == Some(crate::node::node_model(node, wn, 0)));
            }
            Some((w as u32, threshold, node))
        },
    }
}

// ---------------------------------------------------------------------------
// The round trip: parsing an encoding yields the encoded model.
// ---------------------------------------------------------------------------

/// Sizes fit the length prefixes of the serialized form.
pub open spec fn bounded_ptr(p: PointerModel) -> bool {
    match p {
        PointerModel::Values { pairs } => {
            &&& pairs.len() <= u64::MAX
            &&& forall|j: int|
                0 <= j < pairs.len() ==> (#[trigger] pairs[j]).0.len() <= u64::MAX
                    && pairs[j].1.len() <= u64::MAX
        },
        _ => true,
    }
}

/// A byte of an embedded encoding, read through the enclosing block.
proof fn lemma_sub_byte(b: Seq<u8>, pos: int, e: Seq<u8>, off: int)
    requires
        0 <= pos,
        pos + e.len() <= b.len(),
        b.subrange(pos, pos + e.len() as int) == e,
        0 <= off < e.len(),
    ensures
        b[pos + off] == e[off],
{
    assert(b.subrange(pos, pos + e.len() as int)[off] == b[pos + off]);
}

/// A slice of an embedded encoding, read through the enclosing block.
proof fn lemma_sub_extract(b: Seq<u8>, pos: int, e: Seq<u8>, off: int, part: Seq<u8>)
    requires
        0 <= pos,
        pos + e.len() <= b.len(),
        b.subrange(pos, pos + e.len() as int) == e,
        0 <= off,
        off + part.len() <= e.len(),
        forall|j: int| 0 <= j < part.len() ==> #[trigger] e[off + j] == part[j],
    ensures
        b.subrange(pos + off, pos + off + part.len() as int) == part,
{
    assert forall|j: int| 0 <= j < part.len() implies #[trigger] b.subrange(
        pos + off,
        pos + off + part.len() as int,
    )[j] == part[j] by {
        assert(b.subrange(pos, pos + e.len() as int)[off + j] == b[pos + (off + j)]);
        assert(b.subrange(pos + off, pos + off + part.len() as int)[j] == b[(pos + off) + j]);
        assert(e[off + j] == part[j]);
    }
    assert(b.subrange(pos + off, pos + off + part.len() as int) =~= part);
}

/// Reading the eight bytes of a 64-bit length back from any block.
proof fn lemma_be64_read(b: Seq<u8>, pos: int, x: u64)
    requires
        0 <= pos,
        pos + 8 <= b.len(),
        b.subrange(pos, pos + 8) == be64(x),
    ensures
        be64_val(
            b[pos],
            b[pos + 1],
            b[pos + 2],
            b[pos + 3],
            b[pos + 4],
            b[pos + 5],
            b[pos + 6],
            b[pos + 7],
        ) == x,
{
    lemma_be64_roundtrip(x);
    assert(b.subrange(pos, pos + 8)[0] == b[pos + 0]);
    assert(b.subrange(pos, pos + 8)[1] == b[pos + 1]);
    assert(b.subrange(pos, pos + 8)[2] == b[pos + 2]);
    assert(b.subrange(pos, pos + 8)[3] == b[pos + 3]);
    assert(b.subrange(pos, pos + 8)[4] == b[pos + 4]);
    assert(b.subrange(pos, pos + 8)[5] == b[pos + 5]);
    assert(b.subrange(pos, pos + 8)[6] == b[pos + 6]);
    assert(b.subrange(pos, pos + 8)[7] == b[pos + 7]);
    assert(b[pos] == be64(x)[0]);
}

/// Parsing one encoded pair at its position in a larger block.
proof fn lemma_parse_pair_round(b: Seq<u8>, pos: int, p: (Seq<u8>, Seq<u8>))
    requires
        0 <= pos,
        pos + enc_pair(p).len() <= b.len(),
        b.subrange(pos, pos + enc_pair(p).len() as int) == enc_pair(p),
        p.0.len() <= u64::MAX,
        p.1.len() <= u64::MAX,
    ensures
        parse_pair(b, pos) == Some((p, pos + enc_pair(p).len() as int)),
{
    let e = enc_pair(p);
    let kl = p.0.len() as int;
    let vl = p.1.len() as int;
    let ek = be64(p.0.len() as u64);
    let ev = be64(p.1.len() as u64);
    assert(e.len() == 16 + kl + vl);
    assert forall|j: int| 0 <= j < 8 implies #[trigger] e[0 + j] == ek[j] by {
        assert(e[0 + j] == (ek + p.0 + ev + p.1)[j]);
    }
    lemma_sub_extract(b, pos, e, 0, ek);
    assert(b.subrange(pos + 0, pos + 0 + 8) == b.subrange(pos, pos + 8));
    lemma_be64_read(b, pos, p.0.len() as u64);
    assert forall|j: int| 0 <= j < kl implies #[trigger] e[8 + j] == p.0[j] by {
        assert(e[8 + j] == (ek + p.0 + ev + p.1)[8 + j]);
    }
    lemma_sub_extract(b, pos, e, 8, p.0);
    let p2 = pos + 8 + kl;
    assert forall|j: int| 0 <= j < 8 implies #[trigger] e[(8 + kl) + j] == ev[j] by {
        assert(e[(8 + kl) + j] == (ek + p.0 + ev + p.1)[(8 + kl) + j]);
    }
    lemma_sub_extract(b, pos, e, 8 + kl, ev);
    assert(b.subrange(pos + (8 + kl), pos + (8 + kl) + 8) == b.subrange(p2, p2 + 8));
    lemma_be64_read(b, p2, p.1.len() as u64);
    assert forall|j: int| 0 <= j < vl implies #[trigger] e[(16 + kl) + j] == p.1[j] by {
        assert(e[(16 + kl) + j] == (ek + p.0 + ev + p.1)[(16 + kl) + j]);
    }
    lemma_sub_extract(b, pos, e, 16 + kl, p.1);
    assert(b.subrange(pos + (16 + kl), pos + (16 + kl) + vl) == b.subrange(p2 + 8, p2 + 8 + vl));
    assert(b.subrange(pos + 8, pos + 8 + kl) == p.0);
}

/// Parsing a run of encoded pairs from index `i` on.
proof fn lemma_parse_pairs_round(b: Seq<u8>, pos: int, s: Seq<(Seq<u8>, Seq<u8>)>, i: int)
    requires
        0 <= i <= s.len(),
        0 <= pos,
        pos + enc_pairs_from(s, i).len() <= b.len(),
        b.subrange(pos, pos + enc_pairs_from(s, i).len() as int) == enc_pairs_from(s, i),
        forall|j: int|
            0 <= j < s.len() ==> (#[trigger] s[j]).0.len() <= u64::MAX && s[j].1.len()
                <= u64::MAX,
    ensures
        parse_pairs(b, pos, (s.len() - i) as nat) == Some(
            (s.skip(i), pos + enc_pairs_from(s, i).len() as int),
        ),
    decreases s.len() - i,
{
    if i == s.len() {
        assert(s.skip(i) =~= Seq::<(Seq<u8>, Seq<u8>)>::empty());
        assert(enc_pairs_from(s, i).len() == 0);
    } else {
        let e = enc_pairs_from(s, i);
        let e1 = enc_pair(s[i]);
        let e2 = enc_pairs_from(s, i + 1);
        assert(e == e1 + e2);
        assert forall|j: int| 0 <= j < e1.len() implies #[trigger] e[0 + j] == e1[j] by {
            assert(e[0 + j] == (e1 + e2)[j]);
        }
        lemma_sub_extract(b, pos, e, 0, e1);
        assert(b.subrange(pos + 0, pos + 0 + e1.len() as int) == b.subrange(
            pos,
            pos + e1.len() as int,
        ));
        lemma_parse_pair_round(b, pos, s[i]);
        let pos2 = pos + e1.len() as int;
        assert forall|j: int| 0 <= j < e2.len() implies #[trigger] e[e1.len() as int + j]
            == e2[j] by {
            assert(e[e1.len() as int + j] == (e1 + e2)[e1.len() as int + j]);
        }
        lemma_sub_extract(b, pos, e, e1.len() as int, e2);
        assert(b.subrange(pos + e1.len() as int, pos + e1.len() as int + e2.len() as int)
            == b.subrange(pos2, pos2 + e2.len() as int));
        lemma_parse_pairs_round(b, pos2, s, i + 1);
        assert(seq![s[i]] + s.skip(i + 1) =~= s.skip(i));
        assert((s.len() - i) as nat == ((s.len() - (i + 1)) as nat + 1) as nat);
    }
}

/// Parsing one encoded child entry at its position in a larger block.
proof fn lemma_parse_ptr_round(b: Seq<u8>, pos: int, p: PointerModel, w: nat, d: nat)
    requires
        0 <= pos,
        pos + enc_ptr(p).len() <= b.len(),
        b.subrange(pos, pos + enc_ptr(p).len() as int) == enc_ptr(p),
        crate::node::wf_ptr(p, w, d),
        bounded_ptr(p),
        !(p is Dirty),
    ensures
        parse_ptr(b, pos) == Some((p, pos + enc_ptr(p).len() as int)),
{
    let e = enc_ptr(p);
    match p {
        PointerModel::Link { reference } => {
            lemma_sub_byte(b, pos, e, 0);
            assert(e[0] == (seq![0u8] + reference)[0]);
            assert(b[pos + 0] == b[pos]);
            assert forall|j: int| 0 <= j < 32 implies #[trigger] e[1 + j] == reference[j] by {
                assert(e[1 + j] == (seq![0u8] + reference)[1 + j]);
            }
            lemma_sub_extract(b, pos, e, 1, reference);
            assert(b.subrange(pos + 1, pos + 1 + 32) == b.subrange(pos + 1, pos + 33));
        },
        PointerModel::Values { pairs } => {
            let ecnt = be64(pairs.len() as u64);
            let ep = enc_pairs_from(pairs, 0);
            lemma_sub_byte(b, pos, e, 0);
            assert(e[0] == (seq![1u8] + ecnt + ep)[0]);
            assert(b[pos + 0] == b[pos]);
            assert forall|j: int| 0 <= j < 8 implies #[trigger] e[1 + j] == ecnt[j] by {
                assert(e[1 + j] == (seq![1u8] + ecnt + ep)[1 + j]);
            }
            lemma_sub_extract(b, pos, e, 1, ecnt);
            assert(b.subrange(pos + 1, pos + 1 + 8) == b.subrange(pos + 1, pos + 9));
            lemma_be64_read(b, pos + 1, pairs.len() as u64);
            assert forall|j: int| 0 <= j < ep.len() implies #[trigger] e[9 + j] == ep[j] by {
                assert(e[9 + j] == (seq![1u8] + ecnt + ep)[9 + j]);
            }
            lemma_sub_extract(b, pos, e, 9, ep);
            assert(b.subrange(pos + 9, pos + 9 + ep.len() as int) == ep);
            lemma_parse_pairs_round(b, pos + 9, pairs, 0);
            assert(pairs.skip(0) =~= pairs);
        },
        PointerModel::Dirty { .. } => {
        },
    }
}

/// Parsing a run of encoded child entries from index `i` on.
proof fn lemma_parse_ptrs_round(b: Seq<u8>, pos: int, s: Seq<PointerModel>, i: int, w: nat, d: nat)
    requires
        0 <= i <= s.len(),
        0 <= pos,
        pos + enc_ptrs_from(s, i).len() <= b.len(),
        b.subrange(pos, pos + enc_ptrs_from(s, i).len() as int) == enc_ptrs_from(s, i),
        forall|j: int| 0 <= j < s.len() ==> crate::node::wf_ptr(#[trigger] s[j], w, d),
        forall|j: int| 0 <= j < s.len() ==> bounded_ptr(#[trigger] s[j]),
        forall|j: int| 0 <= j < s.len() ==> !((#[trigger] s[j]) is Dirty),
    ensures
        parse_ptrs(b, pos, (s.len() - i) as nat) == Some(
            (s.skip(i), pos + enc_ptrs_from(s, i).len() as int),
        ),
    decreases s.len() - i,
{
    if i == s.len() {
        assert(s.skip(i) =~= Seq::<PointerModel>::empty());
        assert(enc_ptrs_from(s, i).len() == 0);
    } else {
        let e = enc_ptrs_from(s, i);
        let e1 = enc_ptr(s[i]);
        let e2 = enc_ptrs_from(s, i + 1);
        assert(e == e1 + e2);
        assert forall|j: int| 0 <= j < e1.len() implies #[trigger] e[0 + j] == e1[j] by {
            assert(e[0 + j] == (e1 + e2)[j]);
        }
        lemma_sub_extract(b, pos, e, 0, e1);
        assert(b.subrange(pos + 0, pos + 0 + e1.len() as int) == b.subrange(
            pos,
            pos + e1.len() as int,
        ));
        lemma_parse_ptr_round(b, pos, s[i], w, d);
        let pos2 = pos + e1.len() as int;
        assert forall|j: int| 0 <= j < e2.len() implies #[trigger] e[e1.len() as int + j]
            == e2[j] by {
            assert(e[e1.len() as int + j] == (e1 + e2)[e1.len() as int + j]);
        }
        lemma_sub_extract(b, pos, e, e1.len() as int, e2);
        assert(b.subrange(pos + e1.len() as int, pos + e1.len() as int + e2.len() as int)
            == b.subrange(pos2, pos2 + e2.len() as int));
        lemma_parse_ptrs_round(b, pos2, s, i + 1, w, d);
        assert(seq![s[i]] + s.skip(i + 1) =~= s.skip(i));
        assert((s.len() - i) as nat == ((s.len() - (i + 1)) as nat + 1) as nat);
    }
}

/// The round trip for one node block: parsing the encoding of a well-formed,
/// fully serialized node model gives that model back. Together with the
/// content-addressed store this pins root determinism: one model, one block,
/// one reference.
pub proof fn lemma_parse_node_round(m: NodeModel, w: nat, d: nat)
    requires
        crate::node::wf_model(m, w, d),
        crate::node::is_clean(m),
        forall|j: int| 0 <= j < m.pointers.len() ==> bounded_ptr(#[trigger] m.pointers[j]),
    ensures
        parse_node(enc_node(m), w) == Some(m),
{
    let b = enc_node(m);
    let slots = pow2(w) as int;
    let eb = enc_bitmap(m.bitmap);
    let ep = enc_ptrs_from(m.pointers, 0);
    assert(eb.len() == slots);
    assert(forall|i: int| 0 <= i < slots ==> #[trigger] b[i] == eb[i]);
    assert(forall|i: int| 0 <= i < slots ==> #[trigger] b[i] == 0 || b[i] == 1);
    let bitmap = Seq::new(slots as nat, |i: int| b[i] == 1);
    assert(bitmap =~= m.bitmap);
    crate::node::lemma_wf_ptrs_index(m.pointers, w, d);
    assert(b.subrange(slots, slots + ep.len() as int) =~= ep) by {
        assert(forall|mx: int| 0 <= mx < ep.len() ==> #[trigger] b[slots + mx] == ep[mx]);
    }
    lemma_parse_ptrs_round(b, slots, m.pointers, 0, w, d);
    assert(m.pointers.skip(0) =~= m.pointers);
    assert(count_ones(bitmap, slots) == m.pointers.len()) by {
        crate::node::lemma_count_congruent(bitmap, m.bitmap, slots);
    }
    let parsed = parse_node(b, w);
    assert(parsed == Some(NodeModel { bitmap, pointers: m.pointers }));
    assert(NodeModel { bitmap, pointers: m.pointers } == m);
}

/// The round trip for a root block: bit width, threshold and root model are
/// recovered exactly.
pub proof fn lemma_parse_root_round(w: u8, threshold: u64, m: NodeModel)
    requires
        1 <= w <= 8,
        threshold >= 1,
        crate::node::wf_model(m, w as nat, 0),
        crate::node::is_clean(m),
        forall|j: int| 0 <= j < m.pointers.len() ==> bounded_ptr(#[trigger] m.pointers[j]),
    ensures
        parse_root(enc_root(w, threshold, m)) == Some((w, threshold, m)),
{
    let b = enc_root(w, threshold, m);
    let en = enc_node(m);
    let et = be64(threshold);
    assert(b.subrange(0, b.len() as int) =~= b);
    assert(b[0] == w);
    assert forall|j: int| 0 <= j < 8 implies #[trigger] b[1 + j] == et[j] by {
        assert(b[1 + j] == (seq![w] + et + en)[1 + j]);
    }
    lemma_sub_extract(b, 0int, b, 1int, et);
    assert(b.subrange(0int + 1, 0int + 1 + 8) == b.subrange(1int, 9int));
    lemma_be64_read(b, 1, threshold);
    assert forall|j: int| 0 <= j < en.len() implies #[trigger] b[9 + j] == en[j] by {
        assert(b[9 + j] == (seq![w] + et + en)[9 + j]);
    }
    assert(b.skip(9) =~= en) by {
        assert(forall|j: int| 0 <= j < b.skip(9).len() ==> b.skip(9)[j] == #[trigger] b[9 + j]);
    }
    lemma_parse_node_round(m, w as nat, 0);
}

} // verus!
