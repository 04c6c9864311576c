//! Leaf buckets: small collections of key-value pairs sharing a trie path.
//!
//! A bucket keeps its pairs in strictly ascending raw-key-byte order, so a
//! bucket's shape — and therefore its serialized form — is a function of its
//! logical contents alone, whatever the insertion order was.

use vstd::prelude::*;

verus! {

/// One key-value pair of the map.
#[derive(Clone)]
pub struct KeyValue {
    pub key: Vec<u8>,
    pub value: Vec<u8>,
}

/// Strict lexicographic order on byte strings: `a` comes before `b`.
pub open spec fn lex_lt(a: Seq<u8>, b: Seq<u8>) -> bool
    decreases a.len(),
{
    if b.len() == 0 {
        false
    } else if a.len() == 0 {
        true
    } else if a[0] < b[0] {
        true
    } else if a[0] > b[0] {
        false
    } else {
        lex_lt(a.skip(1), b.skip(1))
    }
}

/// Exactly one of `a < b`, `a == b`, `b < a` holds.
pub proof fn lemma_lex_trichotomy(a: Seq<u8>, b: Seq<u8>)
    ensures
        lex_lt(a, b) || lex_lt(b, a) || a == b,
        lex_lt(a, b) ==> !lex_lt(b, a) && a != b,
        lex_lt(b, a) ==> !lex_lt(a, b) && a != b,
    decreases a.len(),
{
    if a.len() == 0 && b.len() == 0 {
        assert(a =~= b);
    } else if a.len() > 0 && b.len() > 0 && a[0] == b[0] {
        lemma_lex_trichotomy(a.skip(1), b.skip(1));
        if a.skip(1) == b.skip(1) {
            assert forall|i: int| 0 <= i < a.len() implies a[i] == b[i] by {
                if i > 0 {
                    assert(a[i] == a.skip(1)[i - 1]);
                    assert(b[i] == b.skip(1)[i - 1]);
                }
            }
            assert(a =~= b);
        }
        if a == b {
            assert forall|i: int| 0 <= i < a.skip(1).len() implies a.skip(1)[i] == b.skip(1)[i] by {
                assert(a.skip(1)[i] == a[i + 1]);
                assert(b.skip(1)[i] == b[i + 1]);
            }
            assert(a.skip(1) =~= b.skip(1));
        }
    }
}

/// Lexicographic order is transitive.
pub proof fn lemma_lex_trans(a: Seq<u8>, b: Seq<u8>, c: Seq<u8>)
    requires
        lex_lt(a, b),
        lex_lt(b, c),
    ensures
        lex_lt(a, c),
    decreases a.len(),
{
    if a.len() > 0 && b.len() > 0 && c.len() > 0 && a[0] == b[0] && b[0] == c[0] {
        lemma_lex_trans(a.skip(1), b.skip(1), c.skip(1));
    }
}

/// The value stored for `k`: the first pair whose key is `k`, scanned left
/// to right.
pub open spec fn bucket_find(s: Seq<KeyValue>, k: Seq<u8>) -> Option<Seq<u8>>
    decreases s.len(),
{
    if s.len() == 0 {
        None
    } else if s[0].key@ == k {
        Some(s[0].value@)
    } else {
        bucket_find(s.skip(1), k)
    }
}

/// Pairs stand in strictly ascending key order.
pub open spec fn bucket_sorted(s: Seq<KeyValue>) -> bool {
    forall|i: int, j: int|
        0 <= i < j < s.len() ==> lex_lt(#[trigger] s[i].key@, #[trigger] s[j].key@)
}

/// A key is found exactly when some pair holds it.
pub proof fn lemma_find_exists(s: Seq<KeyValue>, k: Seq<u8>)
    ensures
        bucket_find(s, k).is_some() <==> exists|i: int| 0 <= i < s.len() && (#[trigger] s[i].key@)
            == k,
    decreases s.len(),
{
    if s.len() > 0 {
        lemma_find_exists(s.skip(1), k);
        assert(forall|m: int| 0 <= m < s.skip(1).len() ==> s.skip(1)[m] == s[m + 1]);
        if s[0].key@ != k {
            if bucket_find(s, k).is_some() {
                let i = choose|i: int| 0 <= i < s.skip(1).len() && (#[trigger] s.skip(1)[i].key@)
                    == k;
                assert(s[i + 1].key@ == k);
            }
            if exists|i: int| 0 <= i < s.len() && (#[trigger] s[i].key@) == k {
                let i = choose|i: int| 0 <= i < s.len() && (#[trigger] s[i].key@) == k;
                assert(s.skip(1)[i - 1].key@ == k);
            }
        }
    }
}

/// The first match for the key at position `j` is position `j` itself when
/// no earlier pair holds that key.
pub proof fn lemma_find_of_index(s: Seq<KeyValue>, j: int)
    requires
        0 <= j < s.len(),
        forall|m: int| 0 <= m < j ==> (#[trigger] s[m].key@) != s[j].key@,
    ensures
        bucket_find(s, s[j].key@) == Some(s[j].value@),
    decreases j,
{
    if j == 0 {
    } else {
        assert(forall|m: int| 0 <= m < s.skip(1).len() ==> s.skip(1)[m] == s[m + 1]);
        lemma_find_of_index(s.skip(1), j - 1);
    }
}

/// Inserting a fresh key at position `j` stores its value and leaves every
/// other key's result unchanged.
pub proof fn lemma_find_insert(s: Seq<KeyValue>, j: int, kv: KeyValue)
    requires
        0 <= j <= s.len(),
        forall|m: int| 0 <= m < j ==> (#[trigger] s[m].key@) != kv.key@,
    ensures
        bucket_find(s.insert(j, kv), kv.key@) == Some(kv.value@),
        forall|k: Seq<u8>|
            k != kv.key@ ==> #[trigger] bucket_find(s.insert(j, kv), k) == bucket_find(s, k),
    decreases j,
{
    let t = s.insert(j, kv);
    if j == 0 {
        assert(t[0] == kv);
        assert(t.skip(1) =~= s);
        assert forall|k: Seq<u8>| k != kv.key@ implies #[trigger] bucket_find(t, k)
            == bucket_find(s, k) by {
            assert(bucket_find(t.skip(1), k) == bucket_find(s, k));
        }
    } else {
        assert(t[0] == s[0]);
        assert(t.skip(1) =~= s.skip(1).insert(j - 1, kv));
        assert(forall|m: int| 0 <= m < s.skip(1).len() ==> s.skip(1)[m] == s[m + 1]);
        lemma_find_insert(s.skip(1), j - 1, kv);
        assert(s[0].key@ != kv.key@);
        assert(bucket_find(t, kv.key@) == bucket_find(t.skip(1), kv.key@));
        assert forall|k: Seq<u8>| k != kv.key@ implies #[trigger] bucket_find(t, k)
            == bucket_find(s, k) by {
            assert(bucket_find(s.skip(1).insert(j - 1, kv), k) == bucket_find(s.skip(1), k));
            assert(bucket_find(t.skip(1), k) == bucket_find(s.skip(1), k));
        }
    }
}

/// Replacing the value at position `j` rebinds that pair's key and leaves
/// every other key's result unchanged.
pub proof fn lemma_find_update(s: Seq<KeyValue>, j: int, kv: KeyValue)
    requires
        0 <= j < s.len(),
        s[j].key@ == kv.key@,
        forall|m: int| 0 <= m < j ==> (#[trigger] s[m].key@) != kv.key@,
    ensures
        bucket_find(s.update(j, kv), kv.key@) == Some(kv.value@),
        forall|k: Seq<u8>|
            k != kv.key@ ==> #[trigger] bucket_find(s.update(j, kv), k) == bucket_find(s, k),
    decreases j,
{
    let t = s.update(j, kv);
    if j == 0 {
        assert(t[0] == kv);
        assert(t.skip(1) =~= s.skip(1));
        assert forall|k: Seq<u8>| k != kv.key@ implies #[trigger] bucket_find(t, k)
            == bucket_find(s, k) by {
            assert(bucket_find(t.skip(1), k) == bucket_find(s.skip(1), k));
        }
    } else {
        assert(t[0] == s[0]);
        assert(t.skip(1) =~= s.skip(1).update(j - 1, kv));
        assert(forall|m: int| 0 <= m < s.skip(1).len() ==> s.skip(1)[m] == s[m + 1]);
        lemma_find_update(s.skip(1), j - 1, kv);
        assert(bucket_find(t, kv.key@) == bucket_find(t.skip(1), kv.key@));
        assert forall|k: Seq<u8>| k != kv.key@ implies #[trigger] bucket_find(t, k)
            == bucket_find(s, k) by {
            assert(bucket_find(s.skip(1).update(j - 1, kv), k) == bucket_find(s.skip(1), k));
            assert(bucket_find(t.skip(1), k) == bucket_find(s.skip(1), k));
        }
    }
}

/// Removing the only pair that holds a key erases that key and leaves every
/// other key's result unchanged.
pub proof fn lemma_find_remove(s: Seq<KeyValue>, j: int)
    requires
        0 <= j < s.len(),
        forall|m: int| 0 <= m < s.len() && m != j ==> (#[trigger] s[m].key@) != s[j].key@,
    ensures
        bucket_find(s.remove(j), s[j].key@) == None::<Seq<u8>>,
        forall|k: Seq<u8>|
            k != s[j].key@ ==> #[trigger] bucket_find(s.remove(j), k) == bucket_find(s, k),
    decreases j,
{
    let t = s.remove(j);
    assert(forall|m: int| 0 <= m < s.skip(1).len() ==> s.skip(1)[m] == s[m + 1]);
    if j == 0 {
        assert(t =~= s.skip(1));
        lemma_find_exists(s.skip(1), s[0].key@);
        if bucket_find(s.skip(1), s[0].key@).is_some() {
            let i = choose|i: int|
                0 <= i < s.skip(1).len() && (#[trigger] s.skip(1)[i].key@) == s[0].key@;
            assert(s[i + 1].key@ == s[0].key@);
        }
    } else {
        assert(t[0] == s[0]);
        assert(t.skip(1) =~= s.skip(1).remove(j - 1));
        lemma_find_remove(s.skip(1), j - 1);
        assert(s.skip(1)[j - 1] == s[j]);
        assert(bucket_find(t, s[j].key@) == bucket_find(t.skip(1), s[j].key@));
        assert(bucket_find(t.skip(1), s[j].key@) == bucket_find(
            s.skip(1).remove(j - 1),
            s.skip(1)[j - 1].key@,
        ));
        assert forall|k: Seq<u8>| k != s[j].key@ implies #[trigger] bucket_find(t, k)
            == bucket_find(s, k) by {
            assert(bucket_find(s.skip(1).remove(j - 1), k) == bucket_find(s.skip(1), k));
            assert(bucket_find(t.skip(1), k) == bucket_find(s.skip(1), k));
        }
    }
}

/// In a sorted bucket keys are unique, so a found key names one pair.
pub proof fn lemma_sorted_distinct(s: Seq<KeyValue>)
    requires
        bucket_sorted(s),
    ensures
        forall|i: int, j: int|
            0 <= i < s.len() && 0 <= j < s.len() && i != j ==> (#[trigger] s[i].key@)
                != (#[trigger] s[j].key@),
{
    assert forall|i: int, j: int|
        0 <= i < s.len() && 0 <= j < s.len() && i != j implies (#[trigger] s[i].key@)
        != (#[trigger] s[j].key@) by {
        if i < j {
            lemma_lex_trichotomy(s[i].key@, s[j].key@);
        } else {
            lemma_lex_trichotomy(s[j].key@, s[i].key@);
        }
    }
}

/// A sorted sequence stays sorted when index views shift by one.
proof fn lemma_sorted_skip(s: Seq<KeyValue>)
    requires
        bucket_sorted(s),
        s.len() > 0,
    ensures
        bucket_sorted(s.skip(1)),
{
    assert(forall|m: int| 0 <= m < s.skip(1).len() ==> s.skip(1)[m] == s[m + 1]);
}

/// Two sorted buckets that answer every lookup alike hold the same pairs in
/// the same order. This is the leaf-level determinism of the trie: however a
/// bucket's contents were built up, one shape, and hence one encoding,
/// remains.
#[verifier::rlimit(30)]
pub proof fn lemma_sorted_buckets_equal(s1: Seq<KeyValue>, s2: Seq<KeyValue>)
    requires
        bucket_sorted(s1),
        bucket_sorted(s2),
        forall|k: Seq<u8>| #[trigger] bucket_find(s1, k) == bucket_find(s2, k),
    ensures
        s1.len() == s2.len(),
        forall|i: int|
            0 <= i < s1.len() ==> (#[trigger] s1[i].key@) == s2[i].key@ && s1[i].value@
                == s2[i].value@,
    decreases s1.len(),
{
    if s1.len() == 0 && s2.len() == 0 {
    } else if s1.len() == 0 {
        assert(bucket_find(s2, s2[0].key@) == bucket_find(s1, s2[0].key@));
    } else if s2.len() == 0 {
        assert(bucket_find(s1, s1[0].key@) == bucket_find(s2, s1[0].key@));
    } else {
        // The head keys agree: each is present in the other bucket, and the
        // head of a sorted bucket is its least key.
        let k1 = s1[0].key@;
        let k2 = s2[0].key@;
        if k1 != k2 {
            assert(bucket_find(s2, k1) == bucket_find(s1, k1));
            assert(bucket_find(s1, k2) == bucket_find(s2, k2));
            lemma_find_exists(s2, k1);
            lemma_find_exists(s1, k2);
            let i2 = choose|i: int| 0 <= i < s2.len() && (#[trigger] s2[i].key@) == k1;
            let i1 = choose|i: int| 0 <= i < s1.len() && (#[trigger] s1[i].key@) == k2;
            assert(i2 > 0 && i1 > 0);
            assert(lex_lt(k2, s2[i2].key@));
            assert(lex_lt(k1, s1[i1].key@));
            lemma_lex_trichotomy(k1, k2);
            assert(false);
        }
        assert(k1 == k2);
        assert(bucket_find(s1, k1) == bucket_find(s2, k1));
        assert(s1[0].value@ == s2[0].value@);
        // The tails again answer every lookup alike.
        lemma_sorted_distinct(s1);
        lemma_sorted_distinct(s2);
        assert(forall|m: int| 0 <= m < s1.skip(1).len() ==> s1.skip(1)[m] == s1[m + 1]);
        assert(forall|m: int| 0 <= m < s2.skip(1).len() ==> s2.skip(1)[m] == s2[m + 1]);
        assert forall|k: Seq<u8>| #[trigger]
            bucket_find(s1.skip(1), k) == bucket_find(s2.skip(1), k) by {
            if k == k1 {
                lemma_find_exists(s1.skip(1), k);
                lemma_find_exists(s2.skip(1), k);
                if bucket_find(s1.skip(1), k).is_some() {
                    let i = choose|i: int|
                        0 <= i < s1.skip(1).len() && (#[trigger] s1.skip(1)[i].key@) == k;
                    assert(s1[i + 1].key@ == k);
                }
                if bucket_find(s2.skip(1), k).is_some() {
                    let i = choose|i: int|
                        0 <= i < s2.skip(1).len() && (#[trigger] s2.skip(1)[i].key@) == k;
                    assert(s2[i + 1].key@ == k);
                }
            } else {
                assert(bucket_find(s1, k) == bucket_find(s2, k));
            }
        }
        lemma_sorted_skip(s1);
        lemma_sorted_skip(s2);
        lemma_sorted_buckets_equal(s1.skip(1), s2.skip(1));
        assert forall|i: int|
            0 <= i < s1.len() implies (#[trigger] s1[i].key@) == s2[i].key@ && s1[i].value@
            == s2[i].value@ by {
            if i > 0 {
                assert(s1[i] == s1.skip(1)[i - 1]);
                assert(s2[i] == s2.skip(1)[i - 1]);
                assert(s1.skip(1)[i - 1].key@ == s2.skip(1)[i - 1].key@);
            } else {
                assert(s1[0].key@ == s2[0].key@);
                assert(s1[0].value@ == s2[0].value@);
            }
        }
    }
}

/// Compares two byte strings for strict lexicographic order.
pub fn key_less(a: &Vec<u8>, b: &Vec<u8>) -> (r: bool)
    ensures
        r == lex_lt(a@, b@),
{
    proof {
        assert(a@.skip(0) =~= a@);
        assert(b@.skip(0) =~= b@);
    }
    let mut i: usize = 0;
    loop
        invariant
            i <= a.len(),
            i <= b.len(),
            lex_lt(a@, b@) == lex_lt(a@.skip(i as int), b@.skip(i as int)),
        decreases a.len() - i,
    {
        proof {
            let sa = a@.skip(i as int);
            let sb = b@.skip(i as int);
            if i < a.len() && i < b.len() {
                assert(sa[0] == a@[i as int]);
                assert(sb[0] == b@[i as int]);
                assert(sa.skip(1) =~= a@.skip(i + 1));
                assert(sb.skip(1) =~= b@.skip(i + 1));
            }
        }
        if i >= a.len() {
            return i < b.len();
        }
        if i >= b.len() {
            return false;
        }
        let x = a[i];
        let y = b[i];
        if x < y {
            return true;
        }
        if x > y {
            return false;
        }
        i = i + 1;
    }
}

/// Compares two byte strings for equality.
pub fn keys_equal(a: &Vec<u8>, b: &Vec<u8>) -> (r: bool)
    ensures
        r == (a@ == b@),
{
    if a.len() != b.len() {
        assert(a@ != b@) by {
            if a@ == b@ {
                assert(a@.len() == b@.len());
            }
        }
        return false;
    }
    let mut i: usize = 0;
    while i < a.len()
        invariant
            i <= a.len(),
            a.len() == b.len(),
            forall|m: int| 0 <= m < i ==> a@[m] == b@[m],
        decreases a.len() - i,
    {
        if a[i] != b[i] {
            return false;
        }
        i = i + 1;
    }
    proof {
        assert(a@ =~= b@);
    }
    true
}

/// Copies a byte string.
pub fn copy_bytes(v: &Vec<u8>) -> (r: Vec<u8>)
    ensures
        r@ == v@,
{
    let mut out: Vec<u8> = Vec::new();
    let mut i: usize = 0;
    while i < v.len()
        invariant
            i <= v.len(),
            out@ == v@.take(i as int),
        decreases v.len() - i,
    {
        out.push(v[i]);
        proof {
            assert(out@ =~= v@.take(i + 1));
        }
        i = i + 1;
    }
    proof {
        assert(v@.take(v@.len() as int) =~= v@);
    }
    out
}

/// An ordered run of key-value pairs sharing a trie path prefix; the terminal
/// container of the trie.
#[derive(Clone)]
pub struct Bucket {
    pub pairs: Vec<KeyValue>,
}

/// Index of the first pair whose key is not below `key` in a sorted run.
fn lower_bound(pairs: &Vec<KeyValue>, key: &Vec<u8>) -> (j: usize)
    requires
        bucket_sorted(pairs@),
    ensures
        j <= pairs@.len(),
        forall|m: int| 0 <= m < j ==> lex_lt(#[trigger] pairs@[m].key@, key@),
        j < pairs@.len() ==> !lex_lt(pairs@[j as int].key@, key@),
{
    let mut j: usize = 0;
    loop
        invariant
            j <= pairs@.len(),
            forall|m: int| 0 <= m < j ==> lex_lt(#[trigger] pairs@[m].key@, key@),
        decreases pairs@.len() - j,
    {
        if j >= pairs.len() {
            return j;
        }
        if !key_less(&pairs[j].key, key) {
            return j;
        }
        j = j + 1;
    }
}

impl Bucket {
    /// Well-formed: pairs in strictly ascending key order (keys unique).
    pub open spec fn wf(self) -> bool {
        bucket_sorted(self.pairs@)
    }

    /// The value bound to `k`, if any.
    pub open spec fn spec_find(self, k: Seq<u8>) -> Option<Seq<u8>> {
        bucket_find(self.pairs@, k)
    }

    /// A bucket with no pairs.
    pub fn new() -> (r: Bucket)
        ensures
            r.wf(),
            r.pairs@.len() == 0,
            forall|k: Seq<u8>| #[trigger] r.spec_find(k) == None::<Seq<u8>>,
    {
        Bucket { pairs: Vec::new() }
    }

    /// Linearly scans for `key` and returns a copy of its value.
    pub fn get(&self, key: &Vec<u8>) -> (r: Option<Vec<u8>>)
        ensures
            match r {
                Some(v) => self.spec_find(key@) == Some(v@),
                None => self.spec_find(key@) == None::<Seq<u8>>,
            },
    {
        proof {
            assert(self.pairs@.skip(0) =~= self.pairs@);
        }
        let mut i: usize = 0;
        loop
            invariant
                i <= self.pairs.len(),
                bucket_find(self.pairs@, key@) == bucket_find(self.pairs@.skip(i as int), key@),
            decreases self.pairs.len() - i,
        {
            proof {
                let s = self.pairs@.skip(i as int);
                if i < self.pairs.len() {
                    assert(s[0] == self.pairs@[i as int]);
                    assert(s.skip(1) =~= self.pairs@.skip(i + 1));
                }
            }
            if i >= self.pairs.len() {
                return None;
            }
            if keys_equal(&self.pairs[i].key, key) {
                return Some(copy_bytes(&self.pairs[i].value));
            }
            i = i + 1;
        }
    }

    /// Binds `key` to `value`, replacing an existing binding or inserting the
    /// pair at its sorted position; returns the value previously bound.
    pub fn set(&mut self, key: Vec<u8>, value: Vec<u8>) -> (prev: Option<Vec<u8>>)
        requires
            old(self).wf(),
        ensures
            final(self).wf(),
            final(self).spec_find(key@) == Some(value@),
            forall|k: Seq<u8>|
                k != key@ ==> #[trigger] final(self).spec_find(k) == old(self).spec_find(k),
            match prev {
                Some(v) => old(self).spec_find(key@) == Some(v@) && final(self).pairs@.len() == old(
                    self,
                ).pairs@.len(),
                None => old(self).spec_find(key@) == None::<Seq<u8>> && final(self).pairs@.len()
                    == old(self).pairs@.len() + 1,
            },
    {
        let ghost s0 = self.pairs@;
        let j = lower_bound(&self.pairs, &key);
        proof {
            assert forall|m: int| 0 <= m < j implies (#[trigger] s0[m].key@) != key@ by {
                lemma_lex_trichotomy(s0[m].key@, key@);
            }
            lemma_sorted_distinct(s0);
        }
        if j < self.pairs.len() && keys_equal(&self.pairs[j].key, &key) {
            // Replace the existing binding.
            let mut kv = self.pairs.remove(j);
            let prev_value = kv.value;
            kv.value = value;
            let ghost kv2 = kv;
            self.pairs.insert(j, kv);
            proof {
                assert(self.pairs@ =~= s0.update(j as int, kv2));
                lemma_find_update(s0, j as int, kv2);
                lemma_find_of_index(s0, j as int);
                assert(bucket_sorted(self.pairs@)) by {
                    assert(forall|m: int|
                        0 <= m < s0.len() && m != j ==> self.pairs@[m] == s0[m]);
                }
            }
            Some(prev_value)
        } else {
            // Insert a fresh pair at its sorted position.
            proof {
                if j < s0.len() {
                    lemma_lex_trichotomy(s0[j as int].key@, key@);
                    assert(lex_lt(key@, s0[j as int].key@));
                }
                lemma_find_exists(s0, key@);
                if bucket_find(s0, key@).is_some() {
                    let i = choose|i: int| 0 <= i < s0.len() && (#[trigger] s0[i].key@) == key@;
                    assert(i >= j);
                    assert(j < s0.len());
                    if i > j {
                        assert(lex_lt(s0[j as int].key@, s0[i].key@));
                        lemma_lex_trans(key@, s0[j as int].key@, s0[i].key@);
                        lemma_lex_trichotomy(key@, s0[i].key@);
                    }
                }
            }
            let kv = KeyValue { key, value };
            let ghost kvg = kv;
            self.pairs.insert(j, kv);
            proof {
                let t = self.pairs@;
                assert(t =~= s0.insert(j as int, kvg));
                lemma_find_insert(s0, j as int, kvg);
                assert(forall|m: int| 0 <= m < j ==> t[m] == s0[m]);
                assert(t[j as int] == kvg);
                assert(forall|m: int| j < m < t.len() ==> t[m] == s0[m - 1]);
                assert(bucket_sorted(t)) by {
                    assert forall|x: int, y: int| 0 <= x < y < t.len() implies lex_lt(
                        #[trigger] t[x].key@,
                        #[trigger] t[y].key@,
                    ) by {
                        if y == j {
                            assert(lex_lt(s0[x].key@, key@));
                        } else if x == j {
                            assert(t[y] == s0[y - 1]);
                            if j < s0.len() {
                                if y - 1 > j {
                                    lemma_lex_trans(key@, s0[j as int].key@, s0[y - 1].key@);
                                }
                            }
                        } else if x < j && y > j {
                            assert(t[x] == s0[x] && t[y] == s0[y - 1]);
                            if x < y - 1 {
                            } else {
                                assert(lex_lt(s0[x].key@, key@));
                                if j < s0.len() {
                                    lemma_lex_trans(s0[x].key@, key@, s0[j as int].key@);
                                }
                            }
                        } else if y < j {
                            assert(t[x] == s0[x] && t[y] == s0[y]);
                        } else {
                            assert(t[x] == s0[x - 1] && t[y] == s0[y - 1]);
                        }
                    }
                }
            }
            None
        }
    }

    /// Removes the binding of `key`, returning the value it had.
    pub fn remove(&mut self, key: &Vec<u8>) -> (prev: Option<Vec<u8>>)
        requires
            old(self).wf(),
        ensures
            final(self).wf(),
            final(self).spec_find(key@) == None::<Seq<u8>>,
            forall|k: Seq<u8>|
                k != key@ ==> #[trigger] final(self).spec_find(k) == old(self).spec_find(k),
            match prev {
                Some(v) => old(self).spec_find(key@) == Some(v@) && final(self).pairs@.len() + 1
                    == old(self).pairs@.len(),
                None => old(self).spec_find(key@) == None::<Seq<u8>> && final(self).pairs@ == old(
                    self,
                ).pairs@,
            },
    {
        let ghost s0 = self.pairs@;
        let mut j: usize = 0;
        loop
            invariant
                s0 == old(self).pairs@,
                self.pairs@ == s0,
                bucket_sorted(s0),
                j <= s0.len(),
                forall|m: int| 0 <= m < j ==> (#[trigger] s0[m].key@) != key@,
            decreases s0.len() - j,
        {
            if j >= self.pairs.len() {
                proof {
                    lemma_find_exists(s0, key@);
                    if bucket_find(s0, key@).is_some() {
                        let i = choose|i: int|
                            0 <= i < s0.len() && (#[trigger] s0[i].key@) == key@;
                        assert(s0[i].key@ == key@);
                    }
                }
                return None;
            }
            if keys_equal(&self.pairs[j].key, key) {
                proof {
                    lemma_sorted_distinct(s0);
                }
                let kv = self.pairs.remove(j);
                proof {
                    assert(self.pairs@ =~= s0.remove(j as int));
                    lemma_find_remove(s0, j as int);
                    lemma_find_of_index(s0, j as int);
                    assert(bucket_sorted(self.pairs@)) by {
                        let t = self.pairs@;
                        assert(forall|m: int| 0 <= m < j ==> t[m] == s0[m]);
                        assert(forall|m: int| j <= m < t.len() ==> t[m] == s0[m + 1]);
                    }
                }
                return Some(kv.value);
            }
            j = j + 1;
        }
    }
}

/// Copies a bucket pair for pair; the copy holds the same pairs in the same
/// order.
pub fn copy_pairs(v: &Vec<KeyValue>) -> (r: Vec<KeyValue>)
    ensures
        crate::node::pairs_model(r@) == crate::node::pairs_model(v@),
        r@.len() == v@.len(),
        r@.len() <= usize::MAX,
        forall|i: int|
            0 <= i < v@.len() ==> (#[trigger] r@[i]).key@ == v@[i].key@ && r@[i].value@
                == v@[i].value@ && r@[i].key@.len() <= usize::MAX && r@[i].value@.len()
                <= usize::MAX,
{
    let mut out: Vec<KeyValue> = Vec::new();
    let mut i: usize = 0;
    while i < v.len()
        invariant
            i <= v.len(),
            out@.len() == i,
            forall|m: int|
                0 <= m < i ==> (#[trigger] out@[m]).key@ == v@[m].key@ && out@[m].value@
                    == v@[m].value@ && out@[m].key@.len() <= usize::MAX && out@[m].value@.len()
                    <= usize::MAX,
        decreases v.len() - i,
    {
        let key = copy_bytes(&v[i].key);
        let value = copy_bytes(&v[i].value);
        proof {
            assert(key@.len() == key.len());
            assert(value@.len() == value.len());
        }
        let kv = KeyValue { key, value };
        out.push(kv);
        i = i + 1;
    }
    let n_out = out.len();
    proof {
        assert(out@.len() == n_out);
        assert(crate::node::pairs_model(out@) =~= crate::node::pairs_model(v@));
    }
    out
}


} // verus!
