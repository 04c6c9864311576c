//! Extraction of successive bit slices from a hashed key.
//!
//! A hashed key is a fixed 32-byte (256-bit) buffer. The extractor hands out
//! the next `i` bits as an unsigned integer, most significant bit first, and
//! tracks how many bits have been consumed. Near exhaustion a request is
//! satisfied with the bits that remain; once none remain, extraction fails
//! with `MaxDepth`.

use vstd::prelude::*;
use vstd::arithmetic::power2::{
    pow2, lemma_pow2_adds, lemma_pow2_pos, lemma_pow2_unfold, lemma2_to64,
};
use vstd::arithmetic::div_mod::{lemma_div_denominator, lemma_mod_breakdown};
use vstd::bits::{
    low_bits_mask, lemma_u32_low_bits_mask_is_mod, lemma_u32_pow2_no_overflow,
    lemma_u32_shl_is_mul, lemma_u32_shr_is_div, lemma_u64_pow2_no_overflow,
    lemma_u64_shl_is_mul,
};

use crate::errors::Error;

verus! {

/// The fixed-length output of the configured hash function.
pub type HashedKey = [u8; 32];

/// Total number of bits in a hashed key.
pub const HASH_BIT_LENGTH: u32 = 256;

/// Bit `i` of the key, counting from the most significant bit of the first
/// byte; either 0 or 1.
pub open spec fn bit_at(b: Seq<u8>, i: nat) -> nat {
    ((b[(i / 8) as int] as nat) / pow2((7 - i % 8) as nat)) % 2
}

/// The unsigned value of bits `[start, start + len)` of the key, most
/// significant bit first.
pub open spec fn bits_value(b: Seq<u8>, start: nat, len: nat) -> nat
    decreases len,
{
    if len == 0 {
        0
    } else {
        2 * bits_value(b, start, (len - 1) as nat) + bit_at(b, (start + len - 1) as nat)
    }
}

/// How many bits an extraction of `i` bits at offset `consumed` yields: `i`,
/// or the bits that remain when fewer than `i` do.
pub open spec fn take_len(i: nat, consumed: nat) -> nat {
    if consumed + i <= 256 {
        i
    } else {
        (256 - consumed) as nat
    }
}

/// A slice of bits `[start, start + len)` is worth less than `2^len`.
pub proof fn lemma_bits_value_bound(b: Seq<u8>, start: nat, len: nat)
    ensures
        bits_value(b, start, len) < pow2(len),
    decreases len,
{
    if len == 0 {
        lemma2_to64();
    } else {
        lemma_bits_value_bound(b, start, (len - 1) as nat);
        lemma_pow2_unfold(len);
    }
}

/// Concatenation: the first `m` bits weigh `2^n`, the last `n` follow.
pub proof fn lemma_bits_value_concat(b: Seq<u8>, s: nat, m: nat, n: nat)
    ensures
        bits_value(b, s, m + n) == bits_value(b, s, m) * pow2(n) + bits_value(b, s + m, n),
    decreases n,
{
    if n == 0 {
        lemma2_to64();
    } else {
        lemma_bits_value_concat(b, s, m, (n - 1) as nat);
        lemma_pow2_unfold(n);
        let v = bits_value(b, s, m);
        let w = bits_value(b, s + m, (n - 1) as nat);
        let bit = bit_at(b, (s + m + n - 1) as nat);
        assert(bits_value(b, s, m + n) == 2 * (v * pow2((n - 1) as nat) + w) + bit);
        assert(2 * (v * pow2((n - 1) as nat) + w) == v * (2 * pow2((n - 1) as nat)) + 2 * w)
            by (nonlinear_arith);
    }
}

/// Bits that lie inside byte `q` are a shifted, masked copy of that byte.
pub proof fn lemma_bits_value_in_byte(b: Seq<u8>, q: nat, p: nat, i: nat)
    requires
        q < b.len(),
        p + i <= 8,
    ensures
        bits_value(b, 8 * q + p, i) == ((b[q as int] as nat) / pow2((8 - p - i) as nat)) % pow2(i),
    decreases i,
{
    let x = b[q as int] as nat;
    if i == 0 {
        lemma2_to64();
    } else {
        lemma_bits_value_in_byte(b, q, p, (i - 1) as nat);
        let j = (8 * q + p + i - 1) as nat;
        assert(j / 8 == q && j % 8 == (p + i - 1) as nat) by (nonlinear_arith)
            requires
                j == 8 * q + p + i - 1 && p + i <= 8 && i >= 1,
        ;
        assert(bit_at(b, j) == (x / pow2((8 - p - i) as nat)) % 2);
        let a = (8 - p - i) as nat;
        lemma_pow2_pos(a);
        lemma_pow2_unfold((a + 1) as nat);
        assert(x / pow2((a + 1) as nat) == (x / pow2(a)) / 2) by {
            lemma_div_denominator(x as int, pow2(a) as int, 2);
            assert(pow2(a) * 2 == 2 * pow2(a)) by (nonlinear_arith);
        };
        let y = x / pow2(a);
        lemma_pow2_pos((i - 1) as nat);
        lemma_mod_breakdown(y as int, 2, pow2((i - 1) as nat) as int);
        lemma_pow2_unfold(i);
    }
}

/// Steps through the bits of a hashed key.
#[derive(Debug, Clone, Copy)]
pub struct HashBits<'a> {
    /// The hashed key being consumed.
    pub b: &'a HashedKey,
    /// Bits handed out so far; the next extraction starts here.
    pub consumed: u32,
}

/// Mask with the low `n` bits set, as a specification value.
pub open spec fn mkmask_spec(n: u32) -> u32 {
    ((1u32 << n) - 1) as u32
}

/// Mask with the low `n` bits set.
fn mkmask(n: u32) -> (r: u32)
    requires
        n <= 8,
    ensures
        r as nat == low_bits_mask(n as nat),
        r == low_bits_mask(n as nat) as u32,
        r == (1u32 << n) - 1,
        r == mkmask_spec(n),
{
    proof {
        lemma_u64_pow2_no_overflow(n as nat);
        lemma_u64_shl_is_mul(1u64, n as u64);
        lemma_u32_pow2_no_overflow(n as nat);
        lemma_u32_shl_is_mul(1u32, n);
        lemma_pow2_pos(n as nat);
    }
    ((1u64 << n) - 1) as u32
}

impl<'a> HashBits<'a> {
    /// The bytes of the key being consumed.
    pub open spec fn key(self) -> Seq<u8> {
        self.b@
    }

    /// Starts an extraction pass at the first bit of the key.
    pub fn new(hash_buffer: &'a HashedKey) -> (r: HashBits<'a>)
        ensures
            r.key() == hash_buffer@,
            r.consumed == 0,
    {
        Self::new_at_index(hash_buffer, 0)
    }

    /// Starts an extraction pass at bit `consumed` of the key.
    pub fn new_at_index(hash_buffer: &'a HashedKey, consumed: u32) -> (r: HashBits<'a>)
        ensures
            r.key() == hash_buffer@,
            r.consumed == consumed,
    {
        Self { b: hash_buffer, consumed }
    }

    /// Returns the next `i` bits of the hash as an unsigned integer, most
    /// significant bit first, and advances the consumed position.
    ///
    /// Requests outside 1..=8 bits fail with `InvalidHashBitLen`. When fewer
    /// than `i` bits remain, the remaining bits are returned; when none
    /// remain, the call fails with `MaxDepth`. A failed call leaves the
    /// extractor unchanged.
    pub fn next(&mut self, i: u32) -> (r: Result<u32, Error>)
        requires
            old(self).consumed <= 256,
        ensures
            final(self).key() == old(self).key(),
            final(self).consumed <= 256,
            match r {
                Ok(v) => {
                    let take = take_len(i as nat, old(self).consumed as nat);
                    &&& 1 <= i <= 8
                    &&& old(self).consumed < 256
                    &&& final(self).consumed == old(self).consumed + take
                    &&& v as nat == bits_value(old(self).key(), old(self).consumed as nat, take)
                    &&& v < pow2(take)
                },
                Err(Error::InvalidHashBitLen) => (i == 0 || i > 8) && final(self).consumed == old(
                    self,
                ).consumed,
                Err(Error::MaxDepth) => 1 <= i <= 8 && old(self).consumed == 256
                    && final(self).consumed == old(self).consumed,
                Err(_) => false,
            },
    {
        if i > 8 || i == 0 {
            return Err(Error::InvalidHashBitLen);
        }
        let maxi = HASH_BIT_LENGTH - self.consumed;
        if maxi == 0 {
            return Err(Error::MaxDepth);
        }
        let take = if i < maxi {
            i
        } else {
            maxi
        };
        Ok(self.next_bits(take))
    }

    /// Consumes `i` bits, assembling them across byte boundaries.
    ///
    /// Within the current byte the span is masked and shifted out directly;
    /// a span that crosses a byte boundary takes the rest of the current
    /// byte, shifts it into position, and recurses for the remainder.
    fn next_bits(&mut self, i: u32) -> (r: u32)
        requires
            1 <= i <= 8,
            old(self).consumed + i <= 256,
        ensures
            final(self).key() == old(self).key(),
            final(self).consumed == old(self).consumed + i,
            r as nat == bits_value(old(self).key(), old(self).consumed as nat, i as nat),
            r < pow2(i as nat),
        decreases i,
    {
        let ghost c = self.consumed as nat;
        let ghost keyseq = self.b@;
        let curbi = self.consumed / 8;
        let leftb = 8 - (self.consumed % 8);
        let curb = self.b[curbi as usize] as u32;
        proof {
            assert(curbi < 32 && 1 <= leftb <= 8);
            assert(8 * (c / 8) + c % 8 == c);
            lemma_bits_value_bound(keyseq, c, i as nat);
            lemma2_to64();
        }
        if i == leftb {
            // The span ends exactly at the byte boundary.
            let mask = mkmask(i);
            let out = mask & curb;
            proof {
                assert(mask & curb == curb & mask) by (bit_vector);
                lemma_u32_low_bits_mask_is_mod(curb, i as nat);
                lemma_bits_value_in_byte(keyseq, c / 8, c % 8, i as nat);
                assert((curb as nat) / pow2(0) == curb as nat);
                assert(out as nat == bits_value(keyseq, c, i as nat));
            }
            self.consumed = self.consumed + i;
            out
        } else if i < leftb {
            // The span lies strictly inside the current byte.
            let mask = mkmask(leftb);
            let a = curb & mask;
            let dropmask = mkmask(leftb - i);
            let kept = a & !dropmask;
            let out = kept >> (leftb - i);
            proof {
                let sh = (leftb - i) as u32;
                lemma_u32_pow2_no_overflow(i as nat);
                lemma_u32_shl_is_mul(1u32, i);
                let mi = mkmask_spec(i);
                assert(((curb & mask) & !dropmask) >> sh == (curb >> sh) & mi) by (bit_vector)
                    requires
                        mask == (1u32 << leftb) - 1,
                        dropmask == (1u32 << sh) - 1,
                        mi == (1u32 << i) - 1,
                        sh == leftb - i,
                        1 <= i < leftb,
                        leftb <= 8,
                ;
                assert(mi as nat == low_bits_mask(i as nat));
                assert(mi == low_bits_mask(i as nat) as u32);
                lemma_u32_shr_is_div(curb, sh);
                lemma_u32_low_bits_mask_is_mod(curb >> sh, i as nat);
                lemma_bits_value_in_byte(keyseq, c / 8, c % 8, i as nat);
                assert((8 - c % 8 - i) as nat == sh as nat);
                assert(out as nat == ((curb >> sh) as nat) % pow2(i as nat));
                assert((curb >> sh) as nat == (curb as nat) / pow2(sh as nat));
                assert(out as nat == bits_value(keyseq, c, i as nat));
            }
            self.consumed = self.consumed + i;
            out
        } else {
            // The span crosses into the next byte: take what is left of this
            // byte, make room, and consume the rest recursively.
            let mask = mkmask(leftb);
            let head = mask & curb;
            proof {
                assert(mask & curb == curb & mask) by (bit_vector);
                lemma_u32_low_bits_mask_is_mod(curb, leftb as nat);
                lemma_bits_value_in_byte(keyseq, c / 8, c % 8, leftb as nat);
                assert((curb as nat) / pow2(0) == curb as nat);
                lemma_bits_value_bound(keyseq, c, leftb as nat);
                assert(head as nat == bits_value(keyseq, c, leftb as nat));
            }
            let mut out: u64 = head as u64;
            proof {
                lemma_u64_pow2_no_overflow((i - leftb) as nat);
                lemma_pow2_adds(leftb as nat, (i - leftb) as nat);
                assert(out * pow2((i - leftb) as nat) < pow2(leftb as nat) * pow2(
                    (i - leftb) as nat,
                )) by (nonlinear_arith)
                    requires
                        out < pow2(leftb as nat),
                        pow2((i - leftb) as nat) > 0,
                ;
                lemma_u64_shl_is_mul(out, (i - leftb) as u64);
            }
            out = out << ((i - leftb) as u64);
            self.consumed = self.consumed + leftb;
            let rest = self.next_bits(i - leftb);
            proof {
                lemma_bits_value_concat(keyseq, c, leftb as nat, (i - leftb) as nat);
                lemma_bits_value_bound(keyseq, (c + leftb) as nat, (i - leftb) as nat);
                lemma_bits_value_bound(keyseq, c, i as nat);
            }
            out = out + rest as u64;
            out as u32
        }
    }
}

} // verus!
