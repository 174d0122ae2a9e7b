//! Bitstrings stored as byte vectors, least significant bit of each byte first.
//!
//! Queries and pseudorandom masks travel as such bitstrings; the byte layout
//! is the wire format, so it is part of the library's own logic.

use vstd::prelude::*;

use crate::util;
use crate::xorseq::{bitxor_bits, byte_bit, byte_bits};

verus! {

/// `bit_len` bits packed into `bytes`, least significant bit of each byte first.
pub struct BitString {
    pub bytes: Vec<u8>,
    pub bit_len: usize,
}

impl View for BitString {
    type V = Seq<bool>;

    open spec fn view(&self) -> Seq<bool> {
        Seq::new(self.bit_len as nat, |i: int| byte_bit(self.bytes@[i / 8], i % 8))
    }
}

proof fn lemma_bit_of_zero_byte(jj: u8)
    by (bit_vector)
    requires
        jj < 8,
    ensures
        (0u8 >> jj) & 1 != 1,
{
}

proof fn lemma_bit_of_or_mask(b: u8, rr: u8, jj: u8)
    by (bit_vector)
    requires
        rr < 8,
        jj < 8,
    ensures
        (((b | (1u8 << rr)) >> jj) & 1 == 1) == (jj == rr || (b >> jj) & 1 == 1),
{
}

proof fn lemma_bit_of_xor_byte(a: u8, b: u8, jj: u8)
    by (bit_vector)
    requires
        jj < 8,
    ensures
        (((a ^ b) >> jj) & 1 == 1) == (((a >> jj) & 1 == 1) != ((b >> jj) & 1 == 1)),
{
}

/// Splitting a bit position into its byte and intra-byte part.
pub(crate) proof fn lemma_bit_index_split(lo: int, x: int)
    requires
        0 <= x,
        0 <= lo,
    ensures
        (8 * lo + x) / 8 == lo + x / 8,
        (8 * lo + x) % 8 == x % 8,
{
    vstd::arithmetic::div_mod::lemma_fundamental_div_mod(x, 8);
    vstd::arithmetic::div_mod::lemma_fundamental_div_mod_converse(
        8 * lo + x,
        8,
        lo + x / 8,
        x % 8,
    );
}

/// Byte `p` of a bitstring carries its bits `[8p, 8p + 8)`.
pub proof fn lemma_byte_window(b: &BitString, p: int)
    requires
        b.wf(),
        0 <= p,
        8 * p + 8 <= b.bit_len,
    ensures
        b@.subrange(8 * p, 8 * p + 8) == byte_bits(b.bytes@[p]),
{
    assert forall|x: int| 0 <= x < 8 implies b@[8 * p + x] == byte_bit(b.bytes@[p], x) by {
        lemma_bit_index_split(p, x);
        vstd::arithmetic::div_mod::lemma_fundamental_div_mod_converse(x, 8, 0, x);
    }
    assert(b@.subrange(8 * p, 8 * p + 8) =~= byte_bits(b.bytes@[p]));
}

impl BitString {
    /// The byte vector holds exactly the bytes the bit length calls for.
    pub open spec fn wf(&self) -> bool {
        self.bytes@.len() == (self.bit_len + 7) / 8
    }

    /// An all-zero bitstring of `bit_len` bits.
    pub fn zeros(bit_len: usize) -> (r: BitString)
        requires
            bit_len + 7 <= usize::MAX,
        ensures
            r.wf(),
            r.bit_len == bit_len,
            r@ == Seq::new(bit_len as nat, |i: int| false),
    {
        let bytes = vec![0u8; (bit_len + 7) / 8];
        let r = BitString { bytes, bit_len };
        proof {
            assert forall|i: int| 0 <= i < bit_len implies r@[i] == false by {
                lemma_bit_of_zero_byte((i % 8) as u8);
            }
            assert(r@ =~= Seq::new(bit_len as nat, |i: int| false));
        }
        r
    }

    /// Wrap `bytes` as a bitstring of `bit_len` bits.
    pub fn from_bytes(bytes: Vec<u8>, bit_len: usize) -> (r: BitString)
        requires
            bytes@.len() == (bit_len + 7) / 8,
        ensures
            r.wf(),
            r.bit_len == bit_len,
            r@ == Seq::new(bit_len as nat, |i: int| byte_bit(bytes@[i / 8], i % 8)),
    {
        BitString { bytes, bit_len }
    }

    /// The number of bits.
    pub fn len(&self) -> (r: usize)
        ensures
            r == self.bit_len,
    {
        self.bit_len
    }

    /// Read bit `i`.
    pub fn get(&self, i: usize) -> (r: bool)
        requires
            self.wf(),
            i < self.bit_len,
        ensures
            r == self@[i as int],
    {
        proof {
            lemma_bit_index_split(0, i as int);
            assert(i as int / 8 < self.bytes@.len());
        }
        (self.bytes[i / 8] >> ((i % 8) as u8)) & 1 == 1
    }

    /// Set bit `i` to one.
    pub fn set(&mut self, i: usize)
        requires
            old(self).wf(),
            i < old(self).bit_len,
        ensures
            final(self).wf(),
            final(self).bit_len == old(self).bit_len,
            final(self)@ == old(self)@.update(i as int, true),
    {
        proof {
            lemma_bit_index_split(0, i as int);
        }
        let bi = i / 8;
        let mask: u8 = 1u8 << ((i % 8) as u8);
        let b = self.bytes[bi];
        self.bytes[bi] = b | mask;
        proof {
            let newv = self@;
            let oldv = old(self)@;
            assert forall|x: int| 0 <= x < self.bit_len implies newv[x] == oldv.update(
                i as int,
                true,
            )[x] by {
                lemma_bit_index_split(0, x);
                vstd::arithmetic::div_mod::lemma_fundamental_div_mod(x, 8);
                vstd::arithmetic::div_mod::lemma_fundamental_div_mod(i as int, 8);
                if x / 8 == bi {
                    lemma_bit_of_or_mask(b, (i % 8) as u8, (x % 8) as u8);
                }
            }
            assert(newv =~= oldv.update(i as int, true));
        }
    }

    /// Exclusive-or `other` into `self`, bit by bit.
    pub fn xor_with(&mut self, other: &BitString)
        requires
            old(self).wf(),
            other.wf(),
            old(self).bit_len == other.bit_len,
        ensures
            final(self).wf(),
            final(self).bit_len == old(self).bit_len,
            final(self)@ == bitxor_bits(old(self)@, other@),
    {
        util::xor_into_slice(&mut self.bytes, &other.bytes);
        proof {
            let newv = self@;
            let oldv = old(self)@;
            assert forall|x: int| 0 <= x < self.bit_len implies newv[x] == (oldv[x] != other@[x]) by {
                lemma_bit_index_split(0, x);
                assert(self.bytes@[x / 8] == old(self).bytes@[x / 8] ^ other.bytes@[x / 8]);
                lemma_bit_of_xor_byte(old(self).bytes@[x / 8], other.bytes@[x / 8], (x % 8) as u8);
            }
            assert(newv =~= bitxor_bits(oldv, other@));
        }
    }

    /// The bits of the byte range `[lo, hi)`, as a bitstring of its own.
    pub fn byte_range(&self, lo: usize, hi: usize) -> (r: BitString)
        requires
            self.wf(),
            lo <= hi,
            8 * hi <= self.bit_len,
        ensures
            r.wf(),
            r.bit_len == 8 * (hi - lo),
            r@ == self@.subrange(8 * lo as int, 8 * hi as int),
    {
        let mut out: Vec<u8> = Vec::new();
        let mut x = lo;
        while x < hi
            invariant
                lo <= x <= hi,
                self.wf(),
                8 * hi <= self.bit_len,
                out@ == self.bytes@.subrange(lo as int, x as int),
            decreases hi - x,
        {
            proof {
                assert((x as int) < (self.bit_len + 7) / 8);
            }
            out.push(self.bytes[x]);
            proof {
                assert(out@ =~= self.bytes@.subrange(lo as int, x as int + 1));
            }
            x = x + 1;
        }
        let r = BitString { bytes: out, bit_len: 8 * (hi - lo) };
        proof {
            assert forall|i: int| 0 <= i < r.bit_len implies r@[i] == self@[8 * lo + i] by {
                lemma_bit_index_split(lo as int, i);
                vstd::arithmetic::div_mod::lemma_fundamental_div_mod(i, 8);
            }
            assert(r@ =~= self@.subrange(8 * lo as int, 8 * hi as int));
        }
        r
    }
}

} // verus!
