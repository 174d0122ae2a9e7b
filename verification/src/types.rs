//! Database element types.
//!
//! An element is anything with a zero value, cloning, and in-place exclusive
//! or.  Each element is modelled as a byte sequence; exclusive or of two
//! elements must be the padded byte-wise exclusive or of their models, and the
//! zero element's bytes must all be zero.  Fixed-width integers and byte
//! arrays of a common length both qualify.

use vstd::prelude::*;

use crate::xorseq::{bat, bxor};

verus! {

/// A RAID-PIR database element.
pub trait PirElement: Sized {
    /// The element's bytes.
    spec fn vw(&self) -> Seq<u8>;

    /// The bytes of the zero element.
    spec fn zero_vw() -> Seq<u8>;

    /// Every byte of the zero element is zero.
    proof fn lemma_zero_vw()
        ensures
            forall|j: int| 0 <= j < Self::zero_vw().len() ==> Self::zero_vw()[j] == 0u8,
    ;

    /// The zero element.
    fn zero() -> (r: Self)
        ensures
            r.vw() == Self::zero_vw(),
    ;

    /// A copy of the element.
    fn clone_el(&self) -> (r: Self)
        ensures
            r.vw() == self.vw(),
    ;

    /// Exclusive-or `other` into `self`; a shorter `self` is widened first.
    fn xor_assign(&mut self, other: &Self)
        ensures
            final(self).vw() == bxor(old(self).vw(), other.vw()),
    ;
}

/// The four bytes of `x`, least significant first.
pub open spec fn u32_le_bytes(x: u32) -> Seq<u8> {
    seq![(x & 0xff) as u8, ((x >> 8) & 0xff) as u8, ((x >> 16) & 0xff) as u8, (
    (x >> 24) & 0xff) as u8]
}

proof fn lemma_u32_xor_bytes(a: u32, b: u32)
    by (bit_vector)
    ensures
        ((a ^ b) & 0xff) as u8 == ((a & 0xff) as u8) ^ ((b & 0xff) as u8),
        (((a ^ b) >> 8) & 0xff) as u8 == (((a >> 8) & 0xff) as u8) ^ (((b >> 8) & 0xff) as u8),
        (((a ^ b) >> 16) & 0xff) as u8 == (((a >> 16) & 0xff) as u8) ^ (((b >> 16) & 0xff) as u8),
        (((a ^ b) >> 24) & 0xff) as u8 == (((a >> 24) & 0xff) as u8) ^ (((b >> 24) & 0xff) as u8),
{
}

proof fn lemma_u32_zero_bytes()
    by (bit_vector)
    ensures
        (0u32 & 0xff) as u8 == 0u8,
        ((0u32 >> 8) & 0xff) as u8 == 0u8,
        ((0u32 >> 16) & 0xff) as u8 == 0u8,
        ((0u32 >> 24) & 0xff) as u8 == 0u8,
{
}

impl PirElement for u32 {
    open spec fn vw(&self) -> Seq<u8> {
        u32_le_bytes(*self)
    }

    open spec fn zero_vw() -> Seq<u8> {
        u32_le_bytes(0)
    }

    proof fn lemma_zero_vw() {
        lemma_u32_zero_bytes();
    }

    fn zero() -> (r: Self) {
        0
    }

    fn clone_el(&self) -> (r: Self) {
        *self
    }

    fn xor_assign(&mut self, other: &Self) {
        let o = *self;
        *self = *self ^ *other;
        proof {
            lemma_u32_xor_bytes(o, *other);
            assert(self.vw() =~= bxor(o.vw(), other.vw()));
        }
    }
}

/// An arbitrarily sized byte array used as a RAID-PIR database element.
///
/// The zero element is empty; exclusive-or assignment widens the accumulator
/// to the length of the right-hand side, so folds that start from zero end at
/// the common element size.
#[derive(Clone, Debug)]
pub struct RaidPirData {
    /// Underlying data.
    pub data: Vec<u8>,
}

impl RaidPirData {
    /// Construct a new object owning the given bytes.
    pub fn new(data: Vec<u8>) -> (r: Self)
        ensures
            r.vw() == data@,
    {
        Self { data }
    }

    /// Returns a reference to the data as a slice.
    pub fn as_slice(&self) -> (r: &[u8])
        ensures
            r@ == self.vw(),
    {
        self.data.as_slice()
    }

    /// Give up the object for its underlying bytes.
    pub fn into_vec(self) -> (r: Vec<u8>)
        ensures
            r@ == self.vw(),
    {
        self.data
    }
}

impl PirElement for RaidPirData {
    open spec fn vw(&self) -> Seq<u8> {
        self.data@
    }

    open spec fn zero_vw() -> Seq<u8> {
        Seq::empty()
    }

    proof fn lemma_zero_vw() {
    }

    fn zero() -> (r: Self) {
        Self { data: Vec::new() }
    }

    fn clone_el(&self) -> (r: Self) {
        let mut data: Vec<u8> = Vec::new();
        let mut x: usize = 0;
        while x < self.data.len()
            invariant
                x <= self.data.len(),
                data@ == self.data@.subrange(0, x as int),
            decreases self.data.len() - x,
        {
            data.push(self.data[x]);
            proof {
                assert(data@ =~= self.data@.subrange(0, x as int + 1));
            }
            x = x + 1;
        }
        proof {
            assert(data@ =~= self.data@);
        }
        Self { data }
    }

    fn xor_assign(&mut self, other: &Self) {
        while self.data.len() < other.data.len()
            invariant
                old(self).data@.len() <= self.data@.len() <= if old(self).data@.len()
                    >= other.data@.len() {
                    old(self).data@.len()
                } else {
                    other.data@.len()
                },
                forall|j: int| 0 <= j < old(self).data@.len() ==> self.data@[j] == old(
                    self,
                ).data@[j],
                forall|j: int|
                    old(self).data@.len() <= j < self.data@.len() ==> self.data@[j] == 0u8,
            decreases other.data@.len() - self.data@.len(),
        {
            self.data.push(0);
        }
        let n = self.data.len();
        let mut x: usize = 0;
        let ghost widened = self.data@;
        while x < other.data.len()
            invariant
                0 <= x <= other.data@.len(),
                other.data@.len() <= n,
                self.data@.len() == n == widened.len(),
                forall|j: int| x <= j < n ==> self.data@[j] == widened[j],
                forall|j: int| 0 <= j < x ==> self.data@[j] == (widened[j] ^ other.data@[j]),
            decreases other.data@.len() - x,
        {
            let b = self.data[x];
            self.data[x] = b ^ other.data[x];
            x = x + 1;
        }
        proof {
            let oldv = old(self).data@;
            let res = bxor(oldv, other.data@);
            assert forall|j: int| 0 <= j < n implies self.data@[j] == res[j] by {
                crate::xorseq::lemma_u8_xor_zero(bat(other.data@, j));
                crate::xorseq::lemma_u8_xor_zero(bat(oldv, j));
            }
            assert(self.data@ =~= res);
        }
    }
}

} // verus!
