//! Utility functions: the pseudorandom bit expansion shared by client and
//! server, the parallel byte-wise exclusive or, and the entropy source.
//!
//! Every call into an outside crate lives here, behind a contract.

use vstd::prelude::*;

use rand::rngs::StdRng;
use rand::{RngCore, SeedableRng};
use rand_chacha::ChaChaRng;
use rayon::iter::{
    IndexedParallelIterator, IntoParallelRefIterator, IntoParallelRefMutIterator,
    ParallelIterator,
};

use crate::bits::BitString;
use crate::xorseq::byte_bit;

verus! {

/// The ChaCha20 keystream for a seed: `n` bytes, a function of `seed` and `n` alone.
pub uninterp spec fn chacha_bytes(seed: u64, n: int) -> Seq<u8>;

/// The first `bit_len` bits of the keystream for `seed`, least significant
/// bit of each byte first.
pub open spec fn expand_bits(seed: u64, bit_len: int) -> Seq<bool> {
    Seq::new(bit_len as nat, |i: int| byte_bit(chacha_bytes(seed, (bit_len + 7) / 8)[i / 8], i % 8))
}

/// Relies on rand_chacha's `ChaChaRng::seed_from_u64` and `fill_bytes`: the
/// keystream is a deterministic function of the seed alone, identical on
/// every architecture, and `fill_bytes` fills the whole buffer.
#[verifier::external_body]
fn chacha_fill(seed: u64, n: usize) -> (r: Vec<u8>)
    ensures
        r@ == chacha_bytes(seed, n as int),
        r@.len() == n,
{
    let mut prng = ChaChaRng::seed_from_u64(seed);
    let mut buf = vec![0u8; n];
    prng.fill_bytes(&mut buf);
    buf
}

pub(crate) fn xor_byte(a: u8, b: u8) -> (r: u8)
    ensures
        r == a ^ b,
{
    a ^ b
}

/// Relies on rayon's `par_iter_mut`, `par_iter`, `zip`, `with_min_len` and
/// `for_each`: the zip pairs equal indices, stops at the shorter slice, and
/// the closure runs once per pair.
#[verifier::external_body]
fn par_xor(a: &mut Vec<u8>, b: &Vec<u8>)
    ensures
        final(a)@.len() == old(a)@.len(),
        forall|i: int|
            0 <= i < final(a)@.len() && i < b@.len() ==> final(a)@[i] == (old(a)@[i] ^ b@[i]),
        forall|i: int|
            0 <= i < final(a)@.len() && i >= b@.len() ==> final(a)@[i] == old(a)@[i],
{
    a.par_iter_mut().zip(b.par_iter()).with_min_len(1 << 16).for_each(|(x, y)| *x = xor_byte(*x, *y));
}

/// Exclusive-or `b` into `a`, byte by byte, in parallel.  Positions past the
/// end of `b` are left alone.
pub fn xor_into_slice(a: &mut Vec<u8>, b: &Vec<u8>)
    ensures
        final(a)@.len() == old(a)@.len(),
        forall|i: int|
            0 <= i < final(a)@.len() && i < b@.len() ==> final(a)@[i] == (old(a)@[i] ^ b@[i]),
        forall|i: int|
            0 <= i < final(a)@.len() && i >= b@.len() ==> final(a)@[i] == old(a)@[i],
{
    par_xor(a, b)
}

/// Expand `seed` to a bitstring of `len` pseudorandom bits.
///
/// Client and server derive identical bits from the same seed: the result is
/// a function of `seed` and `len` alone.
pub fn rand_bitvec(seed: u64, len: usize) -> (r: BitString)
    requires
        len + 7 <= usize::MAX,
    ensures
        r.wf(),
        r.bit_len == len,
        r@ == expand_bits(seed, len as int),
{
    let bytes = chacha_fill(seed, (len + 7) / 8);
    let r = BitString::from_bytes(bytes, len);
    proof {
        assert(r@ =~= expand_bits(seed, len as int));
    }
    r
}

/// The expansion is reproducible: any two bitstring views that meet
/// `rand_bitvec`'s contract for the same seed and length are bit-identical,
/// whatever machine produced them.
pub proof fn lemma_expand_deterministic(a: Seq<bool>, b: Seq<bool>, seed: u64, len: int)
    requires
        a == expand_bits(seed, len),
        b == expand_bits(seed, len),
    ensures
        a == b,
{
}

/// rand's `StdRng`, declared so that it can cross the library's signatures.
#[verifier::external_type_specification]
#[verifier::external_body]
pub struct ExStdRng(StdRng);

/// Relies on rand's `StdRng::from_entropy`: seeds a generator from the
/// operating system's entropy source.
#[verifier::external_body]
pub(crate) fn rng_from_entropy() -> StdRng {
    StdRng::from_entropy()
}

/// Relies on rand's `RngCore::next_u64`; nothing is assumed of the value.
#[verifier::external_body]
pub(crate) fn rng_next_u64(rng: &mut StdRng) -> u64 {
    rng.next_u64()
}

} // verus!
