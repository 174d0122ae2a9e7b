//! Byte-sequence exclusive-or algebra.
//!
//! Database elements are modelled as byte sequences.  Exclusive or pads the
//! shorter operand with zero bytes, so the empty sequence is an identity.
//! `sel_xor` is the fold that every server-side computation reduces to: the
//! exclusive or of the elements selected by a bit sequence.

use vstd::prelude::*;

verus! {

/// Byte `j` of `s`, reading positions past the end (or before the start) as zero.
pub open spec fn bat(s: Seq<u8>, j: int) -> u8 {
    if 0 <= j < s.len() {
        s[j]
    } else {
        0
    }
}

/// Exclusive or of two byte sequences; the shorter one is padded with zeros.
pub open spec fn bxor(a: Seq<u8>, b: Seq<u8>) -> Seq<u8> {
    Seq::new(if a.len() >= b.len() { a.len() } else { b.len() }, |j: int| bat(a, j) ^ bat(b, j))
}

/// Exclusive or of the elements of `db` at positions `lo + x` for which `bits[x]` is set.
pub open spec fn sel_xor(db: Seq<Seq<u8>>, bits: Seq<bool>, lo: int) -> Seq<u8>
    decreases bits.len(),
{
    if bits.len() == 0 {
        Seq::empty()
    } else {
        bxor(
            sel_xor(db, bits.drop_last(), lo),
            if bits.last() {
                db[lo + bits.len() - 1]
            } else {
                Seq::empty()
            },
        )
    }
}

pub proof fn lemma_u8_xor_zero(x: u8)
    by (bit_vector)
    ensures
        x ^ 0 == x,
        0 ^ x == x,
{
}

pub proof fn lemma_u8_xor_self(x: u8)
    by (bit_vector)
    ensures
        x ^ x == 0,
{
}

pub proof fn lemma_u8_xor_comm(x: u8, y: u8)
    by (bit_vector)
    ensures
        x ^ y == y ^ x,
{
}

pub proof fn lemma_u8_xor_assoc(x: u8, y: u8, z: u8)
    by (bit_vector)
    ensures
        (x ^ y) ^ z == x ^ (y ^ z),
{
}

/// `bat` distributes over `bxor` at every position, in or out of range.
pub proof fn lemma_bat_bxor(a: Seq<u8>, b: Seq<u8>, j: int)
    ensures
        bat(bxor(a, b), j) == bat(a, j) ^ bat(b, j),
{
    if 0 <= j < bxor(a, b).len() {
    } else {
        lemma_u8_xor_zero(0);
        assert(bat(a, j) == 0 && bat(b, j) == 0);
    }
}

pub proof fn lemma_bxor_len(a: Seq<u8>, b: Seq<u8>)
    ensures
        bxor(a, b).len() == if a.len() >= b.len() { a.len() } else { b.len() },
{
}

pub proof fn lemma_bxor_empty_right(a: Seq<u8>)
    ensures
        bxor(a, Seq::empty()) == a,
{
    assert forall|j: int| 0 <= j < a.len() implies bxor(a, Seq::empty())[j] == a[j] by {
        lemma_u8_xor_zero(a[j]);
    }
    assert(bxor(a, Seq::empty()) =~= a);
}

pub proof fn lemma_bxor_empty_left(a: Seq<u8>)
    ensures
        bxor(Seq::empty(), a) == a,
{
    assert forall|j: int| 0 <= j < a.len() implies bxor(Seq::empty(), a)[j] == a[j] by {
        lemma_u8_xor_zero(a[j]);
    }
    assert(bxor(Seq::empty(), a) =~= a);
}

pub proof fn lemma_bxor_comm(a: Seq<u8>, b: Seq<u8>)
    ensures
        bxor(a, b) == bxor(b, a),
{
    assert forall|j: int| 0 <= j < bxor(a, b).len() implies bxor(a, b)[j] == bxor(b, a)[j] by {
        lemma_u8_xor_comm(bat(a, j), bat(b, j));
    }
    assert(bxor(a, b) =~= bxor(b, a));
}

pub proof fn lemma_bxor_assoc(a: Seq<u8>, b: Seq<u8>, c: Seq<u8>)
    ensures
        bxor(bxor(a, b), c) == bxor(a, bxor(b, c)),
{
    let l = bxor(bxor(a, b), c);
    let r = bxor(a, bxor(b, c));
    assert forall|j: int| 0 <= j < l.len() implies l[j] == r[j] by {
        lemma_bat_bxor(a, b, j);
        lemma_bat_bxor(b, c, j);
        lemma_u8_xor_assoc(bat(a, j), bat(b, j), bat(c, j));
    }
    assert(l =~= r);
}

/// A sequence of zero bytes no longer than `a` is absorbed by `a`.
pub proof fn lemma_bxor_absorb_zeros(a: Seq<u8>, zv: Seq<u8>, b: Seq<u8>)
    requires
        zv.len() <= a.len(),
        forall|j: int| 0 <= j < zv.len() ==> zv[j] == 0u8,
    ensures
        bxor(a, bxor(zv, b)) == bxor(a, b),
{
    let l = bxor(a, bxor(zv, b));
    let r = bxor(a, b);
    assert forall|j: int| 0 <= j < l.len() implies l[j] == r[j] by {
        lemma_bat_bxor(zv, b, j);
        assert(bat(zv, j) == 0);
        lemma_u8_xor_zero(bat(b, j));
    }
    assert(l =~= r);
}

/// True when bit `j` (least significant first) of byte `b` is set.
pub open spec fn byte_bit(b: u8, j: int) -> bool {
    (b >> (j as u8)) & 1 == 1
}

/// The bits of a byte sequence, least significant bit of each byte first.
pub open spec fn bits_of_bytes(s: Seq<u8>) -> Seq<bool> {
    Seq::new(s.len() * 8, |i: int| byte_bit(s[i / 8], i % 8))
}

/// The eight bits of one byte, least significant first.
pub open spec fn byte_bits(b: u8) -> Seq<bool> {
    Seq::new(8, |j: int| byte_bit(b, j))
}

/// Pointwise exclusive or of two bit sequences of equal length.
pub open spec fn bitxor_bits(a: Seq<bool>, b: Seq<bool>) -> Seq<bool> {
    Seq::new(a.len(), |i: int| a[i] != b[i])
}

/// Exclusive or of `f` over the integer range `[lo, hi)`.
pub open spec fn xsum(lo: int, hi: int, f: spec_fn(int) -> u8) -> u8
    decreases hi - lo,
{
    if hi <= lo {
        0
    } else {
        xsum(lo, hi - 1, f) ^ f(hi - 1)
    }
}

pub proof fn lemma_u8_xor_rearrange(a: u8, b: u8, c: u8, d: u8)
    by (bit_vector)
    ensures
        (a ^ b) ^ (c ^ d) == (a ^ c) ^ (b ^ d),
{
}

pub proof fn lemma_xsum_congruence(lo: int, hi: int, f: spec_fn(int) -> u8, g: spec_fn(int) -> u8)
    requires
        forall|x: int| lo <= x < hi ==> #[trigger] f(x) == g(x),
    ensures
        xsum(lo, hi, f) == xsum(lo, hi, g),
    decreases hi - lo,
{
    if hi > lo {
        lemma_xsum_congruence(lo, hi - 1, f, g);
    }
}

pub proof fn lemma_xsum_zero(lo: int, hi: int, f: spec_fn(int) -> u8)
    requires
        forall|x: int| lo <= x < hi ==> #[trigger] f(x) == 0,
    ensures
        xsum(lo, hi, f) == 0,
    decreases hi - lo,
{
    if hi > lo {
        lemma_xsum_zero(lo, hi - 1, f);
        lemma_u8_xor_zero(0);
    }
}

pub proof fn lemma_xsum_split(lo: int, mid: int, hi: int, f: spec_fn(int) -> u8)
    requires
        lo <= mid <= hi,
    ensures
        xsum(lo, hi, f) == xsum(lo, mid, f) ^ xsum(mid, hi, f),
    decreases hi - mid,
{
    if hi == mid {
        lemma_u8_xor_zero(xsum(lo, mid, f));
    } else {
        lemma_xsum_split(lo, mid, hi - 1, f);
        lemma_u8_xor_assoc(xsum(lo, mid, f), xsum(mid, hi - 1, f), f(hi - 1));
    }
}

/// Sums of `f` over `[lo, hi)` and of `g` over `[lo + d, hi + d)` agree when
/// `g` is `f` displaced by `d`.
pub proof fn lemma_xsum_shift(lo: int, hi: int, d: int, f: spec_fn(int) -> u8, g: spec_fn(int) -> u8)
    requires
        forall|x: int| lo <= x < hi ==> #[trigger] f(x) == g(x + d),
    ensures
        xsum(lo, hi, f) == xsum(lo + d, hi + d, g),
    decreases hi - lo,
{
    if hi > lo {
        lemma_xsum_shift(lo, hi - 1, d, f, g);
    }
}

/// Exclusive-or sums commute with pointwise exclusive or.
pub proof fn lemma_xsum_add(
    lo: int,
    hi: int,
    f: spec_fn(int) -> u8,
    g: spec_fn(int) -> u8,
    h: spec_fn(int) -> u8,
)
    requires
        forall|x: int| lo <= x < hi ==> #[trigger] h(x) == f(x) ^ g(x),
    ensures
        xsum(lo, hi, h) == xsum(lo, hi, f) ^ xsum(lo, hi, g),
    decreases hi - lo,
{
    if hi <= lo {
        lemma_u8_xor_zero(0);
    } else {
        lemma_xsum_add(lo, hi - 1, f, g, h);
        lemma_u8_xor_rearrange(xsum(lo, hi - 1, f), xsum(lo, hi - 1, g), f(hi - 1), g(hi - 1));
    }
}

/// A double exclusive-or sum may be summed in either order.
pub proof fn lemma_xsum_swap(a: int, b: int, h: spec_fn(int, int) -> u8)
    ensures
        xsum(0, a, |t: int| xsum(0, b, |j: int| h(t, j))) == xsum(
            0,
            b,
            |j: int| xsum(0, a, |t: int| h(t, j)),
        ),
    decreases a,
{
    let lhs_inner = |t: int| xsum(0, b, |j: int| h(t, j));
    if a <= 0 {
        lemma_xsum_zero(0, b, |j: int| xsum(0, a, |t: int| h(t, j)));
    } else {
        lemma_xsum_swap(a - 1, b, h);
        // The inner sums on the right each peel off their last term.
        lemma_xsum_add(
            0,
            b,
            |j: int| xsum(0, a - 1, |t: int| h(t, j)),
            |j: int| h(a - 1, j),
            |j: int| xsum(0, a, |t: int| h(t, j)),
        );
    }
}

/// A sum over a cyclic shift of `[0, k)` equals the plain sum.
pub proof fn lemma_xsum_rotate(k: int, d: int, g: spec_fn(int) -> u8)
    requires
        0 <= d < k,
    ensures
        xsum(0, k, |t: int| g((t + d) % k)) == xsum(0, k, g),
{
    let rot = |t: int| g((t + d) % k);
    lemma_xsum_split(0, k - d, k, rot);
    assert forall|t: int| 0 <= t < k - d implies #[trigger] rot(t) == g(t + d) by {
        vstd::arithmetic::div_mod::lemma_fundamental_div_mod_converse(t + d, k, 0, t + d);
    }
    assert forall|t: int| k - d <= t < k implies #[trigger] rot(t) == g(t + (d - k)) by {
        vstd::arithmetic::div_mod::lemma_fundamental_div_mod_converse(t + d, k, 1, t + d - k);
    }
    lemma_xsum_shift(0, k - d, d, rot, g);
    assert(xsum(0, k - d, rot) == xsum(d, k, g));
    lemma_xsum_shift(k - d, k, d - k, rot, g);
    assert(xsum(k - d, k, rot) == xsum(0, d, g));
    lemma_u8_xor_comm(xsum(d, k, g), xsum(0, d, g));
    lemma_xsum_split(0, d, k, g);
}

pub proof fn lemma_xsum_single(lo: int, hi: int, f: spec_fn(int) -> u8, x: int)
    requires
        lo <= x < hi,
        forall|y: int| lo <= y < hi && y != x ==> #[trigger] f(y) == 0,
    ensures
        xsum(lo, hi, f) == f(x),
    decreases hi - lo,
{
    if hi - 1 == x {
        lemma_xsum_zero(lo, hi - 1, f);
        lemma_u8_xor_zero(f(x));
    } else {
        lemma_xsum_single(lo, hi - 1, f, x);
        lemma_u8_xor_zero(f(x));
    }
}

/// Every selected element no longer than `s` bounds the selection fold by `s`.
pub proof fn lemma_sel_len_le(db: Seq<Seq<u8>>, bits: Seq<bool>, lo: int, s: int)
    requires
        0 <= s,
        forall|x: int| 0 <= x < bits.len() ==> #[trigger] db[lo + x].len() <= s,
    ensures
        sel_xor(db, bits, lo).len() <= s,
    decreases bits.len(),
{
    if bits.len() > 0 {
        lemma_sel_len_le(db, bits.drop_last(), lo, s);
        assert(db[lo + (bits.len() - 1)].len() <= s);
    }
}

/// A selected element's length bounds the selection fold from below.
pub proof fn lemma_sel_len_ge(db: Seq<Seq<u8>>, bits: Seq<bool>, lo: int, x: int)
    requires
        0 <= x < bits.len(),
        bits[x],
    ensures
        sel_xor(db, bits, lo).len() >= db[lo + x].len(),
    decreases bits.len(),
{
    if x < bits.len() - 1 {
        lemma_sel_len_ge(db, bits.drop_last(), lo, x);
    }
}

/// Selection folds agree when the databases agree on the selected window.
pub proof fn lemma_sel_congr(db1: Seq<Seq<u8>>, db2: Seq<Seq<u8>>, bits: Seq<bool>, lo1: int, lo2: int)
    requires
        forall|x: int| 0 <= x < bits.len() ==> #[trigger] db1[lo1 + x] == db2[lo2 + x],
    ensures
        sel_xor(db1, bits, lo1) == sel_xor(db2, bits, lo2),
    decreases bits.len(),
{
    if bits.len() > 0 {
        lemma_sel_congr(db1, db2, bits.drop_last(), lo1, lo2);
        assert(db1[lo1 + (bits.len() - 1)] == db2[lo2 + (bits.len() - 1)]);
    }
}

/// A selection fold splits at a concatenation of the bit sequence.
pub proof fn lemma_sel_split(db: Seq<Seq<u8>>, u: Seq<bool>, v: Seq<bool>, lo: int)
    ensures
        sel_xor(db, u + v, lo) == bxor(sel_xor(db, u, lo), sel_xor(db, v, lo + u.len())),
    decreases v.len(),
{
    if v.len() == 0 {
        assert(u + v =~= u);
        lemma_bxor_empty_right(sel_xor(db, u, lo));
    } else {
        assert((u + v).drop_last() =~= u + v.drop_last());
        lemma_sel_split(db, u, v.drop_last(), lo);
        let t = if v.last() {
            db[lo + u.len() + v.len() - 1]
        } else {
            Seq::<u8>::empty()
        };
        lemma_bxor_assoc(sel_xor(db, u, lo), sel_xor(db, v.drop_last(), lo + u.len()), t);
    }
}

pub proof fn lemma_sel_false(db: Seq<Seq<u8>>, bits: Seq<bool>, lo: int)
    requires
        forall|x: int| 0 <= x < bits.len() ==> !bits[x],
    ensures
        sel_xor(db, bits, lo) == Seq::<u8>::empty(),
    decreases bits.len(),
{
    if bits.len() > 0 {
        lemma_sel_false(db, bits.drop_last(), lo);
        assert(!bits[bits.len() - 1]);
        lemma_bxor_empty_right(Seq::<u8>::empty());
        assert(bxor(Seq::<u8>::empty(), Seq::<u8>::empty()) =~= Seq::<u8>::empty());
    }
}

/// Selecting exactly one position yields that element.
pub proof fn lemma_sel_unit(db: Seq<Seq<u8>>, bits: Seq<bool>, lo: int, x: int)
    requires
        0 <= x < bits.len(),
        forall|y: int| 0 <= y < bits.len() ==> (bits[y] <==> y == x),
    ensures
        sel_xor(db, bits, lo) == db[lo + x],
    decreases bits.len(),
{
    if x == bits.len() - 1 {
        lemma_sel_false(db, bits.drop_last(), lo);
        lemma_bxor_empty_left(db[lo + x]);
    } else {
        assert(!bits[bits.len() - 1]);
        lemma_sel_unit(db, bits.drop_last(), lo, x);
        lemma_bxor_empty_right(sel_xor(db, bits.drop_last(), lo));
    }
}

pub proof fn lemma_u8_xor_shuffle(a: u8, b: u8)
    by (bit_vector)
    ensures
        a ^ (b ^ a) == b,
{
}

/// Selecting by the exclusive or of two bit sequences gives, byte for byte,
/// the exclusive or of the two selections.
pub proof fn lemma_bat_sel_xorbits(db: Seq<Seq<u8>>, b1: Seq<bool>, b2: Seq<bool>, lo: int, j: int)
    requires
        b1.len() == b2.len(),
    ensures
        bat(sel_xor(db, bitxor_bits(b1, b2), lo), j) == bat(sel_xor(db, b1, lo), j) ^ bat(
            sel_xor(db, b2, lo),
            j,
        ),
{
    let xb = bitxor_bits(b1, b2);
    let n = b1.len() as int;
    let f1 = |x: int| if b1[x] { bat(db[lo + x], j) } else { 0 };
    let f2 = |x: int| if b2[x] { bat(db[lo + x], j) } else { 0 };
    let f12 = |x: int| if xb[x] { bat(db[lo + x], j) } else { 0 };
    lemma_bat_sel(db, xb, lo, j);
    lemma_bat_sel(db, b1, lo, j);
    lemma_bat_sel(db, b2, lo, j);
    assert forall|x: int| 0 <= x < n implies #[trigger] f12(x) == f1(x) ^ f2(x) by {
        lemma_u8_xor_self(bat(db[lo + x], j));
        lemma_u8_xor_zero(bat(db[lo + x], j));
        lemma_u8_xor_zero(0);
    }
    lemma_xsum_add(0, n, f1, f2, f12);
}

/// A selection over `cnt` chunks of width `w` is, byte for byte, the
/// exclusive-or sum of the per-chunk selections.
pub proof fn lemma_bat_sel_chunks(
    db: Seq<Seq<u8>>,
    bits: Seq<bool>,
    lo: int,
    w: int,
    cnt: int,
    j: int,
)
    requires
        0 <= w,
        0 <= cnt,
        bits.len() == cnt * w,
    ensures
        bat(sel_xor(db, bits, lo), j) == xsum(
            0,
            cnt,
            |x: int| bat(sel_xor(db, bits.subrange(x * w, (x + 1) * w), lo + x * w), j),
        ),
    decreases cnt,
{
    let f = |x: int| bat(sel_xor(db, bits.subrange(x * w, (x + 1) * w), lo + x * w), j);
    if cnt == 0 {
        assert(bits.len() == 0) by {
            vstd::arithmetic::mul::lemma_mul_by_zero_is_zero(w);
        }
        assert(bits =~= Seq::<bool>::empty());
    } else {
        assert((cnt - 1) * w + w == cnt * w) by {
            vstd::arithmetic::mul::lemma_mul_is_distributive_sub(w, cnt, 1);
            vstd::arithmetic::mul::lemma_mul_is_commutative(w, cnt);
            vstd::arithmetic::mul::lemma_mul_is_commutative(w, cnt - 1);
        }
        assert(0 <= (cnt - 1) * w) by {
            vstd::arithmetic::mul::lemma_mul_nonnegative(cnt - 1, w);
        }
        let pre = bits.take((cnt - 1) * w);
        let lastc = bits.subrange((cnt - 1) * w, cnt * w);
        assert(pre + lastc =~= bits);
        lemma_sel_split(db, pre, lastc, lo);
        lemma_bat_bxor(sel_xor(db, pre, lo), sel_xor(db, lastc, lo + (cnt - 1) * w), j);
        lemma_bat_sel_chunks(db, pre, lo, w, cnt - 1, j);
        let g = |x: int| bat(sel_xor(db, pre.subrange(x * w, (x + 1) * w), lo + x * w), j);
        assert forall|x: int| 0 <= x < cnt - 1 implies #[trigger] g(x) == f(x) by {
            assert(0 <= x * w) by {
                vstd::arithmetic::mul::lemma_mul_nonnegative(x, w);
            }
            assert((x + 1) * w <= (cnt - 1) * w) by {
                vstd::arithmetic::mul::lemma_mul_inequality(x + 1, cnt - 1, w);
            }
            assert(x * w <= (x + 1) * w) by {
                vstd::arithmetic::mul::lemma_mul_inequality(x, x + 1, w);
            }
            assert(pre.subrange(x * w, (x + 1) * w) =~= bits.subrange(x * w, (x + 1) * w));
        }
        lemma_xsum_congruence(0, cnt - 1, g, f);
        assert(f(cnt - 1) == bat(sel_xor(db, lastc, lo + (cnt - 1) * w), j));
    }
}

/// Each byte of a selection fold is the exclusive-or sum of the selected bytes.
pub proof fn lemma_bat_sel(db: Seq<Seq<u8>>, bits: Seq<bool>, lo: int, j: int)
    ensures
        bat(sel_xor(db, bits, lo), j) == xsum(
            0,
            bits.len() as int,
            |x: int| if bits[x] { bat(db[lo + x], j) } else { 0 },
        ),
    decreases bits.len(),
{
    let f = |x: int| if bits[x] { bat(db[lo + x], j) } else { 0 };
    if bits.len() == 0 {
    } else {
        let n = bits.len() - 1;
        lemma_bat_sel(db, bits.drop_last(), lo, j);
        let fd = |x: int| if bits.drop_last()[x] { bat(db[lo + x], j) } else { 0 };
        lemma_xsum_congruence(0, n, fd, f);
        let t = if bits.last() {
            db[lo + n]
        } else {
            Seq::<u8>::empty()
        };
        lemma_bat_bxor(sel_xor(db, bits.drop_last(), lo), t, j);
        assert(bat(t, j) == f(n));
    }
}

} // verus!
