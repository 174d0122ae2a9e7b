//! The protocol's mathematical model.
//!
//! Spec functions give the exact value of every message: the padded and
//! rotated database a server holds, the mask bits a seed expands to, the
//! query bitstrings the client builds, the partial and full answers a server
//! computes, and the client's combining fold.  The correctness lemma proves
//! that the fold of all honest responses is the requested element.

use vstd::prelude::*;

use crate::util::expand_bits;
use crate::xorseq::{bat, bitxor_bits, bxor, sel_xor, xsum};
use crate::xorseq::{
    lemma_bat_bxor, lemma_bat_sel_chunks, lemma_bat_sel_xorbits, lemma_bxor_len, lemma_sel_congr,
    lemma_sel_false, lemma_sel_len_ge, lemma_sel_len_le, lemma_sel_unit, lemma_u8_xor_assoc,
    lemma_u8_xor_self, lemma_u8_xor_shuffle, lemma_u8_xor_zero, lemma_xsum_add,
    lemma_xsum_congruence, lemma_xsum_rotate, lemma_xsum_shift, lemma_xsum_single,
    lemma_xsum_swap,
};
use vstd::arithmetic::div_mod::{
    lemma_fundamental_div_mod, lemma_fundamental_div_mod_converse, lemma_mod_bound,
    lemma_mod_multiples_basic,
};
use vstd::arithmetic::mul::{
    lemma_mul_inequality, lemma_mul_is_associative, lemma_mul_is_commutative,
    lemma_mul_is_distributive_add, lemma_mul_is_distributive_add_other_way,
    lemma_mul_is_distributive_sub, lemma_mul_is_distributive_sub_other_way,
    lemma_mul_nonnegative, lemma_mul_strictly_positive,
};

verus! {

/// `n` rounded up to the next multiple of `k * 8`.
pub open spec fn padded_len(n: int, k: int) -> int {
    if n % (k * 8) == 0 {
        n
    } else {
        n + k * 8 - n % (k * 8)
    }
}

/// `db` extended with zero elements to `padded_len(db.len(), k)`.
pub open spec fn pad_db(db: Seq<Seq<u8>>, k: int, zv: Seq<u8>) -> Seq<Seq<u8>> {
    db + Seq::new((padded_len(db.len() as int, k) - db.len()) as nat, |x: int| zv)
}

/// `db` rotated left by `off` positions.
pub open spec fn rot_db(db: Seq<Seq<u8>>, off: int) -> Seq<Seq<u8>> {
    Seq::new(db.len(), |x: int| db[(x + off) % (db.len() as int)])
}

/// The padded database as the server with identity `id` stores it: its own
/// chunk of `padded_len / k` elements rotated to the front.
pub open spec fn server_db(db: Seq<Seq<u8>>, zv: Seq<u8>, k: int, id: int) -> Seq<Seq<u8>> {
    rot_db(pad_db(db, k, zv), id * (padded_len(db.len() as int, k) / k))
}

/// The mask bits a seed expands to: one chunk of `m` bits for each of the
/// `red - 1` foreign chunks the server covers.
pub open spec fn mask_bits(seed: u64, m: int, red: int) -> Seq<bool> {
    expand_bits(seed, m * (red - 1))
}

/// Mask chunk `j` (numbered from 1): bits `[(j-1)*m, j*m)` of the mask.
pub open spec fn mask_chunk(seed: u64, m: int, red: int, j: int) -> Seq<bool> {
    mask_bits(seed, m, red).subrange((j - 1) * m, j * m)
}

/// Chunk `c` of the plain query: bit `x` set exactly when `c*m + x` is the
/// target index `i`.
pub open spec fn unit_chunk(m: int, c: int, i: int) -> Seq<bool> {
    Seq::new(m as nat, |x: int| c * m + x == i)
}

/// The query bitstring for server `c` after the masks numbered below `jj`
/// have been folded in.
pub open spec fn query_bits_rec(
    m: int,
    k: int,
    red: int,
    i: int,
    seeds: Seq<u64>,
    c: int,
    jj: int,
) -> Seq<bool>
    decreases jj,
{
    if jj <= 1 {
        unit_chunk(m, c, i)
    } else {
        bitxor_bits(
            query_bits_rec(m, k, red, i, seeds, c, jj - 1),
            mask_chunk(seeds[(c + k - (jj - 1)) % k], m, red, jj - 1),
        )
    }
}

/// The query bitstring the client sends to server `c`.
pub open spec fn query_bits(m: int, k: int, red: int, i: int, seeds: Seq<u64>, c: int) -> Seq<
    bool,
> {
    query_bits_rec(m, k, red, i, seeds, c, red)
}

/// The partial answer a server precomputes for a seed: the zero element
/// exclusive-ored with the mask's selection of the foreign chunks.
pub open spec fn partial_vw(db: Seq<Seq<u8>>, m: int, red: int, zv: Seq<u8>, seed: u64) -> Seq<
    u8,
> {
    bxor(zv, sel_xor(db, mask_bits(seed, m, red), m))
}

/// The response to query `q` under `seed`: the partial answer exclusive-ored
/// with the query's selection of the server's own chunk.
pub open spec fn response_vw(
    db: Seq<Seq<u8>>,
    m: int,
    red: int,
    zv: Seq<u8>,
    seed: u64,
    q: Seq<bool>,
) -> Seq<u8> {
    bxor(partial_vw(db, m, red, zv, seed), sel_xor(db, q, 0))
}

/// The fold the client computes over the responses, first to last.
pub open spec fn combine_vw(vws: Seq<Seq<u8>>) -> Seq<u8>
    decreases vws.len(),
{
    if vws.len() == 0 {
        Seq::empty()
    } else if vws.len() == 1 {
        vws[0]
    } else {
        bxor(combine_vw(vws.drop_last()), vws.last())
    }
}

/// Facts about the padded length: it is the least multiple of `k * 8` at or
/// above `n`, and each server's share `padded_len / k` is a whole number of
/// bytes.
pub proof fn lemma_padded_len(n: int, k: int)
    requires
        0 <= n,
        1 <= k,
    ensures
        n <= padded_len(n, k) < n + k * 8,
        padded_len(n, k) % (k * 8) == 0,
        padded_len(n, k) == k * (padded_len(n, k) / k),
        0 <= padded_len(n, k) / k,
        (padded_len(n, k) / k) % 8 == 0,
{
    let t = k * 8;
    lemma_mul_strictly_positive(k, 8);
    lemma_mod_bound(n, t);
    lemma_fundamental_div_mod(n, t);
    let q = n / t;
    let pl = padded_len(n, k);
    if n % t == 0 {
        assert(pl == t * q);
    } else {
        assert(pl == t * q + t);
        assert(pl == t * (q + 1)) by {
            lemma_mul_is_distributive_add(t, q, 1);
        }
    }
    let qq = if n % t == 0 {
        q
    } else {
        q + 1
    };
    assert(pl == t * qq);
    lemma_mod_multiples_basic(qq, t);
    assert(pl % t == 0);
    assert(pl == k * (8 * qq)) by {
        lemma_mul_is_associative(k, 8, qq);
    }
    assert(0 <= 8 * qq) by {
        lemma_mul_nonnegative(8, qq);
    }
    lemma_fundamental_div_mod_converse(pl, k, 8 * qq, 0);
    assert(pl / k == 8 * qq);
    lemma_mod_multiples_basic(qq, 8);
    lemma_mul_is_commutative(8, qq);
}

/// Each byte of the combining fold is the exclusive-or sum of that byte over
/// all responses.
proof fn lemma_combine_bat(vws: Seq<Seq<u8>>, j: int)
    ensures
        bat(combine_vw(vws), j) == xsum(0, vws.len() as int, |t: int| bat(vws[t], j)),
    decreases vws.len(),
{
    let f = |t: int| bat(vws[t], j);
    if vws.len() == 0 {
        assert(xsum(0, 0, f) == 0);
    } else if vws.len() == 1 {
        assert(xsum(0, 0, f) == 0);
        assert(xsum(0, 1, f) == 0 ^ f(0));
        lemma_u8_xor_zero(f(0));
    } else {
        lemma_combine_bat(vws.drop_last(), j);
        let fd = |t: int| bat(vws.drop_last()[t], j);
        lemma_xsum_congruence(0, vws.len() - 1, fd, f);
        lemma_bat_bxor(combine_vw(vws.drop_last()), vws.last(), j);
        assert(xsum(0, vws.len() as int, f) == xsum(0, vws.len() - 1, f) ^ f(vws.len() - 1));
    }
}

proof fn lemma_combine_len_le(vws: Seq<Seq<u8>>, s: int)
    requires
        0 <= s,
        forall|t: int| 0 <= t < vws.len() ==> (#[trigger] vws[t]).len() <= s,
    ensures
        combine_vw(vws).len() <= s,
    decreases vws.len(),
{
    if vws.len() > 1 {
        lemma_combine_len_le(vws.drop_last(), s);
        lemma_bxor_len(combine_vw(vws.drop_last()), vws.last());
    }
}

proof fn lemma_combine_len_ge(vws: Seq<Seq<u8>>, t0: int)
    requires
        0 <= t0 < vws.len(),
    ensures
        combine_vw(vws).len() >= vws[t0].len(),
    decreases vws.len(),
{
    if vws.len() > 1 {
        if t0 < vws.len() - 1 {
            lemma_combine_len_ge(vws.drop_last(), t0);
        }
        lemma_bxor_len(combine_vw(vws.drop_last()), vws.last());
    }
}

/// Position `c*m + x` of a database rotated by `t*m` chunks is position
/// `((t+c) % k)*m + x` of the unrotated database.
proof fn lemma_rot_chunk_index(db: Seq<Seq<u8>>, k: int, m: int, t: int, c: int, x: int)
    requires
        0 <= t < k,
        0 <= c < k,
        0 <= x < m,
        db.len() == k * m,
    ensures
        0 <= c * m + x < db.len(),
        0 <= ((t + c) % k) * m + x < db.len(),
        rot_db(db, t * m)[c * m + x] == db[((t + c) % k) * m + x],
{
    let w = (t + c) % k;
    lemma_mod_bound(t + c, k);
    let q = (t + c) / k;
    lemma_fundamental_div_mod(t + c, k);
    assert(t + c == k * q + w);
    assert(0 <= q) by {
        if q < 0 {
            assert(k * q <= k * -1) by {
                lemma_mul_inequality(q, -1, k);
                lemma_mul_is_commutative(q, k);
                lemma_mul_is_commutative(-1, k);
            }
        }
    }
    assert(c * m + x < k * m) by {
        lemma_mul_inequality(c + 1, k, m);
        lemma_mul_is_distributive_add(m, c, 1);
        lemma_mul_is_commutative(m, c + 1);
        lemma_mul_is_commutative(m, c);
        lemma_mul_is_commutative(m, k);
    }
    assert(0 <= c * m) by {
        lemma_mul_nonnegative(c, m);
    }
    assert(w * m + x < k * m) by {
        lemma_mul_inequality(w + 1, k, m);
        lemma_mul_is_distributive_add(m, w, 1);
        lemma_mul_is_commutative(m, w + 1);
        lemma_mul_is_commutative(m, w);
        lemma_mul_is_commutative(m, k);
    }
    assert(0 <= w * m) by {
        lemma_mul_nonnegative(w, m);
    }
    // (c*m + x + t*m) == q*(k*m) + (w*m + x)
    assert((t + c) * m == (k * q) * m + w * m) by {
        lemma_mul_is_distributive_add_other_way(m, k * q, w);
    }
    assert((t + c) * m == t * m + c * m) by {
        lemma_mul_is_distributive_add_other_way(m, t, c);
    }
    assert((k * q) * m == q * (k * m)) by {
        lemma_mul_is_associative(k, q, m);
        lemma_mul_is_commutative(k, q);
        lemma_mul_is_associative(q, k, m);
    }
    lemma_fundamental_div_mod_converse(c * m + x + t * m, k * m, q, w * m + x);
    assert((c * m + x + t * m) % (k * m) == w * m + x);
}

/// The query bitstring always holds one chunk of `m` bits.
proof fn lemma_qc_len(m: int, k: int, red: int, i: int, seeds: Seq<u64>, c: int, jj: int)
    requires
        0 <= m,
    ensures
        query_bits_rec(m, k, red, i, seeds, c, jj).len() == m,
    decreases jj,
{
    if jj > 1 {
        lemma_qc_len(m, k, red, i, seeds, c, jj - 1);
    }
}

/// Mask chunk `jj` sits at bits `[(jj-1)*m, jj*m)` of the expanded mask.
proof fn lemma_mask_chunk_index(seed: u64, m: int, red: int, jj: int)
    requires
        0 <= m,
        1 <= jj <= red - 1,
    ensures
        mask_chunk(seed, m, red, jj).len() == m,
        forall|x: int|
            0 <= x < m ==> mask_chunk(seed, m, red, jj)[x] == mask_bits(seed, m, red)[(jj - 1) * m
                + x],
{
    assert(0 <= (jj - 1) * m) by {
        lemma_mul_nonnegative(jj - 1, m);
    }
    assert(jj * m <= (red - 1) * m) by {
        lemma_mul_inequality(jj, red - 1, m);
    }
    assert((jj - 1) * m + m == jj * m) by {
        lemma_mul_is_distributive_sub_other_way(m, jj, 1);
    }
    assert(mask_bits(seed, m, red).len() == m * (red - 1));
    lemma_mul_is_commutative(m, red - 1);
}

/// Where the sent query differs from the plain single-bit query, some mask
/// chunk set that bit.
proof fn lemma_query_bit_witness(
    m: int,
    k: int,
    red: int,
    i: int,
    seeds: Seq<u64>,
    c: int,
    jj: int,
    x: int,
)
    requires
        0 <= m,
        0 <= x < m,
        query_bits_rec(m, k, red, i, seeds, c, jj)[x] != unit_chunk(m, c, i)[x],
    ensures
        exists|g: int|
            1 <= g < jj && #[trigger] mask_chunk(seeds[(c + k - g) % k], m, red, g)[x],
    decreases jj,
{
    if jj <= 1 {
        assert(false);
    } else {
        lemma_qc_len(m, k, red, i, seeds, c, jj - 1);
        if mask_chunk(seeds[(c + k - (jj - 1)) % k], m, red, jj - 1)[x] {
            assert(1 <= jj - 1 < jj && mask_chunk(
                seeds[(c + k - (jj - 1)) % k],
                m,
                red,
                jj - 1,
            )[x]);
        } else {
            assert(query_bits_rec(m, k, red, i, seeds, c, jj - 1)[x] != unit_chunk(m, c, i)[x]);
            lemma_query_bit_witness(m, k, red, i, seeds, c, jj - 1, x);
            let g = choose|g: int|
                1 <= g < jj - 1 && #[trigger] mask_chunk(seeds[(c + k - g) % k], m, red, g)[x];
            assert(1 <= g < jj && mask_chunk(seeds[(c + k - g) % k], m, red, g)[x]);
        }
    }
}

/// Byte `j` of the selection that mask chunk `jj` of server `t`'s seed makes
/// from the chunk of the unrotated database it covers.
spec fn f_term(
    padv: Seq<Seq<u8>>,
    seeds: Seq<u64>,
    m: int,
    k: int,
    red: int,
    j: int,
    t: int,
    jj: int,
) -> u8 {
    bat(sel_xor(padv, mask_chunk(seeds[t], m, red, jj), ((t + jj) % k) * m), j)
}

/// Byte `j` of the selection that the mask chunk folded into server `t`'s
/// query makes from chunk `t` of the unrotated database.
spec fn h_term(
    padv: Seq<Seq<u8>>,
    seeds: Seq<u64>,
    m: int,
    k: int,
    red: int,
    j: int,
    t: int,
    jj: int,
) -> u8 {
    bat(sel_xor(padv, mask_chunk(seeds[(t + k - jj) % k], m, red, jj), t * m), j)
}

/// Byte `j` of the selection the plain single-bit query chunk makes.
spec fn u_term(padv: Seq<Seq<u8>>, m: int, i: int, j: int, t: int) -> u8 {
    bat(sel_xor(padv, unit_chunk(m, t, i), t * m), j)
}

/// Each mask term a server folds into its query is a mask term some other
/// server precomputed, read at the chunk it covers.
proof fn lemma_h_is_f(
    padv: Seq<Seq<u8>>,
    seeds: Seq<u64>,
    m: int,
    k: int,
    red: int,
    j: int,
    t: int,
    jj: int,
)
    requires
        0 <= t < k,
        0 < jj <= k,
    ensures
        h_term(padv, seeds, m, k, red, j, t, jj) == f_term(
            padv,
            seeds,
            m,
            k,
            red,
            j,
            (t + k - jj) % k,
            jj,
        ),
{
    lemma_mod_cycle(k, t, jj);
}

/// Byte `j` of a server's precomputed foreign selection, split into the
/// `red - 1` chunk terms over the unrotated database.
proof fn lemma_foreign_chunks(
    padv: Seq<Seq<u8>>,
    seeds: Seq<u64>,
    m: int,
    k: int,
    red: int,
    j: int,
    t: int,
)
    requires
        2 <= red <= k,
        0 <= m,
        padv.len() == k * m,
        0 <= t < k,
    ensures
        bat(sel_xor(rot_db(padv, t * m), mask_bits(seeds[t], m, red), m), j) == xsum(
            1,
            red,
            |jj: int| f_term(padv, seeds, m, k, red, j, t, jj),
        ),
{
    let dbl = rot_db(padv, t * m);
    let bits = mask_bits(seeds[t], m, red);
    assert(bits.len() == (red - 1) * m) by {
        lemma_mul_is_commutative(m, red - 1);
    }
    lemma_bat_sel_chunks(dbl, bits, m, m, red - 1, j);
    let g = |x: int| bat(sel_xor(dbl, bits.subrange(x * m, (x + 1) * m), m + x * m), j);
    let f = |jj: int| f_term(padv, seeds, m, k, red, j, t, jj);
    assert forall|x: int| 0 <= x < red - 1 implies #[trigger] g(x) == f(x + 1) by {
        let c = x + 1;
        lemma_mask_chunk_index(seeds[t], m, red, c);
        let chunkbits = mask_chunk(seeds[t], m, red, c);
        assert(bits.subrange(x * m, c * m) == chunkbits);
        assert(m + x * m == c * m) by {
            lemma_mul_is_distributive_add_other_way(m, x, 1);
        }
        assert forall|y: int| 0 <= y < chunkbits.len() implies #[trigger] dbl[c * m + y] == padv[((
        t + c) % k) * m + y] by {
            lemma_rot_chunk_index(padv, k, m, t, c, y);
        }
        lemma_sel_congr(dbl, padv, chunkbits, c * m, ((t + c) % k) * m);
    }
    lemma_xsum_shift(0, red - 1, 1, g, f);
}

/// Byte `j` of a server's own-chunk selection under the sent query: the
/// plain single-bit term and the `red - 1` mask terms folded in transit.
proof fn lemma_own_chunk_rec(
    padv: Seq<Seq<u8>>,
    seeds: Seq<u64>,
    m: int,
    k: int,
    red: int,
    i: int,
    j: int,
    t: int,
    jj: int,
)
    requires
        2 <= red <= k,
        0 <= m,
        1 <= jj <= red,
    ensures
        bat(sel_xor(padv, query_bits_rec(m, k, red, i, seeds, t, jj), t * m), j) == u_term(
            padv,
            m,
            i,
            j,
            t,
        ) ^ xsum(1, jj, |g: int| h_term(padv, seeds, m, k, red, j, t, g)),
    decreases jj,
{
    let h = |g: int| h_term(padv, seeds, m, k, red, j, t, g);
    if jj == 1 {
        assert(xsum(1, 1, h) == 0);
        lemma_u8_xor_zero(u_term(padv, m, i, j, t));
    } else {
        lemma_own_chunk_rec(padv, seeds, m, k, red, i, j, t, jj - 1);
        lemma_qc_len(m, k, red, i, seeds, t, jj - 1);
        lemma_mask_chunk_index(seeds[(t + k - (jj - 1)) % k], m, red, jj - 1);
        let chunkbits = mask_chunk(seeds[(t + k - (jj - 1)) % k], m, red, jj - 1);
        lemma_bat_sel_xorbits(
            padv,
            query_bits_rec(m, k, red, i, seeds, t, jj - 1),
            chunkbits,
            t * m,
            j,
        );
        assert(bat(sel_xor(padv, chunkbits, t * m), j) == h(jj - 1));
        lemma_u8_xor_assoc(u_term(padv, m, i, j, t), xsum(1, jj - 1, h), h(jj - 1));
        assert(xsum(1, jj, h) == xsum(1, jj - 1, h) ^ h(jj - 1));
    }
}

/// Summed over all servers, the mask terms folded into the queries equal the
/// mask terms the servers precomputed: they pair up one to one.
proof fn lemma_mask_sums_equal(
    padv: Seq<Seq<u8>>,
    seeds: Seq<u64>,
    m: int,
    k: int,
    red: int,
    j: int,
)
    requires
        2 <= red <= k,
    ensures
        xsum(0, k, |t: int| xsum(1, red, |jj: int| h_term(padv, seeds, m, k, red, j, t, jj)))
            == xsum(0, k, |t: int| xsum(1, red, |jj: int| f_term(padv, seeds, m, k, red, j, t, jj))),
{
    let b = red - 1;
    let h2 = |t: int, x: int| h_term(padv, seeds, m, k, red, j, t, x + 1);
    let f2 = |t: int, x: int| f_term(padv, seeds, m, k, red, j, t, x + 1);
    let hsum = |t: int| xsum(1, red, |jj: int| h_term(padv, seeds, m, k, red, j, t, jj));
    let fsum = |t: int| xsum(1, red, |jj: int| f_term(padv, seeds, m, k, red, j, t, jj));
    let hsum2 = |t: int| xsum(0, b, |x: int| h2(t, x));
    let fsum2 = |t: int| xsum(0, b, |x: int| f2(t, x));
    // Reindex the inner sums to start at zero.
    assert forall|t: int| 0 <= t < k implies #[trigger] hsum(t) == hsum2(t) by {
        lemma_xsum_shift(
            0,
            b,
            1,
            |x: int| h2(t, x),
            |jj: int| h_term(padv, seeds, m, k, red, j, t, jj),
        );
    }
    assert forall|t: int| 0 <= t < k implies #[trigger] fsum(t) == fsum2(t) by {
        lemma_xsum_shift(
            0,
            b,
            1,
            |x: int| f2(t, x),
            |jj: int| f_term(padv, seeds, m, k, red, j, t, jj),
        );
    }
    lemma_xsum_congruence(0, k, hsum, hsum2);
    lemma_xsum_congruence(0, k, fsum, fsum2);
    // Exchange the summation order.
    lemma_xsum_swap(k, b, h2);
    lemma_xsum_swap(k, b, f2);
    // For each chunk number, the sources are a cyclic shift of the targets.
    let hcol = |x: int| xsum(0, k, |t: int| h2(t, x));
    let fcol = |x: int| xsum(0, k, |t: int| f2(t, x));
    assert forall|x: int| 0 <= x < b implies #[trigger] hcol(x) == fcol(x) by {
        let jj = x + 1;
        let d = k - jj;
        let g = |u: int| f2(u, x);
        assert forall|t: int| 0 <= t < k implies #[trigger] h2(t, x) == g((t + d) % k) by {
            lemma_h_is_f(padv, seeds, m, k, red, j, t, jj);
            assert((t + k - jj) % k == (t + d) % k);
        }
        lemma_xsum_congruence(0, k, |t: int| h2(t, x), |t: int| g((t + d) % k));
        lemma_xsum_rotate(k, d, g);
    }
    lemma_xsum_congruence(0, b, hcol, fcol);
    assert(xsum(0, k, hsum2) == xsum(0, b, hcol));
    assert(xsum(0, k, fsum2) == xsum(0, b, fcol));
}

/// Summed over all servers, the plain single-bit terms leave exactly the
/// requested element's byte.
proof fn lemma_unit_sum(
    padv: Seq<Seq<u8>>,
    db: Seq<Seq<u8>>,
    m: int,
    k: int,
    i: int,
    j: int,
)
    requires
        1 <= k,
        0 < m,
        padv.len() == k * m,
        0 <= i < db.len() <= padv.len(),
        forall|p: int| 0 <= p < db.len() ==> padv[p] == db[p],
    ensures
        xsum(0, k, |t: int| u_term(padv, m, i, j, t)) == bat(db[i], j),
{
    let u = |t: int| u_term(padv, m, i, j, t);
    let ci = i / m;
    let xi = i % m;
    lemma_fundamental_div_mod(i, m);
    lemma_mod_bound(i, m);
    assert(0 <= ci) by {
        vstd::arithmetic::div_mod::lemma_div_pos_is_pos(i, m);
    }
    assert(ci < k) by {
        if ci >= k {
            assert(m * ci >= m * k) by {
                lemma_mul_inequality(k, ci, m);
                lemma_mul_is_commutative(m, k);
                lemma_mul_is_commutative(m, ci);
            }
            lemma_mul_is_commutative(m, k);
        }
    }
    assert forall|t: int| 0 <= t < k && t != ci implies #[trigger] u(t) == 0 by {
        let bits = unit_chunk(m, t, i);
        assert forall|x: int| 0 <= x < bits.len() implies !bits[x] by {
            if t * m + x == i {
                lemma_fundamental_div_mod_converse(i, m, t, x);
                lemma_mul_is_commutative(t, m);
            }
        }
        lemma_sel_false(padv, bits, t * m);
    }
    let bits = unit_chunk(m, ci, i);
    assert forall|y: int| 0 <= y < bits.len() implies (bits[y] <==> y == xi) by {
        lemma_mul_is_commutative(ci, m);
    }
    lemma_sel_unit(padv, bits, ci * m, xi);
    assert(ci * m + xi == i) by {
        lemma_mul_is_commutative(ci, m);
    }
    assert(u(ci) == bat(padv[i], j));
    lemma_xsum_single(0, k, u, ci);
}

/// The views of the `k` honest responses to a query for index `i` under the
/// given seeds, one per server.
pub open spec fn resp_views(
    db: Seq<Seq<u8>>,
    zv: Seq<u8>,
    k: int,
    red: int,
    i: int,
    seeds: Seq<u64>,
) -> Seq<Seq<u8>> {
    Seq::new(
        k as nat,
        |t: int|
            response_vw(
                server_db(db, zv, k, t),
                padded_len(db.len() as int, k) / k,
                red,
                zv,
                seeds[t],
                query_bits(padded_len(db.len() as int, k) / k, k, red, i, seeds, t),
            ),
    )
}

/// Byte for byte, the combined responses equal the requested element: every
/// mask term occurs exactly twice and cancels, every database position but
/// `i` is covered an even number of times.
proof fn lemma_combine_pointwise(
    db: Seq<Seq<u8>>,
    zv: Seq<u8>,
    k: int,
    red: int,
    i: int,
    seeds: Seq<u64>,
    j: int,
)
    requires
        2 <= red <= k,
        0 <= i < db.len(),
        seeds.len() == k,
        forall|y: int| 0 <= y < zv.len() ==> zv[y] == 0u8,
    ensures
        bat(combine_vw(resp_views(db, zv, k, red, i, seeds)), j) == bat(db[i], j),
{
    let n0 = db.len() as int;
    let pl = padded_len(n0, k);
    let m = pl / k;
    let padv = pad_db(db, k, zv);
    lemma_padded_len(n0, k);
    assert(padv.len() == k * m);
    assert(0 < m) by {
        if m <= 0 {
            assert(k * m <= 0) by {
                lemma_mul_inequality(m, 0, k);
                lemma_mul_is_commutative(m, k);
            }
        }
    }
    let vws = resp_views(db, zv, k, red, i, seeds);
    lemma_combine_bat(vws, j);
    let fsum = |t: int| xsum(1, red, |jj: int| f_term(padv, seeds, m, k, red, j, t, jj));
    let hsum = |t: int| xsum(1, red, |jj: int| h_term(padv, seeds, m, k, red, j, t, jj));
    let usum = |t: int| u_term(padv, m, i, j, t);
    let uh = |t: int| u_term(padv, m, i, j, t) ^ hsum(t);
    let term = |t: int| bat(vws[t], j);
    let term2 = |t: int| fsum(t) ^ uh(t);
    assert forall|t: int| 0 <= t < k implies #[trigger] term(t) == term2(t) by {
        let dbl = server_db(db, zv, k, t);
        assert(dbl == rot_db(padv, t * m));
        let q = query_bits(m, k, red, i, seeds, t);
        assert(vws[t] == response_vw(dbl, m, red, zv, seeds[t], q));
        lemma_bat_bxor(partial_vw(dbl, m, red, zv, seeds[t]), sel_xor(dbl, q, 0), j);
        lemma_bat_bxor(zv, sel_xor(dbl, mask_bits(seeds[t], m, red), m), j);
        assert(bat(zv, j) == 0);
        lemma_u8_xor_zero(bat(sel_xor(dbl, mask_bits(seeds[t], m, red), m), j));
        lemma_foreign_chunks(padv, seeds, m, k, red, j, t);
        lemma_qc_len(m, k, red, i, seeds, t, red);
        assert forall|y: int| 0 <= y < q.len() implies #[trigger] dbl[0 + y] == padv[t * m + y] by {
            lemma_rot_chunk_index(padv, k, m, t, 0, y);
            lemma_fundamental_div_mod_converse(t, k, 0, t);
        }
        lemma_sel_congr(dbl, padv, q, 0, t * m);
        lemma_own_chunk_rec(padv, seeds, m, k, red, i, j, t, red);
    }
    lemma_xsum_congruence(0, k, term, term2);
    lemma_xsum_add(0, k, fsum, uh, term2);
    lemma_xsum_add(0, k, usum, hsum, uh);
    lemma_mask_sums_equal(padv, seeds, m, k, red, j);
    assert forall|p: int| 0 <= p < n0 implies #[trigger] padv[p] == db[p] by {}
    lemma_unit_sum(padv, db, m, k, i, j);
    lemma_u8_xor_shuffle(xsum(0, k, fsum), bat(db[i], j));
}

/// The combined responses have exactly the common element length.
proof fn lemma_combine_length(
    db: Seq<Seq<u8>>,
    zv: Seq<u8>,
    s: int,
    k: int,
    red: int,
    i: int,
    seeds: Seq<u64>,
)
    requires
        2 <= red <= k,
        0 <= i < db.len(),
        seeds.len() == k,
        forall|p: int| 0 <= p < db.len() ==> (#[trigger] db[p]).len() == s,
        zv.len() <= s,
    ensures
        combine_vw(resp_views(db, zv, k, red, i, seeds)).len() == s,
{
    let n0 = db.len() as int;
    let pl = padded_len(n0, k);
    let m = pl / k;
    let padv = pad_db(db, k, zv);
    lemma_padded_len(n0, k);
    assert(padv.len() == k * m);
    assert(0 < m) by {
        if m <= 0 {
            assert(k * m <= 0) by {
                lemma_mul_inequality(m, 0, k);
                lemma_mul_is_commutative(m, k);
            }
        }
    }
    assert(0 <= s);
    let vws = resp_views(db, zv, k, red, i, seeds);
    assert forall|p: int| 0 <= p < padv.len() implies (#[trigger] padv[p]).len() <= s by {}
    // Every response is at most `s` bytes.
    assert forall|t: int| 0 <= t < k implies (#[trigger] vws[t]).len() <= s by {
        let dbl = rot_db(padv, t * m);
        let q = query_bits(m, k, red, i, seeds, t);
        lemma_qc_len(m, k, red, i, seeds, t, red);
        let bits = mask_bits(seeds[t], m, red);
        assert(bits.len() == m * (red - 1));
        assert(m + m * (red - 1) <= k * m) by {
            lemma_mul_is_distributive_sub(m, red, 1);
            lemma_mul_inequality(red, k, m);
            lemma_mul_is_commutative(m, red);
            lemma_mul_is_commutative(m, k);
        }
        assert forall|x: int| 0 <= x < bits.len() implies #[trigger] dbl[m + x].len() <= s by {
            lemma_mod_bound(m + x + t * m, k * m);
            lemma_mul_nonnegative(t, m);
        }
        lemma_sel_len_le(dbl, bits, m, s);
        assert forall|x: int| 0 <= x < q.len() implies #[trigger] dbl[0 + x].len() <= s by {
            lemma_mod_bound(x + t * m, k * m);
            lemma_mul_nonnegative(t, m);
        }
        lemma_sel_len_le(dbl, q, 0, s);
        lemma_bxor_len(zv, sel_xor(dbl, bits, m));
        lemma_bxor_len(partial_vw(dbl, m, red, zv, seeds[t]), sel_xor(dbl, q, 0));
        assert(vws[t] == response_vw(dbl, m, red, zv, seeds[t], q));
    }
    lemma_combine_len_le(vws, s);
    // Some response reaches the full element length: the requested element
    // is selected either by the query bit itself or by a mask bit under it.
    let ci = i / m;
    let xi = i % m;
    lemma_fundamental_div_mod(i, m);
    lemma_mod_bound(i, m);
    assert(0 <= ci) by {
        vstd::arithmetic::div_mod::lemma_div_pos_is_pos(i, m);
    }
    assert(ci < k) by {
        if ci >= k {
            assert(m * ci >= m * k) by {
                lemma_mul_inequality(k, ci, m);
                lemma_mul_is_commutative(m, k);
                lemma_mul_is_commutative(m, ci);
            }
            lemma_mul_is_commutative(m, k);
        }
    }
    assert(ci * m + xi == i) by {
        lemma_mul_is_commutative(ci, m);
    }
    let q = query_bits(m, k, red, i, seeds, ci);
    lemma_qc_len(m, k, red, i, seeds, ci, red);
    if q[xi] {
        let dbl = rot_db(padv, ci * m);
        lemma_sel_len_ge(dbl, q, 0, xi);
        lemma_rot_chunk_index(padv, k, m, ci, 0, xi);
        lemma_fundamental_div_mod_converse(ci, k, 0, ci);
        assert(dbl[0 + xi] == padv[i]);
        assert(padv[i] == db[i]);
        lemma_bxor_len(partial_vw(dbl, m, red, zv, seeds[ci]), sel_xor(dbl, q, 0));
        assert(vws[ci].len() >= s);
        lemma_combine_len_ge(vws, ci);
    } else {
        assert(unit_chunk(m, ci, i)[xi]);
        lemma_query_bit_witness(m, k, red, i, seeds, ci, red, xi);
        let g = choose|g: int|
            1 <= g < red && #[trigger] mask_chunk(seeds[(ci + k - g) % k], m, red, g)[xi];
        let tp = (ci + k - g) % k;
        lemma_mod_cycle(k, ci, g);
        let dbl = rot_db(padv, tp * m);
        lemma_mask_chunk_index(seeds[tp], m, red, g);
        let bits = mask_bits(seeds[tp], m, red);
        assert(bits[(g - 1) * m + xi]);
        assert(0 <= (g - 1) * m + xi < bits.len()) by {
            lemma_mul_nonnegative(g - 1, m);
            assert((g - 1) * m + m == g * m) by {
                lemma_mul_is_distributive_sub_other_way(m, g, 1);
            }
            assert(g * m <= (red - 1) * m) by {
                lemma_mul_inequality(g, red - 1, m);
            }
            lemma_mul_is_commutative(m, red - 1);
        }
        lemma_sel_len_ge(dbl, bits, m, (g - 1) * m + xi);
        assert(m + ((g - 1) * m + xi) == g * m + xi) by {
            lemma_mul_is_distributive_sub_other_way(m, g, 1);
        }
        lemma_rot_chunk_index(padv, k, m, tp, g, xi);
        assert(((tp + g) % k) == ci);
        assert(dbl[g * m + xi] == padv[ci * m + xi]);
        assert(padv[i] == db[i]);
        assert(sel_xor(dbl, bits, m).len() >= s);
        lemma_bxor_len(zv, sel_xor(dbl, bits, m));
        lemma_bxor_len(
            partial_vw(dbl, m, red, zv, seeds[tp]),
            sel_xor(dbl, query_bits(m, k, red, i, seeds, tp), 0),
        );
        assert(vws[tp] == response_vw(
            dbl,
            m,
            red,
            zv,
            seeds[tp],
            query_bits(m, k, red, i, seeds, tp),
        ));
        assert(vws[tp].len() >= s);
        lemma_combine_len_ge(vws, tp);
    }
}

/// Correctness of the whole protocol, for any shape.
///
/// For any database of `N` elements of a common byte length `s`, any
/// parameters `2 <= red <= k`, any target index and any seeds: the exclusive
/// or of the `k` honest responses — each computed by a server holding the
/// padded database rotated to its own chunk, answering the query bitstring
/// built for it — is exactly the requested element.  `zv` is the model of
/// the element type's zero value, all zero bytes and no longer than `s`;
/// padding is transparent because every padded position is covered an even
/// number of times.
pub proof fn lemma_protocol_correct(
    db: Seq<Seq<u8>>,
    zv: Seq<u8>,
    s: int,
    k: int,
    red: int,
    i: int,
    seeds: Seq<u64>,
)
    requires
        2 <= red <= k,
        0 <= i < db.len(),
        seeds.len() == k,
        forall|p: int| 0 <= p < db.len() ==> (#[trigger] db[p]).len() == s,
        zv.len() <= s,
        forall|y: int| 0 <= y < zv.len() ==> zv[y] == 0u8,
    ensures
        combine_vw(resp_views(db, zv, k, red, i, seeds)) == db[i],
{
    let total = combine_vw(resp_views(db, zv, k, red, i, seeds));
    lemma_combine_length(db, zv, s, k, red, i, seeds);
    assert forall|j: int| 0 <= j < total.len() implies total[j] == db[i][j] by {
        lemma_combine_pointwise(db, zv, k, red, i, seeds, j);
        assert(bat(total, j) == total[j]);
        assert(bat(db[i], j) == db[i][j]);
    }
    assert(total =~= db[i]);
}

/// Padding transparency: when the element count is not a multiple of
/// `k * 8`, the database is padded with zero elements, and the protocol
/// still yields `db[i]` for every real index — padded positions are covered
/// an even number of times and cancel.
pub proof fn lemma_padding_transparent(
    db: Seq<Seq<u8>>,
    zv: Seq<u8>,
    s: int,
    k: int,
    red: int,
    i: int,
    seeds: Seq<u64>,
)
    requires
        2 <= red <= k,
        0 <= i < db.len(),
        seeds.len() == k,
        db.len() as int % (k * 8) != 0,
        forall|p: int| 0 <= p < db.len() ==> (#[trigger] db[p]).len() == s,
        zv.len() <= s,
        forall|y: int| 0 <= y < zv.len() ==> zv[y] == 0u8,
    ensures
        combine_vw(resp_views(db, zv, k, red, i, seeds)) == db[i],
{
    lemma_protocol_correct(db, zv, s, k, red, i, seeds);
}

/// Combining replicas of the zero element yields the zero element.
pub proof fn lemma_combine_zero(zv: Seq<u8>, k: int)
    requires
        1 <= k,
        forall|y: int| 0 <= y < zv.len() ==> zv[y] == 0u8,
    ensures
        combine_vw(Seq::new(k as nat, |t: int| zv)) == zv,
    decreases k,
{
    let vws = Seq::new(k as nat, |t: int| zv);
    if k == 1 {
        assert(combine_vw(vws) == vws[0]);
    } else {
        assert(vws.drop_last() =~= Seq::new((k - 1) as nat, |t: int| zv));
        lemma_combine_zero(zv, k - 1);
        assert forall|y: int| 0 <= y < bxor(zv, zv).len() implies bxor(zv, zv)[y] == zv[y] by {
            lemma_u8_xor_self(zv[y]);
        }
        assert(bxor(zv, zv) =~= zv);
    }
}

/// Going `jj` chunks back from `c` and `jj` chunks forward again, cyclically,
/// returns to `c`.
proof fn lemma_mod_cycle(k: int, c: int, jj: int)
    requires
        0 <= c < k,
        0 < jj <= k,
    ensures
        0 <= (c + k - jj) % k < k,
        ((c + k - jj) % k + jj) % k == c,
{
    if c >= jj {
        lemma_fundamental_div_mod_converse(c + k - jj, k, 1, c - jj);
        lemma_fundamental_div_mod_converse(c - jj + jj, k, 0, c);
    } else {
        lemma_fundamental_div_mod_converse(c + k - jj, k, 0, c + k - jj);
        lemma_fundamental_div_mod_converse(c + k - jj + jj, k, 1, c);
    }
}

} // verus!
