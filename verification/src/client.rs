//! Methods for making RAID-PIR queries and combining the responses.

use vstd::prelude::*;

use crate::bits::BitString;
use crate::protocol::{combine_vw, mask_chunk, padded_len, query_bits, query_bits_rec, unit_chunk};
use crate::types::PirElement;
use crate::util::rand_bitvec;
use vstd::arithmetic::div_mod::{lemma_fundamental_div_mod, lemma_fundamental_div_mod_converse};
use vstd::arithmetic::mul::{
    lemma_mul_inequality, lemma_mul_is_associative, lemma_mul_is_commutative,
    lemma_mul_is_distributive_sub,
};

verus! {

/// RAID-PIR client.
///
/// Holds the replication parameters; builds the per-server query bitstrings
/// for a target index and combines the servers' responses.
pub struct RaidPirClient {
    /// Logical element count of the database.
    pub blocks: usize,
    /// `blocks` rounded up to the next multiple of `servers * 8`.
    pub blocks_padded: usize,
    /// The number of servers, `k`.
    pub servers: usize,
    /// The redundancy parameter, `r`.
    pub redundancy: usize,
}

impl RaidPirClient {
    /// The number of elements each server covers online.
    pub open spec fn bps(&self) -> int {
        self.blocks_padded as int / self.servers as int
    }

    pub open spec fn wf(&self) -> bool {
        &&& 2 <= self.redundancy <= self.servers
        &&& self.blocks_padded == padded_len(self.blocks as int, self.servers as int)
        &&& self.blocks <= self.blocks_padded
    }

    /// Create a new client object.
    pub fn new(blocks: usize, servers: usize, redundancy: usize) -> (r: Self)
        requires
            2 <= redundancy <= servers,
            blocks + servers * 8 <= usize::MAX,
        ensures
            r.wf(),
            r.blocks == blocks,
            r.servers == servers,
            r.redundancy == redundancy,
    {
        let t = servers * 8;
        let rem = blocks % t;
        let blocks_padded = if rem == 0 {
            blocks
        } else {
            blocks + (t - rem)
        };
        Self { blocks, blocks_padded, servers, redundancy }
    }

    /// Calculate the query bitstrings for the given index and seeds.
    ///
    /// The bitstring at position `c` of the result is meant for the server
    /// that vended `seeds[c]`.
    pub fn query(&self, index: usize, seeds: &Vec<u64>) -> (r: Vec<BitString>)
        requires
            self.wf(),
            index < self.blocks,
            seeds@.len() == self.servers,
        ensures
            r@.len() == self.servers,
            forall|c: int|
                0 <= c < self.servers ==> (#[trigger] r@[c]).wf() && r@[c].bit_len == self.bps()
                    && r@[c]@ == query_bits(
                    self.bps(),
                    self.servers as int,
                    self.redundancy as int,
                    index as int,
                    seeds@,
                    c,
                ),
    {
        let k = self.servers;
        let red = self.redundancy;
        let m = self.blocks_padded / k;
        let mb = m / 8;
        proof {
            crate::protocol::lemma_padded_len(self.blocks as int, k as int);
            assert(self.blocks_padded == k * m);
            assert(m % 8 == 0);
            lemma_fundamental_div_mod(m as int, 8);
            assert(m == 8 * mb);
            if m > 0 {
            } else {
                assert(k * m == 0) by {
                    lemma_mul_is_commutative(k as int, 0);
                }
                assert(false);
            }
            // The mask length fits: m * (red - 1) <= m * (k - 1) < blocks_padded.
            lemma_mul_inequality(red as int - 1, k as int - 1, m as int);
            lemma_mul_is_distributive_sub(m as int, k as int, 1);
            lemma_mul_is_commutative(m as int, k as int);
            lemma_mul_is_commutative(m as int, red as int - 1);
            assert(m * (k - 1) == self.blocks_padded - m);
            assert(8 * k <= k * m) by {
                lemma_mul_inequality(8, m as int, k as int);
                lemma_mul_is_commutative(8, k as int);
                lemma_mul_is_commutative(m as int, k as int);
            }
        }
        let mask_len = m * (red - 1);
        let mut masks: Vec<BitString> = Vec::new();
        let mut t: usize = 0;
        while t < k
            invariant
                t <= k,
                seeds@.len() == k,
                mask_len == m * (red as int - 1),
                mask_len + 7 <= usize::MAX,
                masks@.len() == t,
                forall|x: int|
                    0 <= x < t ==> (#[trigger] masks@[x]).wf() && masks@[x].bit_len == mask_len
                        && masks@[x]@ == crate::util::expand_bits(seeds@[x], mask_len as int),
            decreases k - t,
        {
            masks.push(rand_bitvec(seeds[t], mask_len));
            t = t + 1;
        }
        let ghost mi = m as int;
        let ghost ki = k as int;
        let ghost ri = red as int;
        let ghost ii = index as int;
        let mut out: Vec<BitString> = Vec::new();
        let mut c: usize = 0;
        while c < k
            invariant
                c <= k,
                self.wf(),
                seeds@.len() == k,
                k == self.servers,
                red == self.redundancy,
                mi == self.bps(),
                m == mi,
                ki == k as int,
                ri == red as int,
                ii == index as int,
                index < self.blocks <= self.blocks_padded,
                self.blocks_padded == k * m,
                8 <= m,
                8 * k <= usize::MAX,
                m == 8 * mb,
                m + 7 <= usize::MAX,
                mask_len == m * (ri - 1),
                mask_len + 7 <= usize::MAX,
                masks@.len() == k,
                forall|x: int|
                    0 <= x < k ==> (#[trigger] masks@[x]).wf() && masks@[x].bit_len == mask_len
                        && masks@[x]@ == crate::util::expand_bits(seeds@[x], mask_len as int),
                out@.len() == c,
                forall|cc: int|
                    0 <= cc < c ==> (#[trigger] out@[cc]).wf() && out@[cc].bit_len == mi
                        && out@[cc]@ == query_bits(mi, ki, ri, ii, seeds@, cc),
            decreases k - c,
        {
            let mut chunk = BitString::zeros(m);
            if index / m == c {
                chunk.set(index % m);
            }
            proof {
                lemma_fundamental_div_mod(ii, mi);
                assert(ii == mi * (ii / mi) + ii % mi);
                let ci = c as int;
                if ii / mi == ci {
                    assert forall|x: int| 0 <= x < mi implies chunk@[x] == (ci * mi + x == ii) by {
                        lemma_mul_is_commutative(ci, mi);
                    }
                } else {
                    assert forall|x: int| 0 <= x < mi implies chunk@[x] == (ci * mi + x == ii) by {
                        if ci * mi + x == ii {
                            lemma_fundamental_div_mod_converse(ii, mi, ci, x);
                            assert(false);
                        }
                    }
                }
                assert(chunk@ =~= unit_chunk(mi, c as int, ii));
                assert(chunk@ == query_bits_rec(mi, ki, ri, ii, seeds@, c as int, 1));
            }
            let mut j: usize = 1;
            let mut off: usize = 0;
            while j < red
                invariant
                    1 <= j <= red,
                    2 <= red <= k,
                    8 * k <= usize::MAX,
                    c < k,
                    seeds@.len() == k,
                    off == (j - 1) * mb,
                    m == 8 * mb,
                    mask_len == m * (ri - 1),
                    mi == m as int,
                    ki == k as int,
                    ri == red as int,
                    masks@.len() == k,
                    forall|x: int|
                        0 <= x < k ==> (#[trigger] masks@[x]).wf() && masks@[x].bit_len == mask_len
                            && masks@[x]@ == crate::util::expand_bits(seeds@[x], mask_len as int),
                    chunk.wf(),
                    chunk.bit_len == m,
                    chunk@ == query_bits_rec(mi, ki, ri, ii, seeds@, c as int, j as int),
                decreases red - j,
            {
                let src = (c + k - j) % k;
                proof {
                    // off + mb == j * mb and 8 * (j * mb) == j * m <= mask_len.
                    lemma_mul_is_distributive_sub(mb as int, j as int, 1);
                    lemma_mul_is_commutative(mb as int, j as int);
                    lemma_mul_is_commutative(mb as int, j as int - 1);
                    lemma_mul_inequality(j as int, ri - 1, m as int);
                    lemma_mul_is_commutative(j as int, m as int);
                    lemma_mul_is_commutative(m as int, ri - 1);
                    lemma_mul_is_associative(8, j as int, mb as int);
                    assert(8 * (j as int * mb as int) == j as int * m as int) by {
                        lemma_mul_is_associative(j as int, 8, mb as int);
                        lemma_mul_is_commutative(8, j as int);
                    }
                    assert(8 * (off + mb) <= mask_len);
                }
                let part = masks[src].byte_range(off, off + mb);
                proof {
                    let ji = j as int;
                    let srci = src as int;
                    assert(srci == (c as int + ki - ji) % ki);
                    assert(8 * (off as int) == (ji - 1) * mi) by {
                        lemma_mul_is_associative(8, ji - 1, mb as int);
                        lemma_mul_is_commutative(8, ji - 1);
                        lemma_mul_is_associative(ji - 1, 8, mb as int);
                    }
                    assert(part@ =~= mask_chunk(seeds@[srci], mi, ri, ji));
                    assert(part.bit_len == m);
                }
                chunk.xor_with(&part);
                proof {
                    assert(chunk@ == query_bits_rec(mi, ki, ri, ii, seeds@, c as int, j as int + 1));
                }
                off = off + mb;
                j = j + 1;
            }
            out.push(chunk);
            c = c + 1;
        }
        out
    }

    /// Query construction is deterministic under fixed seeds: any two query
    /// views that meet `query`'s contract for the same parameters, index and
    /// seeds are identical.
    pub proof fn lemma_query_deterministic(
        a: Seq<bool>,
        b: Seq<bool>,
        m: int,
        k: int,
        red: int,
        i: int,
        seeds: Seq<u64>,
        c: int,
    )
        requires
            a == query_bits(m, k, red, i, seeds, c),
            b == query_bits(m, k, red, i, seeds, c),
        ensures
            a == b,
    {
    }

    /// Combine the servers' responses into the queried element.
    pub fn combine<T: PirElement>(&self, responses: Vec<T>) -> (r: T)
        requires
            self.wf(),
            responses@.len() == self.servers,
        ensures
            r.vw() == combine_vw(responses@.map_values(|e: T| e.vw())),
    {
        let ghost views = responses@.map_values(|e: T| e.vw());
        let mut data = responses[0].clone_el();
        let mut idx: usize = 1;
        proof {
            assert(views.take(1).len() == 1);
            assert(data.vw() == combine_vw(views.take(1)));
        }
        while idx < responses.len()
            invariant
                1 <= idx <= responses@.len(),
                views == responses@.map_values(|e: T| e.vw()),
                data.vw() == combine_vw(views.take(idx as int)),
            decreases responses@.len() - idx,
        {
            data.xor_assign(&responses[idx]);
            proof {
                let pre = views.take(idx as int);
                let post = views.take(idx as int + 1);
                assert(post.drop_last() =~= pre);
                assert(post.last() == views[idx as int]);
            }
            idx = idx + 1;
        }
        proof {
            assert(views.take(responses@.len() as int) =~= views);
        }
        data
    }
}

} // verus!
