//! Methods for preprocessing and responding to RAID-PIR queries.

use vstd::prelude::*;

use crate::bits::{lemma_byte_window, BitString};
use crate::protocol::{
    lemma_padded_len, mask_bits, pad_db, padded_len, partial_vw, response_vw, rot_db, server_db,
};
use crate::types::PirElement;
use crate::util;
use crate::util::rand_bitvec;
use crate::xorseq::{
    bxor, byte_bit, byte_bits, lemma_bxor_absorb_zeros, lemma_bxor_assoc, lemma_bxor_empty_right,
    lemma_sel_split, sel_xor,
};
use vstd::arithmetic::div_mod::{lemma_fundamental_div_mod, lemma_fundamental_div_mod_converse};
use vstd::arithmetic::mul::{
    lemma_mul_inequality, lemma_mul_is_commutative, lemma_mul_is_distributive_sub,
    lemma_mul_nonnegative,
};

verus! {

/// How many preprocessed seeds a server keeps ready.
pub const QUEUE_SIZE: usize = 32;

/// A sequence of seed-to-partial-answer entries read as a map.  Later
/// entries win, matching insertion that overwrites.
pub open spec fn assoc_map<T>(s: Seq<(u64, T)>) -> Map<u64, T>
    decreases s.len(),
{
    if s.len() == 0 {
        Map::empty()
    } else {
        assoc_map(s.drop_last()).insert(s.last().0, s.last().1)
    }
}

/// No seed occurs twice.
pub open spec fn unique_seeds<T>(s: Seq<(u64, T)>) -> bool {
    forall|i: int, j: int| 0 <= i < j < s.len() ==> (#[trigger] s[i]).0 != (#[trigger] s[j]).0
}

pub proof fn lemma_assoc_push<T>(s: Seq<(u64, T)>, k: u64, v: T)
    ensures
        assoc_map(s.push((k, v))) == assoc_map(s).insert(k, v),
{
    assert(s.push((k, v)).drop_last() =~= s);
    assert(s.push((k, v)).last() == (k, v));
}

pub proof fn lemma_assoc_contains<T>(s: Seq<(u64, T)>, k: u64)
    ensures
        assoc_map(s).dom().contains(k) <==> exists|i: int| 0 <= i < s.len() && (#[trigger] s[i]).0
            == k,
    decreases s.len(),
{
    if s.len() > 0 {
        lemma_assoc_contains(s.drop_last(), k);
        if s.last().0 == k {
            assert(s[s.len() - 1].0 == k);
        } else {
            if exists|i: int| 0 <= i < s.len() - 1 && (#[trigger] s.drop_last()[i]).0 == k {
                let i = choose|i: int|
                    0 <= i < s.len() - 1 && (#[trigger] s.drop_last()[i]).0 == k;
                assert(s[i].0 == k);
            }
            if exists|i: int| 0 <= i < s.len() && (#[trigger] s[i]).0 == k {
                let i = choose|i: int| 0 <= i < s.len() && (#[trigger] s[i]).0 == k;
                assert(i < s.len() - 1);
                assert(s.drop_last()[i].0 == k);
            }
        }
    }
}

/// Removing the unique entry carrying seed `k` removes `k` from the map.
pub proof fn lemma_assoc_remove<T>(s: Seq<(u64, T)>, i: int, k: u64)
    requires
        unique_seeds(s),
        0 <= i < s.len(),
        s[i].0 == k,
    ensures
        assoc_map(s.remove(i)) == assoc_map(s).remove(k),
    decreases s.len(),
{
    if i == s.len() - 1 {
        assert(s.remove(i) =~= s.drop_last());
        assert(forall|j: int|
            0 <= j < s.len() - 1 ==> (#[trigger] s.drop_last()[j]).0 == s[j].0 && s[j].0 != k);
        lemma_assoc_contains(s.drop_last(), k);
        assert(!assoc_map(s.drop_last()).dom().contains(k));
        assert(assoc_map(s).remove(k) =~= assoc_map(s.drop_last()));
    } else {
        let sd = s.drop_last();
        assert(s.remove(i).drop_last() =~= sd.remove(i));
        assert(s.remove(i).last() == s.last());
        assert(forall|a: int, b: int|
            0 <= a < b < sd.len() ==> (#[trigger] sd[a]).0 != (#[trigger] sd[b]).0);
        lemma_assoc_remove(sd, i, k);
        assert(s.last().0 != k);
        assert(assoc_map(sd).remove(k).insert(s.last().0, s.last().1) =~= assoc_map(sd).insert(
            s.last().0,
            s.last().1,
        ).remove(k));
    }
}

/// Find the entry carrying `key`, if any.
fn table_find<T>(table: &Vec<(u64, T)>, key: u64) -> (r: Option<usize>)
    ensures
        match r {
            Option::Some(i) => i < table@.len() && table@[i as int].0 == key,
            Option::None => forall|i: int| 0 <= i < table@.len() ==> (#[trigger] table@[i]).0 != key,
        },
{
    let mut i: usize = 0;
    while i < table.len()
        invariant
            i <= table@.len(),
            forall|j: int| 0 <= j < i ==> (#[trigger] table@[j]).0 != key,
        decreases table@.len() - i,
    {
        if table[i].0 == key {
            return Option::Some(i);
        }
        i = i + 1;
    }
    Option::None
}

/// Exclusive-or into `acc` the elements of `db` at `lo + x` for each set bit
/// `x` of `bits`.
fn xor_selected<T: PirElement>(acc: &mut T, db: &Vec<T>, bits: &BitString, lo: usize)
    requires
        bits.wf(),
        lo + bits.bit_len <= db@.len(),
    ensures
        final(acc).vw() == bxor(
            old(acc).vw(),
            sel_xor(db@.map_values(|e: T| e.vw()), bits@, lo as int),
        ),
{
    let dblen = db.len();
    let ghost dbv = db@.map_values(|e: T| e.vw());
    let ghost a0 = acc.vw();
    proof {
        lemma_bxor_empty_right(a0);
        assert(bits@.take(0) =~= Seq::<bool>::empty());
    }
    let n = bits.len();
    let mut x: usize = 0;
    while x < n
        invariant
            x <= n,
            n == bits.bit_len,
            bits.wf(),
            dblen == db@.len(),
            lo + n <= dblen,
            dbv == db@.map_values(|e: T| e.vw()),
            a0 == old(acc).vw(),
            acc.vw() == bxor(a0, sel_xor(dbv, bits@.take(x as int), lo as int)),
        decreases n - x,
    {
        let ghost pre = bits@.take(x as int);
        let ghost post = bits@.take(x as int + 1);
        proof {
            assert(post.drop_last() =~= pre);
            assert(post.last() == bits@[x as int]);
        }
        if bits.get(x) {
            acc.xor_assign(&db[lo + x]);
            proof {
                assert(dbv[lo + x as int] == db@[lo + x as int].vw());
                lemma_bxor_assoc(a0, sel_xor(dbv, pre, lo as int), dbv[lo + x as int]);
            }
        } else {
            proof {
                lemma_bxor_empty_right(sel_xor(dbv, pre, lo as int));
            }
        }
        x = x + 1;
    }
    proof {
        assert(bits@.take(n as int) =~= bits@);
    }
}

/// Exclusive-or into `acc` the elements of `db` at `lo + x` for each set bit
/// `x` of the byte `v`.
fn xor_selected_byte<T: PirElement>(acc: &mut T, db: &Vec<T>, v: u8, lo: usize)
    requires
        lo + 8 <= db@.len(),
    ensures
        final(acc).vw() == bxor(
            old(acc).vw(),
            sel_xor(db@.map_values(|e: T| e.vw()), byte_bits(v), lo as int),
        ),
{
    let dblen = db.len();
    let ghost dbv = db@.map_values(|e: T| e.vw());
    let ghost a0 = acc.vw();
    proof {
        lemma_bxor_empty_right(a0);
        assert(byte_bits(v).take(0) =~= Seq::<bool>::empty());
    }
    let mut x: usize = 0;
    while x < 8
        invariant
            x <= 8,
            dblen == db@.len(),
            lo + 8 <= dblen,
            dbv == db@.map_values(|e: T| e.vw()),
            a0 == old(acc).vw(),
            acc.vw() == bxor(a0, sel_xor(dbv, byte_bits(v).take(x as int), lo as int)),
        decreases 8 - x,
    {
        let ghost pre = byte_bits(v).take(x as int);
        let ghost post = byte_bits(v).take(x as int + 1);
        proof {
            assert(post.drop_last() =~= pre);
            assert(post.last() == byte_bits(v)[x as int]);
        }
        if (v >> (x as u8)) & 1 == 1 {
            acc.xor_assign(&db[lo + x]);
            proof {
                assert(byte_bits(v)[x as int] == byte_bit(v, x as int));
                assert(dbv[lo + x as int] == db@[lo + x as int].vw());
                lemma_bxor_assoc(a0, sel_xor(dbv, pre, lo as int), dbv[lo + x as int]);
            }
        } else {
            proof {
                assert(!byte_bits(v)[x as int]);
                lemma_bxor_empty_right(sel_xor(dbv, pre, lo as int));
            }
        }
        x = x + 1;
    }
    proof {
        assert(byte_bits(v).take(8) =~= byte_bits(v));
    }
}

/// RAID-PIR server.
///
/// `T` is the type of database elements.  When not using integers, all
/// values must share one effective size, and the zero element must widen on
/// the first exclusive or; see [`crate::types::RaidPirData`].
pub struct RaidPirServer<T> {
    /// The padded database, rotated so this server's own chunk is first.
    pub db: Vec<T>,
    /// The optional lookup table: one row per byte of the own chunk, one
    /// entry per byte value.
    pub russians: Option<Vec<Vec<T>>>,
    /// The number of servers, `k`.
    pub servers: usize,
    /// The redundancy parameter, `r`.
    pub redundancy: usize,
    /// Preprocessed seeds and their partial answers, not yet vended.
    pub queue: Vec<(u64, T)>,
    /// Vended seeds and their partial answers, awaiting their query.
    pub queue_used: Vec<(u64, T)>,
}

impl<T: PirElement> RaidPirServer<T> {
    /// The number of elements each server covers online.
    pub open spec fn bps(&self) -> int {
        self.db@.len() as int / self.servers as int
    }

    /// The byte-sequence model of the stored database.
    pub open spec fn dbv(&self) -> Seq<Seq<u8>> {
        self.db@.map_values(|e: T| e.vw())
    }

    /// The partial answer that belongs to `seed`.
    pub open spec fn partial_of(&self, seed: u64) -> Seq<u8> {
        partial_vw(self.dbv(), self.bps(), self.redundancy as int, T::zero_vw(), seed)
    }

    /// A queue entry pairs a seed with exactly its partial answer.
    pub open spec fn entry_ok(&self, e: (u64, T)) -> bool {
        e.1.vw() == self.partial_of(e.0)
    }

    /// The lookup table, when present, holds for every byte position `p` of
    /// the own chunk and every byte value `v` the fold of the zero element
    /// with the selection that `v`'s bits make from the block at `8p`.
    pub open spec fn russians_ok(&self) -> bool {
        match self.russians {
            Option::Some(tab) => {
                &&& tab@.len() == self.bps() / 8
                &&& forall|p: int| 0 <= p < tab@.len() ==> (#[trigger] tab@[p])@.len() == 256
                &&& forall|p: int, v: int|
                    0 <= p < tab@.len() && 0 <= v < 256 ==> (#[trigger] tab@[p]@[v]).vw() == bxor(
                        T::zero_vw(),
                        sel_xor(self.dbv(), byte_bits(v as u8), 8 * p),
                    )
            },
            Option::None => true,
        }
    }

    pub open spec fn wf(&self) -> bool {
        &&& 2 <= self.redundancy <= self.servers
        &&& self.db@.len() == self.servers * self.bps()
        &&& self.bps() % 8 == 0
        &&& unique_seeds(self.queue_used@)
        &&& forall|i: int| 0 <= i < self.queue@.len() ==> self.entry_ok(#[trigger] self.queue@[i])
        &&& forall|i: int|
            0 <= i < self.queue_used@.len() ==> self.entry_ok(#[trigger] self.queue_used@[i])
        &&& self.russians_ok()
    }

    /// Create a new server object and prepare the database: pad it with zero
    /// elements to a multiple of `servers * 8`, rotate this server's own
    /// chunk to the front, and precompute the lookup table when asked to.
    pub fn new(db: Vec<T>, id: usize, servers: usize, redundancy: usize, use_russians: bool) -> (r:
        Self)
        requires
            2 <= redundancy <= servers,
            id < servers,
            db@.len() + servers * 8 <= usize::MAX,
        ensures
            r.wf(),
            r.servers == servers,
            r.redundancy == redundancy,
            r.db@.len() == padded_len(db@.len() as int, servers as int),
            r.dbv() == server_db(
                db@.map_values(|e: T| e.vw()),
                T::zero_vw(),
                servers as int,
                id as int,
            ),
            r.russians is Some <==> use_russians,
            r.queue@ == Seq::<(u64, T)>::empty(),
            r.queue_used@ == Seq::<(u64, T)>::empty(),
    {
        let ghost dbv0 = db@.map_values(|e: T| e.vw());
        let ghost n0 = db@.len() as int;
        let ghost ki = servers as int;
        proof {
            lemma_padded_len(n0, ki);
        }
        let mut db = db;
        let t = servers * 8;
        let rem = db.len() % t;
        if rem != 0 {
            let target = db.len() + (t - rem);
            proof {
                assert(target == padded_len(n0, ki));
                assert forall|y: int| 0 <= y < n0 implies (#[trigger] db@[y]).vw() == dbv0[y] by {
                    assert(dbv0[y] == db@[y].vw());
                }
            }
            while db.len() < target
                invariant
                    n0 <= db@.len() <= target,
                    dbv0.len() == n0,
                    forall|y: int| 0 <= y < n0 ==> (#[trigger] db@[y]).vw() == dbv0[y],
                    forall|y: int| n0 <= y < db@.len() ==> (#[trigger] db@[y]).vw() == T::zero_vw(),
                decreases target - db@.len(),
            {
                let z = T::zero();
                let ghost prev = db@;
                db.push(z);
                proof {
                    assert(forall|y: int| 0 <= y < prev.len() ==> db@[y] == prev[y]);
                    assert(db@[prev.len() as int] == z);
                }
            }
        }
        let ghost padv = pad_db(dbv0, ki, T::zero_vw());
        proof {
            assert(db@.len() == padded_len(n0, ki));
            let mv = db@.map_values(|e: T| e.vw());
            assert forall|y: int| 0 <= y < mv.len() implies mv[y] == padv[y] by {
                assert(mv[y] == db@[y].vw());
            }
            assert(mv =~= padv);
        }
        // Rotate left by id * (len / servers), so the own chunk is first.
        let len = db.len();
        let m = len / servers;
        proof {
            assert(len == servers * m && m % 8 == 0) by {
                lemma_padded_len(n0, ki);
            }
            assert(id as int * m as int <= ki * m as int) by {
                lemma_mul_inequality(id as int, ki, m as int);
            }
            lemma_mul_nonnegative(id as int, m as int);
        }
        let off = id * m;
        let ghost rotv = rot_db(padv, off as int);
        let mut rot: Vec<T> = Vec::new();
        if len > 0 {
            proof {
                if m == 0 {
                    assert(servers * 0 == 0) by {
                        lemma_mul_is_commutative(ki, 0);
                    }
                    assert(false);
                }
                assert(off < len) by {
                    assert(id as int * m as int <= (ki - 1) * m as int) by {
                        lemma_mul_inequality(id as int, ki - 1, m as int);
                    }
                    assert((ki - 1) * m as int == len - m) by {
                        lemma_mul_is_distributive_sub(m as int, ki, 1);
                        lemma_mul_is_commutative(m as int, ki);
                        lemma_mul_is_commutative(m as int, ki - 1);
                    }
                }
            }
            let mut x: usize = 0;
            while x < len
                invariant
                    x <= len,
                    off < len,
                    len == db@.len(),
                    rotv == rot_db(db@.map_values(|e: T| e.vw()), off as int),
                    rot@.len() == x,
                    forall|y: int| 0 <= y < x ==> (#[trigger] rot@[y]).vw() == rotv[y],
                decreases len - x,
            {
                let idx = if x < len - off {
                    x + off
                } else {
                    x - (len - off)
                };
                proof {
                    if x < len - off {
                        lemma_fundamental_div_mod_converse(x as int + off as int, len as int, 0, x as int + off as int);
                    } else {
                        lemma_fundamental_div_mod_converse(x as int + off as int, len as int, 1, x as int + off as int - len as int);
                    }
                    assert(idx as int == (x as int + off as int) % (len as int));
                }
                rot.push(db[idx].clone_el());
                x = x + 1;
            }
        }
        proof {
            assert(rot@.map_values(|e: T| e.vw()) =~= rotv);
        }
        let russians = if use_russians {
            Option::Some(Self::build_russians(&rot, m / 8))
        } else {
            Option::None
        };
        let r = Self { db: rot, russians, servers, redundancy, queue: Vec::new(), queue_used: Vec::new() };
        proof {
            assert(r.dbv() == rotv);
            assert(r.db@.len() == padded_len(n0, ki));
            assert(r.bps() == m as int) by {
                lemma_fundamental_div_mod_converse(r.db@.len() as int, ki, m as int, 0);
            }
            assert(r.wf());
        }
        r
    }

    /// Preprocess queries by preparing a queue of seeds and partial answers.
    ///
    /// Each round draws a fresh seed, expands it to the mask bits, folds the
    /// selected foreign elements into the zero element, and enqueues the
    /// pair, until the queue holds at least `QUEUE_SIZE` entries.
    pub fn preprocess(&mut self)
        requires
            old(self).wf(),
        ensures
            final(self).wf(),
            final(self).db == old(self).db,
            final(self).russians == old(self).russians,
            final(self).servers == old(self).servers,
            final(self).redundancy == old(self).redundancy,
            final(self).queue_used == old(self).queue_used,
            final(self).queue@.len() >= QUEUE_SIZE,
            final(self).queue@.take(old(self).queue@.len() as int) == old(self).queue@,
    {
        let len = self.db.len();
        let m = len / self.servers;
        let red = self.redundancy;
        proof {
            assert(m == self.bps());
            assert(m as int * (red as int - 1) + m <= len) by {
                lemma_mul_inequality(red as int, self.servers as int, m as int);
                lemma_mul_is_commutative(m as int, red as int);
                lemma_mul_is_commutative(m as int, self.servers as int);
                lemma_mul_is_distributive_sub(m as int, red as int, 1);
            }
            lemma_mul_nonnegative(m as int, red as int - 1);
            if m == 0 {
                assert(m as int * (red as int - 1) == 0) by {
                    lemma_mul_is_commutative(0, red as int - 1);
                }
            }
        }
        let mask_len = m * (red - 1);
        let mut rng = util::rng_from_entropy();
        while self.queue.len() < QUEUE_SIZE
            invariant
                self.wf(),
                self.db == old(self).db,
                self.russians == old(self).russians,
                self.servers == old(self).servers,
                self.redundancy == old(self).redundancy,
                self.queue_used == old(self).queue_used,
                old(self).queue@.len() <= self.queue@.len(),
                self.queue@.take(old(self).queue@.len() as int) == old(self).queue@,
                red == self.redundancy,
                len == self.db@.len(),
                m == self.bps(),
                mask_len == m as int * (red as int - 1),
                mask_len + m <= len,
            decreases QUEUE_SIZE - self.queue@.len(),
        {
            let seed = util::rng_next_u64(&mut rng);
            let rbits = rand_bitvec(seed, mask_len);
            let mut acc = T::zero();
            xor_selected(&mut acc, &self.db, &rbits, m);
            proof {
                assert(rbits@ == mask_bits(seed, self.bps(), self.redundancy as int));
                assert(acc.vw() == self.partial_of(seed));
            }
            let ghost prevq = self.queue@;
            self.queue.push((seed, acc));
            proof {
                assert(forall|i: int| 0 <= i < prevq.len() ==> self.queue@[i] == prevq[i]);
                assert(self.queue@.take(old(self).queue@.len() as int) =~= prevq.take(
                    old(self).queue@.len() as int,
                ));
                assert(self.queue@.last() == (seed, acc));
            }
        }
    }

    /// Return a seed from the queue, moving its entry to the used table.
    ///
    /// Preprocesses first if and only if the queue is empty.  A seed that
    /// collides with a live vended entry overwrites it.
    pub fn seed(&mut self) -> (s: u64)
        requires
            old(self).wf(),
        ensures
            final(self).wf(),
            final(self).db == old(self).db,
            final(self).russians == old(self).russians,
            final(self).servers == old(self).servers,
            final(self).redundancy == old(self).redundancy,
            assoc_map(final(self).queue_used@).dom() == assoc_map(
                old(self).queue_used@,
            ).dom().insert(s),
            forall|x: u64|
                x != s && assoc_map(old(self).queue_used@).dom().contains(x) ==> assoc_map(
                    final(self).queue_used@,
                )[x] == assoc_map(old(self).queue_used@)[x],
            assoc_map(final(self).queue_used@)[s].vw() == final(self).partial_of(s),
            old(self).queue@.len() > 0 ==> s == old(self).queue@.last().0 && final(self).queue@
                == old(self).queue@.drop_last() && assoc_map(final(self).queue_used@)[s] == old(
                self,
            ).queue@.last().1,
            old(self).queue@.len() == 0 ==> final(self).queue@.len() >= QUEUE_SIZE - 1,
    {
        if self.queue.len() == 0 {
            self.preprocess();
        }
        let ghost qpre = self.queue@;
        let pair = self.queue.pop().unwrap();
        let s = pair.0;
        let ghost v = pair.1;
        proof {
            assert(pair == qpre.last());
            assert(self.entry_ok(qpre.last()));
        }
        let found = table_find(&self.queue_used, s);
        let ghost used0 = self.queue_used@;
        match found {
            Option::Some(i) => {
                self.queue_used.remove(i);
                proof {
                    lemma_assoc_remove(used0, i as int, s);
                }
            },
            Option::None => {},
        }
        let ghost used1 = self.queue_used@;
        proof {
            match found {
                Option::Some(i) => {
                    assert(forall|j: int|
                        0 <= j < used1.len() ==> used1[j] == if j < i as int {
                            used0[j]
                        } else {
                            used0[j + 1]
                        });
                    assert(forall|j: int| 0 <= j < used1.len() ==> (#[trigger] used1[j]).0 != s);
                    assert(assoc_map(used1) == assoc_map(used0).remove(s));
                },
                Option::None => {
                    assert(forall|j: int| 0 <= j < used1.len() ==> (#[trigger] used1[j]).0 != s);
                },
            }
        }
        self.queue_used.push(pair);
        proof {
            lemma_assoc_push(used1, s, v);
            assert(self.queue_used@ == used1.push((s, v)));
            // Uniqueness: the older entries differ pairwise and none carries s.
            assert forall|a: int, b: int|
                0 <= a < b < self.queue_used@.len() implies (#[trigger] self.queue_used@[a]).0 != (
            #[trigger] self.queue_used@[b]).0 by {
                if b < self.queue_used@.len() - 1 {
                    assert(used1[a].0 != used1[b].0);
                }
            }
            // Every entry is either an old one or the moved pair.
            assert forall|j: int| 0 <= j < self.queue_used@.len() implies self.entry_ok(
                #[trigger] self.queue_used@[j],
            ) by {
                if j < self.queue_used@.len() - 1 {
                    match found {
                        Option::Some(i) => {
                            assert(used1[j] == if j < i as int {
                                used0[j]
                            } else {
                                used0[j + 1]
                            });
                        },
                        Option::None => {},
                    }
                }
            }
            // The map evolves by exactly one insertion.
            match found {
                Option::Some(i) => {
                    assert(assoc_map(self.queue_used@) =~= assoc_map(used0).insert(s, v));
                },
                Option::None => {},
            }
            assert(assoc_map(self.queue_used@) == assoc_map(used0).insert(s, v));
            assert(assoc_map(self.queue_used@).dom() =~= assoc_map(used0).dom().insert(s));
        }
        s
    }

    /// Calculate the response to the given query under the given seed.
    ///
    /// The vended entry for `seed` leaves the used table; its partial answer
    /// is combined with the query's selection of the own chunk, through the
    /// lookup table when one was built and by a bit scan otherwise.
    pub fn response(&mut self, seed: u64, query: &BitString) -> (r: T)
        requires
            old(self).wf(),
            query.wf(),
            query.bit_len == old(self).bps(),
            assoc_map(old(self).queue_used@).dom().contains(seed),
        ensures
            final(self).wf(),
            final(self).db == old(self).db,
            final(self).russians == old(self).russians,
            final(self).servers == old(self).servers,
            final(self).redundancy == old(self).redundancy,
            final(self).queue == old(self).queue,
            assoc_map(final(self).queue_used@) == assoc_map(old(self).queue_used@).remove(seed),
            r.vw() == response_vw(
                old(self).dbv(),
                old(self).bps(),
                old(self).redundancy as int,
                T::zero_vw(),
                seed,
                query@,
            ),
    {
        proof {
            lemma_assoc_contains(old(self).queue_used@, seed);
        }
        let found = table_find(&self.queue_used, seed);
        proof {
            if found is None {
                let i = choose|i: int|
                    0 <= i < old(self).queue_used@.len() && (#[trigger] old(
                        self,
                    ).queue_used@[i]).0 == seed;
                assert(false);
            }
        }
        let i = found.unwrap();
        let ghost used0 = self.queue_used@;
        let pair = self.queue_used.remove(i);
        proof {
            lemma_assoc_remove(used0, i as int, seed);
            assert(self.entry_ok(pair));
            assert forall|j: int| 0 <= j < self.queue_used@.len() implies self.entry_ok(
                #[trigger] self.queue_used@[j],
            ) && (forall|b: int|
                j < b < self.queue_used@.len() ==> self.queue_used@[j].0 != (
                #[trigger] self.queue_used@[b]).0) by {
                assert(forall|a: int|
                    0 <= a < self.queue_used@.len() ==> self.queue_used@[a] == (if a < i as int {
                        used0[a]
                    } else {
                        used0[a + 1]
                    }));
            }
        }
        let ghost dbv = self.dbv();
        let ghost zv = T::zero_vw();
        let ghost pvw = self.partial_of(seed);
        let mut answer = pair.1;
        let len = self.db.len();
        let m = len / self.servers;
        proof {
            T::lemma_zero_vw();
            assert(m == self.bps());
            assert(answer.vw() == pvw);
            assert(pvw == bxor(zv, sel_xor(dbv, mask_bits(seed, m as int, self.redundancy as int), m as int)));
            assert(answer.vw().len() >= zv.len());
            lemma_bxor_empty_right(pvw);
            assert(query@.take(0) =~= Seq::<bool>::empty());
        }
        match &self.russians {
            Option::Some(tab) => {
                let mb = m / 8;
                proof {
                    lemma_fundamental_div_mod(m as int, 8);
                    assert(m == 8 * mb);
                }
                let mut p: usize = 0;
                while p < mb
                    invariant
                        p <= mb,
                        m == 8 * mb,
                        query.wf(),
                        query.bit_len == m,
                        tab@.len() == mb,
                        forall|pp: int| 0 <= pp < mb ==> (#[trigger] tab@[pp])@.len() == 256,
                        forall|pp: int, vv: int|
                            0 <= pp < mb && 0 <= vv < 256 ==> (#[trigger] tab@[pp]@[vv]).vw()
                                == bxor(zv, sel_xor(dbv, byte_bits(vv as u8), 8 * pp)),
                        answer.vw() == bxor(pvw, sel_xor(dbv, query@.take(8 * p as int), 0)),
                        answer.vw().len() >= zv.len(),
                        forall|j: int| 0 <= j < zv.len() ==> zv[j] == 0u8,
                    decreases mb - p,
                {
                    let qb = query.bytes[p];
                    let ghost pre = query@.take(8 * p as int);
                    let entry = &tab[p][qb as usize];
                    answer.xor_assign(entry);
                    proof {
                        let selp = sel_xor(dbv, byte_bits(qb), 8 * p as int);
                        assert(entry.vw() == bxor(zv, selp));
                        lemma_bxor_absorb_zeros(bxor(pvw, sel_xor(dbv, pre, 0)), zv, selp);
                        lemma_bxor_assoc(pvw, sel_xor(dbv, pre, 0), selp);
                        lemma_byte_window(query, p as int);
                        lemma_sel_split(dbv, pre, query@.subrange(8 * p as int, 8 * p as int + 8), 0);
                        assert(pre + query@.subrange(8 * p as int, 8 * p as int + 8) =~= query@.take(
                            8 * (p as int + 1),
                        ));
                        assert(answer.vw() == bxor(pvw, sel_xor(dbv, query@.take(8 * (p + 1) as int), 0)));
                    }
                    p = p + 1;
                }
                proof {
                    assert(query@.take(8 * mb as int) =~= query@);
                }
            },
            Option::None => {
                proof {
                    assert(m as int * 1 <= m as int * self.servers as int) by {
                        lemma_mul_inequality(1, self.servers as int, m as int);
                        lemma_mul_is_commutative(m as int, self.servers as int);
                        lemma_mul_is_commutative(m as int, 1);
                    }
                    assert(m <= len);
                }
                xor_selected(&mut answer, &self.db, query, 0);
            },
        }
        proof {
            assert(answer.vw() == response_vw(
                dbv,
                m as int,
                self.redundancy as int,
                zv,
                seed,
                query@,
            ));
        }
        answer
    }

    /// Servers that differ only in whether the lookup table was built return
    /// identical responses: the response value depends on the database, the
    /// parameters, the seed and the query alone, never on the table.
    pub proof fn lemma_russians_equivalent(
        s1: &RaidPirServer<T>,
        s2: &RaidPirServer<T>,
        seed: u64,
        q: Seq<bool>,
    )
        requires
            s1.dbv() == s2.dbv(),
            s1.db@.len() == s2.db@.len(),
            s1.servers == s2.servers,
            s1.redundancy == s2.redundancy,
        ensures
            response_vw(s1.dbv(), s1.bps(), s1.redundancy as int, T::zero_vw(), seed, q)
                == response_vw(s2.dbv(), s2.bps(), s2.redundancy as int, T::zero_vw(), seed, q),
    {
    }

    /// Build the lookup table over the own chunk of `db`: `mb` byte
    /// positions, 256 entries each.
    fn build_russians(db: &Vec<T>, mb: usize) -> (tab: Vec<Vec<T>>)
        requires
            8 * mb <= db@.len(),
        ensures
            tab@.len() == mb,
            forall|p: int| 0 <= p < mb ==> (#[trigger] tab@[p])@.len() == 256,
            forall|p: int, v: int|
                0 <= p < mb && 0 <= v < 256 ==> (#[trigger] tab@[p]@[v]).vw() == bxor(
                    T::zero_vw(),
                    sel_xor(db@.map_values(|e: T| e.vw()), byte_bits(v as u8), 8 * p),
                ),
    {
        let dblen = db.len();
        let ghost dbv = db@.map_values(|e: T| e.vw());
        let mut tab: Vec<Vec<T>> = Vec::new();
        let mut p: usize = 0;
        while p < mb
            invariant
                p <= mb,
                dblen == db@.len(),
                8 * mb <= dblen,
                dbv == db@.map_values(|e: T| e.vw()),
                tab@.len() == p,
                forall|pp: int| 0 <= pp < p ==> (#[trigger] tab@[pp])@.len() == 256,
                forall|pp: int, v: int|
                    0 <= pp < p && 0 <= v < 256 ==> (#[trigger] tab@[pp]@[v]).vw() == bxor(
                        T::zero_vw(),
                        sel_xor(dbv, byte_bits(v as u8), 8 * pp),
                    ),
            decreases mb - p,
        {
            let mut row: Vec<T> = Vec::new();
            let mut v: usize = 0;
            while v < 256
                invariant
                    v <= 256,
                    p < mb,
                    dblen == db@.len(),
                    8 * mb <= dblen,
                    dbv == db@.map_values(|e: T| e.vw()),
                    row@.len() == v,
                    forall|vv: int|
                        0 <= vv < v ==> (#[trigger] row@[vv]).vw() == bxor(
                            T::zero_vw(),
                            sel_xor(dbv, byte_bits(vv as u8), 8 * p as int),
                        ),
                decreases 256 - v,
            {
                let mut e = T::zero();
                xor_selected_byte(&mut e, db, v as u8, 8 * p);
                row.push(e);
                v = v + 1;
            }
            tab.push(row);
            p = p + 1;
        }
        tab
    }
}

} // verus!
