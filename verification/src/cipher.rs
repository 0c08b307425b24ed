//! The first-generation key derivation table: a table of `N` blocks,
//! initialised by encrypting a random value under a key, and stirred by
//! data-dependent pointer chasing in which the visited entries supply the
//! keys.

use vstd::prelude::*;

use crate::parano::hardener::{lemma_mask_index, seq_swap};
use crate::parano::transform::{f, spec_f};

verus! {

/// Word.
pub type W = u64;

/// Double word.
pub type D = [W; 2];

/// Quad-word.
pub type Q = [W; 4];

/// Base-two logarithm of the table size.
pub const LG2_N: u32 = 12;

/// Number of blocks in the table.
pub const N: usize = 4096;

/// Number of pointer-chasing iterations in one step.
pub const H: usize = 4096;

/// Number of steps made by an initialisation.
pub const INIT_STEPS: usize = 64;

/// Encrypt the block `x` under the key `k` with the keyed Feistel
/// transform.
pub fn encrypt(k: Q, x: [Q; 2]) -> (r: [Q; 2])
    ensures
        r == spec_f(k, x),
{
    f(k, x)
}

/// Table entry `i` before encryption: every word of both halves is
/// `r[k] ^ i`.
pub open spec fn spec_seed_block(r: Q, i: W) -> [Q; 2] {
    let q = [r[0] ^ i, r[1] ^ i, r[2] ^ i, r[3] ^ i];
    [q, q]
}

/// The table right after encryption of the seed blocks under `k`.
pub open spec fn spec_seed_table(k: Q, r: Q) -> Seq<[Q; 2]> {
    Seq::new(N as nat, |i: int| spec_f(k, spec_seed_block(r, i as W)))
}

/// One pointer-chasing iteration on the table and the current pointer:
/// the visited entry supplies, in its second half, the key with which
/// another entry is re-encrypted, or else selects two entries to
/// exchange; it also gives the next pointer.
pub open spec fn spec_step_iter(qs: Seq<[Q; 2]>, p: W) -> (Seq<[Q; 2]>, W) {
    let qsp = qs[p as int];
    let w = qsp[0][0];
    let p_next = qsp[0][1] & 4095;
    let kk = qsp[1];
    let w1 = w >> 1;
    if w & 1 == 0 {
        let i = (w1 & 4095) as int;
        (qs.update(i, spec_f(kk, qs[i])), p_next)
    } else {
        let i1 = (w1 & 4095) as int;
        let i2 = ((w1 >> 12) & 4095) as int;
        (seq_swap(qs, i1, i2), p_next)
    }
}

/// The table and pointer after `n` iterations from the first entry.
pub open spec fn spec_step_loop(qs: Seq<[Q; 2]>, n: nat) -> (Seq<[Q; 2]>, W)
    decreases n,
{
    if n == 0 {
        (qs, qs[0][0][0] & 4095)
    } else {
        let st = spec_step_loop(qs, (n - 1) as nat);
        spec_step_iter(st.0, st.1)
    }
}

/// The table after one step: `H` iterations, then the last pointer's
/// entry is exchanged with the first.
pub open spec fn spec_step(qs: Seq<[Q; 2]>) -> Seq<[Q; 2]> {
    let st = spec_step_loop(qs, H as nat);
    seq_swap(st.0, 0, st.1 as int)
}

/// The table after `n` steps.
pub open spec fn spec_steps(qs: Seq<[Q; 2]>, n: nat) -> Seq<[Q; 2]>
    decreases n,
{
    if n == 0 {
        qs
    } else {
        spec_step(spec_steps(qs, (n - 1) as nat))
    }
}

/// The table after initialisation with key `k` and random value `r`.
pub open spec fn spec_init_table(k: Q, r: Q) -> Seq<[Q; 2]> {
    spec_steps(spec_seed_table(k, r), INIT_STEPS as nat)
}

/// `spec_steps` is the step applied `n` times: none at first, and one
/// more for each further count.
pub proof fn lemma_steps_iterate(qs: Seq<[Q; 2]>, n: nat)
    ensures
        spec_steps(qs, 0) == qs,
        spec_steps(qs, n + 1) == spec_step(spec_steps(qs, n)),
{
}

/// Initialisation encrypts, under the key, seed entry `i` whose every word
/// (of both halves) is `r[w] ^ i`, and then stirs the table with exactly 64
/// steps.
pub proof fn lemma_init_stirs_seed(k: Q, r: Q)
    ensures
        spec_init_table(k, r) == spec_steps(
            Seq::new(
                N as nat,
                |i: int|
                    spec_f(
                        k,
                        [
                            [r[0] ^ (i as u64), r[1] ^ (i as u64), r[2] ^ (i as u64), r[3] ^ (
                            i as u64)],
                            [r[0] ^ (i as u64), r[1] ^ (i as u64), r[2] ^ (i as u64), r[3] ^ (
                            i as u64)],
                        ],
                    ),
            ),
            64,
        ),
{
    assert(spec_seed_table(k, r) =~= Seq::new(
        N as nat,
        |i: int|
            spec_f(
                k,
                [
                    [r[0] ^ (i as u64), r[1] ^ (i as u64), r[2] ^ (i as u64), r[3] ^ (i as u64)],
                    [r[0] ^ (i as u64), r[1] ^ (i as u64), r[2] ^ (i as u64), r[3] ^ (i as u64)],
                ],
            ),
    ));
}

/// A step starts its pointer chase at entry `qs[0][0][0] mod 4096`: the
/// first iteration visits that entry, and the next pointer is the second
/// word of its first half, modulo 4096.
pub proof fn lemma_step_start(qs: Seq<[Q; 2]>)
    requires
        qs.len() == N,
    ensures
        spec_step_loop(qs, 1) == spec_step_iter(qs, qs[0][0][0] % 4096),
        spec_step_loop(qs, 1).1 == qs[(qs[0][0][0] % 4096) as int][0][1] % 4096,
{
    let x = qs[0][0][0];
    assert(x & 4095 == x % 4096) by (bit_vector);
    let y = qs[(x % 4096) as int][0][1];
    assert(y & 4095 == y % 4096) by (bit_vector);
    assert(spec_step_loop(qs, 0) == (qs, x & 4095));
    assert(spec_step_loop(qs, 1) == spec_step_iter(qs, x & 4095));
}

/// One pointer-chasing iteration at entry `p`: with `w` the first word of
/// the entry and `kk` its second half, an even `w` re-encrypts entry
/// `(w / 2) mod 4096` under `kk`, an odd `w` exchanges entries
/// `(w / 2) mod 4096` and `(w / 8192) mod 4096`, and the chase goes on at
/// the second word of the entry, modulo 4096.
pub proof fn lemma_step_iter_effect(qs: Seq<[Q; 2]>, p: W)
    requires
        qs.len() == N,
        p < N,
    ensures
        ({
            let w = qs[p as int][0][0];
            let kk = qs[p as int][1];
            let i1 = ((w / 2) % 4096) as int;
            let i2 = ((w / 8192) % 4096) as int;
            let r = spec_step_iter(qs, p);
            &&& r.1 == qs[p as int][0][1] % 4096
            &&& r.0.len() == N
            &&& forall|m: int|
                0 <= m < N ==> #[trigger] r.0[m] == if w % 2 == 0 {
                    if m == i1 {
                        spec_f(kk, qs[i1])
                    } else {
                        qs[m]
                    }
                } else if m == i1 {
                    qs[i2]
                } else if m == i2 {
                    qs[i1]
                } else {
                    qs[m]
                }
        }),
{
    let w = qs[p as int][0][0];
    let y = qs[p as int][0][1];
    assert(y & 4095 == y % 4096) by (bit_vector);
    assert(w & 1 == w % 2 && (w >> 1) & 4095 == (w / 2) % 4096 && ((w >> 1) >> 12) & 4095 == (w
        / 8192) % 4096) by (bit_vector);
    lemma_mask_index(w >> 1);
    lemma_mask_index((w >> 1) >> 12);
}

/// A step ends by exchanging the first entry with the one the chase
/// stopped at.
pub proof fn lemma_step_final_swap(qs: Seq<[Q; 2]>)
    requires
        qs.len() == N,
    ensures
        ({
            let st = spec_step_loop(qs, H as nat);
            &&& spec_step(qs).len() == N
            &&& spec_step(qs)[0] == st.0[st.1 as int]
            &&& spec_step(qs)[st.1 as int] == st.0[0]
            &&& forall|m: int|
                0 <= m < N && m != 0 && m != st.1 ==> #[trigger] spec_step(qs)[m] == st.0[m]
        }),
{
    lemma_step_loop_len(qs, H as nat);
}

proof fn lemma_step_loop_len(qs: Seq<[Q; 2]>, n: nat)
    requires
        qs.len() == N,
    ensures
        spec_step_loop(qs, n).0.len() == N,
        spec_step_loop(qs, n).1 < N,
    decreases n,
{
    if n == 0 {
        lemma_mask_index(qs[0][0][0]);
    } else {
        lemma_step_loop_len(qs, (n - 1) as nat);
        let st = spec_step_loop(qs, (n - 1) as nat);
        let w = st.0[st.1 as int][0][0];
        lemma_mask_index(st.0[st.1 as int][0][1]);
        lemma_mask_index(w >> 1);
        lemma_mask_index((w >> 1) >> 12);
    }
}

/// A step keeps the table size.
pub proof fn lemma_step_len(qs: Seq<[Q; 2]>)
    requires
        qs.len() == N,
    ensures
        spec_step(qs).len() == N,
{
    lemma_step_loop_len(qs, H as nat);
}

/// A key derivation table.
pub struct Cipher {
    k: Q,
    qs: Vec<[Q; 2]>,
}

impl Cipher {
    /// The key used to initialise the table.
    pub closed spec fn key(&self) -> Q {
        self.k
    }

    /// The table.
    pub closed spec fn table(&self) -> Seq<[Q; 2]> {
        self.qs@
    }

    /// The table holds exactly `N` blocks.
    pub open spec fn wf(&self) -> bool {
        self.table().len() == N
    }

    /// Create a table for the key `k`, all zero until initialised.
    pub fn new(k: Q) -> (c: Self)
        ensures
            c.wf(),
            c.key() == k,
            forall|i: int|
                0 <= i < N ==> #[trigger] c.table()[i] == [[0u64, 0, 0, 0], [0u64, 0, 0, 0]],
    {
        let mut qs: Vec<[Q; 2]> = Vec::with_capacity(N);
        while qs.len() < N
            invariant
                qs@.len() <= N,
                forall|i: int|
                    0 <= i < qs@.len() ==> #[trigger] qs@[i] == [[0u64, 0, 0, 0], [0u64, 0, 0, 0]],
            decreases N - qs@.len(),
        {
            qs.push([[0u64, 0, 0, 0], [0u64, 0, 0, 0]]);
        }
        Self { k, qs }
    }

    /// Initialise the table from the random value `r`: encrypt the seed
    /// blocks under the key, then step `64` times.
    pub fn init(&mut self, r: Q)
        requires
            old(self).wf(),
        ensures
            final(self).wf(),
            final(self).key() == old(self).key(),
            final(self).table() == spec_init_table(old(self).key(), r),
    {
        let ghost k = self.k;
        let mut i: usize = 0;
        while i < N
            invariant
                0 <= i <= N,
                self.k == k,
                self.qs@.len() == N,
                forall|m: int|
                    0 <= m < i ==> #[trigger] self.qs@[m] == spec_f(
                        k,
                        spec_seed_block(r, m as W),
                    ),
            decreases N - i,
        {
            let iw = i as W;
            let mut xy: [Q; 2] = [[0u64, 0, 0, 0], [0u64, 0, 0, 0]];
            for j in 0..2usize
                invariant
                    forall|a: int, b: int|
                        0 <= a < j && 0 <= b < 4 ==> #[trigger] xy[a][b] == r[b] ^ iw,
            {
                let mut row = xy[j];
                for kk in 0..4usize
                    invariant
                        forall|b: int| 0 <= b < kk ==> #[trigger] row[b] == r[b] ^ iw,
                {
                    row[kk] = r[kk] ^ iw;
                }
                xy[j] = row;
            }
            assert(xy =~= spec_seed_block(r, iw)) by {
                assert(xy[0] =~= spec_seed_block(r, iw)[0]);
                assert(xy[1] =~= spec_seed_block(r, iw)[1]);
            }
            let v = encrypt(self.k, xy);
            self.qs.set(i, v);
            i = i + 1;
        }
        assert(self.qs@ =~= spec_seed_table(k, r));
        let ghost seeded = self.qs@;
        let mut s: usize = 0;
        while s < INIT_STEPS
            invariant
                0 <= s <= INIT_STEPS,
                self.k == k,
                self.qs@.len() == N,
                self.qs@ == spec_steps(seeded, s as nat),
            decreases INIT_STEPS - s,
        {
            self.step();
            s = s + 1;
        }
    }

    /// The derived key: the second half of the first entry.
    pub fn get(&self) -> (q: Q)
        requires
            self.wf(),
        ensures
            q == self.table()[0][1],
    {
        self.qs[0][1]
    }

    /// Step the table.
    pub fn step(&mut self)
        requires
            old(self).wf(),
        ensures
            final(self).wf(),
            final(self).key() == old(self).key(),
            final(self).table() == spec_step(old(self).table()),
    {
        let ghost qs0 = self.qs@;
        let ghost k0 = self.k;
        let mask: W = (N - 1) as W;
        let mut p: W = self.qs[0][0][0] & mask;
        proof {
            lemma_mask_index(qs0[0][0][0]);
        }
        let mut it: usize = 0;
        while it < H
            invariant
                0 <= it <= H,
                mask == 4095,
                self.k == k0,
                self.qs@.len() == N,
                p < N,
                (self.qs@, p) == spec_step_loop(qs0, it as nat),
            decreases H - it,
        {
            let ghost st = (self.qs@, p);
            let mut w = self.qs[p as usize][0][0];
            let p_next = self.qs[p as usize][0][1] & mask;
            let kk = self.qs[p as usize][1];
            proof {
                lemma_mask_index(st.0[p as int][0][1]);
            }
            if w & 1 == 0 {
                w = w >> 1;
                let i = w & mask;
                proof {
                    lemma_mask_index(w);
                }
                let v = encrypt(kk, self.qs[i as usize]);
                self.qs.set(i as usize, v);
            } else {
                w = w >> 1;
                let i1 = w & mask;
                proof {
                    lemma_mask_index(w);
                }
                w = w >> (LG2_N as W);
                let i2 = w & mask;
                proof {
                    lemma_mask_index(w);
                }
                let a = self.qs[i1 as usize];
                let b = self.qs[i2 as usize];
                self.qs.set(i1 as usize, b);
                self.qs.set(i2 as usize, a);
            }
            p = p_next;
            proof {
                assert(self.qs@ =~= spec_step_iter(st.0, st.1).0);
            }
            it = it + 1;
        }
        let a = self.qs[0];
        let b = self.qs[p as usize];
        self.qs.set(0, b);
        self.qs.set(p as usize, a);
        assert(self.qs@ =~= spec_step(qs0));
    }
}

} // verus!
