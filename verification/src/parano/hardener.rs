//! The hardener: a memory-hard key derivation built on the keyed
//! transform and a table of `N` blocks walked by data-dependent pointers.

use vstd::prelude::*;

use super::transform::{spec_f, spec_xor_block, xor_block, Transform};
use super::{Block, Key, Q, H, N, W};

verus! {

/// The all-zero block.
pub open spec fn zero_block() -> Block {
    [[0, 0, 0, 0], [0, 0, 0, 0]]
}

/// `xy` with `r[k] ^ i` added (wrapping) to word `k` of both halves.
pub open spec fn spec_init_mix(xy: Block, r: Q, i: W) -> Block {
    [
        [
            xy[0][0].wrapping_add(r[0] ^ i),
            xy[0][1].wrapping_add(r[1] ^ i),
            xy[0][2].wrapping_add(r[2] ^ i),
            xy[0][3].wrapping_add(r[3] ^ i),
        ],
        [
            xy[1][0].wrapping_add(r[0] ^ i),
            xy[1][1].wrapping_add(r[1] ^ i),
            xy[1][2].wrapping_add(r[2] ^ i),
            xy[1][3].wrapping_add(r[3] ^ i),
        ],
    ]
}

/// The chaining block and the first `n` table entries produced by
/// (re-)initialisation with key `k` and random value `r`: each entry is
/// the transform of the previous one, mixed with `r` and its index.
pub open spec fn spec_init_chain(k: Key, r: Q, n: nat) -> (Block, Seq<Block>)
    decreases n,
{
    if n == 0 {
        (zero_block(), Seq::empty())
    } else {
        let prev = spec_init_chain(k, r, (n - 1) as nat);
        let xy = spec_f(k, spec_init_mix(prev.0, r, (n - 1) as W));
        (xy, prev.1.push(xy))
    }
}

/// The table after (re-)initialisation with key `k` and random value `r`.
pub open spec fn spec_init_table(k: Key, r: Q) -> Seq<Block> {
    spec_init_chain(k, r, N as nat).1
}

proof fn lemma_init_chain_len(k: Key, r: Q, n: nat)
    ensures
        spec_init_chain(k, r, n).1.len() == n,
    decreases n,
{
    if n > 0 {
        lemma_init_chain_len(k, r, (n - 1) as nat);
    }
}

/// The table after initialisation holds `N` blocks.
pub proof fn lemma_init_table_len(k: Key, r: Q)
    ensures
        spec_init_table(k, r).len() == N,
{
    lemma_init_chain_len(k, r, N as nat);
}

/// The sequence `s` with entries `i` and `j` exchanged.
pub open spec fn seq_swap(s: Seq<Block>, i: int, j: int) -> Seq<Block> {
    s.update(i, s[j]).update(j, s[i])
}

/// One pointer-chasing iteration of a hardener step, on the table, the
/// running exclusive or of the visited entries, and the current pointer.
/// The visited entry selects, by its low bit, either to transform one
/// entry in place or to exchange two entries, and gives the next pointer.
pub open spec fn spec_step_iter(k: Key, qs: Seq<Block>, tot: Block, p: W) -> (
    Seq<Block>,
    Block,
    W,
) {
    let qsp = qs[p as int];
    let tot2 = spec_xor_block(tot, qsp);
    let w = qsp[0][0];
    let p_next = qsp[0][1] & 4095;
    let w1 = w >> 1;
    if w & 1 == 0 {
        let i = (w1 & 4095) as int;
        (qs.update(i, spec_f(k, qs[i])), tot2, p_next)
    } else {
        let i1 = (w1 & 4095) as int;
        let i2 = ((w1 >> 12) & 4095) as int;
        (seq_swap(qs, i1, i2), tot2, p_next)
    }
}

/// The state after `n` pointer-chasing iterations starting from the
/// first table entry.
pub open spec fn spec_step_loop(k: Key, qs: Seq<Block>, n: nat) -> (Seq<Block>, Block, W)
    decreases n,
{
    if n == 0 {
        (qs, qs[0], qs[0][0][0] & 4095)
    } else {
        let st = spec_step_loop(k, qs, (n - 1) as nat);
        spec_step_iter(k, st.0, st.1, st.2)
    }
}

/// The table after one hardener step: `H` iterations, then the last
/// visited pointer's entry moves to the front and absorbs the running
/// exclusive or.
pub open spec fn spec_step(k: Key, qs: Seq<Block>) -> Seq<Block> {
    let st = spec_step_loop(k, qs, H as nat);
    let s = seq_swap(st.0, 0, st.2 as int);
    s.update(0, spec_xor_block(s[0], st.1))
}

proof fn lemma_step_loop_len(k: Key, qs: Seq<Block>, n: nat)
    requires
        qs.len() == N,
    ensures
        spec_step_loop(k, qs, n).0.len() == N,
        spec_step_loop(k, qs, n).2 < N,
    decreases n,
{
    if n == 0 {
        lemma_mask_index(qs[0][0][0]);
    } else {
        lemma_step_loop_len(k, qs, (n - 1) as nat);
        let st = spec_step_loop(k, qs, (n - 1) as nat);
        let w = st.0[st.2 as int][0][0];
        lemma_mask_index(st.0[st.2 as int][0][1]);
        lemma_mask_index(w >> 1);
        lemma_mask_index((w >> 1) >> 12);
    }
}

/// A hardener step keeps the table size.
pub proof fn lemma_step_len(k: Key, qs: Seq<Block>)
    requires
        qs.len() == N,
    ensures
        spec_step(k, qs).len() == N,
{
    lemma_step_loop_len(k, qs, H as nat);
}

/// Masking with `N - 1` gives a table index.
pub proof fn lemma_mask_index(x: u64)
    ensures
        x & 4095 < 4096,
{
    assert(x & 4095 < 4096) by (bit_vector);
}

/// A hardener step starts its pointer chase at entry `qs[0][0][0] mod 4096`
/// with the running exclusive or equal to the first entry: the first
/// iteration visits that entry, folds it into the running value, and goes on
/// at the second word of its first half, modulo 4096.
pub proof fn lemma_step_start(k: Key, qs: Seq<Block>)
    requires
        qs.len() == N,
    ensures
        spec_step_loop(k, qs, 1) == spec_step_iter(k, qs, qs[0], qs[0][0][0] % 4096),
        spec_step_loop(k, qs, 1).1 == spec_xor_block(qs[0], qs[(qs[0][0][0] % 4096) as int]),
        spec_step_loop(k, qs, 1).2 == qs[(qs[0][0][0] % 4096) as int][0][1] % 4096,
{
    let x = qs[0][0][0];
    assert(x & 4095 == x % 4096) by (bit_vector);
    let y = qs[(x % 4096) as int][0][1];
    assert(y & 4095 == y % 4096) by (bit_vector);
    assert(spec_step_loop(k, qs, 0) == (qs, qs[0], x & 4095));
    assert(spec_step_loop(k, qs, 1) == spec_step_iter(k, qs, qs[0], x & 4095));
}

/// A hardener is a key derivation method.
pub struct Hardener {
    tr: Transform,
    qs: Vec<Block>,
}

impl Hardener {
    /// The key of the hardener's transform.
    pub closed spec fn key(&self) -> Key {
        self.tr.key()
    }

    /// The hardener's table.
    pub closed spec fn table(&self) -> Seq<Block> {
        self.qs@
    }

    /// The table holds exactly `N` blocks.
    pub open spec fn wf(&self) -> bool {
        self.table().len() == N
    }

    /// The derived key: the second half of the first table entry.
    pub open spec fn spec_get(&self) -> Key {
        self.table()[0][1]
    }

    /// Create a new hardener using the given transform and random value.
    pub fn new(tr: Transform, r: Q) -> (h: Self)
        ensures
            h.wf(),
            h.key() == tr.key(),
            h.table() == spec_init_table(tr.key(), r),
    {
        let qs = vec![[[0u64;4];2]; N];
        let mut this = Self { tr, qs };
        this.init(r);
        this
    }

    /// Re-key and re-initialize this hardener.
    pub fn rekey(&mut self, k: Key, r: Q)
        requires
            old(self).wf(),
        ensures
            final(self).wf(),
            final(self).key() == k,
            final(self).table() == spec_init_table(k, r),
    {
        self.tr.rekey(k);
        self.init(r);
    }

    /// (Re-)initialize the hardener with a given random value.
    pub fn init(&mut self, r: Q)
        requires
            old(self).wf(),
        ensures
            final(self).wf(),
            final(self).key() == old(self).key(),
            final(self).table() == spec_init_table(old(self).key(), r),
    {
        let ghost k = self.tr.key();
        let ghost old_qs = self.qs@;
        let mut xy: Block = [[0u64, 0, 0, 0], [0, 0, 0, 0]];
        assert(xy =~= zero_block());
        let mut i: usize = 0;
        while i < N
            invariant
                0 <= i <= N,
                self.tr.key() == k,
                self.qs@.len() == N,
                old_qs.len() == N,
                (xy, self.qs@.take(i as int)) == spec_init_chain(k, r, i as nat),
            decreases N - i,
        {
            let ghost xy0 = xy;
            let iw = i as W;
            let mut j: usize = 0;
            while j < 2
                invariant
                    0 <= j <= 2,
                    forall|a: int, b: int|
                        0 <= a < j && 0 <= b < 4 ==> xy[a][b] == #[trigger] xy0[a][b].wrapping_add(
                            r[b] ^ iw,
                        ),
                    forall|a: int, b: int| j <= a < 2 && 0 <= b < 4 ==> xy[a][b] == xy0[a][b],
                decreases 2 - j,
            {
                let mut row = xy[j];
                let mut m: usize = 0;
                while m < 4
                    invariant
                        0 <= j < 2,
                        0 <= m <= 4,
                        forall|b: int|
                            0 <= b < m ==> row[b] == #[trigger] xy0[j as int][b].wrapping_add(
                                r[b] ^ iw,
                            ),
                        forall|b: int| m <= b < 4 ==> row[b] == xy0[j as int][b],
                    decreases 4 - m,
                {
                    row[m] = row[m].wrapping_add(r[m] ^ iw);
                    m = m + 1;
                }
                xy[j] = row;
                j = j + 1;
            }
            assert(xy =~= spec_init_mix(xy0, r, iw)) by {
                assert(xy[0] =~= spec_init_mix(xy0, r, iw)[0]);
                assert(xy[1] =~= spec_init_mix(xy0, r, iw)[1]);
            }
            xy = self.tr.transform(xy);
            self.qs.set(i, xy);
            proof {
                let prev = spec_init_chain(k, r, i as nat);
                assert(self.qs@.take(i + 1) =~= prev.1.push(xy));
            }
            i = i + 1;
        }
        assert(self.qs@.take(N as int) =~= self.qs@);
    }

    /// Get the derived key.
    pub fn get(&self) -> (k: Key)
        requires
            self.wf(),
        ensures
            k == self.spec_get(),
    {
        self.qs[0][1]
    }

    /// Step the hardener.
    pub fn step(&mut self)
        requires
            old(self).wf(),
        ensures
            final(self).wf(),
            final(self).key() == old(self).key(),
            final(self).table() == spec_step(old(self).key(), old(self).table()),
    {
        let ghost k = self.tr.key();
        let ghost qs0 = self.qs@;
        let mask: W = (N - 1) as W;
        let mut qs_tot = self.qs[0];
        let mut p: W = qs_tot[0][0] & mask;
        proof {
            lemma_mask_index(qs_tot[0][0]);
        }
        let mut it: usize = 0;
        while it < H
            invariant
                0 <= it <= H,
                mask == 4095,
                self.tr.key() == k,
                self.qs@.len() == N,
                p < N,
                (self.qs@, qs_tot, p) == spec_step_loop(k, qs0, it as nat),
            decreases H - it,
        {
            let ghost st = (self.qs@, qs_tot, p);
            let qsp = self.qs[p as usize];
            qs_tot = xor_block(qs_tot, qsp);
            let mut w = self.qs[p as usize][0][0];
            let p_next = self.qs[p as usize][0][1] & mask;
            proof {
                lemma_mask_index(qsp[0][1]);
            }
            if w & 1 == 0 {
                w = w >> 1;
                let i = w & mask;
                proof {
                    lemma_mask_index(w);
                }
                let v = self.tr.transform(self.qs[i as usize]);
                self.qs.set(i as usize, v);
            } else {
                w = w >> 1;
                let i1 = w & mask;
                proof {
                    lemma_mask_index(w);
                }
                w = w >> (super::LG2_N as W);
                let i2 = w & mask;
                proof {
                    lemma_mask_index(w);
                }
                let a = self.qs[i1 as usize];
                let b = self.qs[i2 as usize];
                self.qs.set(i1 as usize, b);
                self.qs.set(i2 as usize, a);
            }
            p = p_next;
            proof {
                assert(self.qs@ =~= spec_step_iter(k, st.0, st.1, st.2).0);
            }
            it = it + 1;
        }
        let a = self.qs[0];
        let b = self.qs[p as usize];
        self.qs.set(0, b);
        self.qs.set(p as usize, a);
        let front = xor_block(self.qs[0], qs_tot);
        self.qs.set(0, front);
        proof {
            let st = spec_step_loop(k, qs0, H as nat);
            assert(self.qs@ =~= spec_step(k, qs0));
        }
    }
}

} // verus!
