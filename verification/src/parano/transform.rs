//! The keyed block transform: a 128-round Feistel construction whose round
//! function is a key-driven sequence of word mixers.

use vstd::prelude::*;

use super::{Block, Key, Q, R, W};

verus! {

// ---------------------------------------------------------------------
// Word-level primitives
// ---------------------------------------------------------------------

/// Left rotation of a 64-bit word by `n` bits (`n < 64`).
pub open spec fn rotl(x: u64, n: u64) -> u64
    recommends
        n < 64,
{
    if n == 0 {
        x
    } else {
        (x << n) | (x >> (64 - n))
    }
}

/// Right rotation of a 64-bit word by `n` bits (`n < 64`).
pub open spec fn rotr(x: u64, n: u64) -> u64
    recommends
        n < 64,
{
    if n == 0 {
        x
    } else {
        (x >> n) | (x << (64 - n))
    }
}

fn rotate_left(x: u64, n: u64) -> (r: u64)
    requires
        n < 64,
    ensures
        r == rotl(x, n),
{
    if n == 0 {
        x
    } else {
        (x << n) | (x >> (64 - n))
    }
}

fn rotate_right(x: u64, n: u64) -> (r: u64)
    requires
        n < 64,
    ensures
        r == rotr(x, n),
{
    if n == 0 {
        x
    } else {
        (x >> n) | (x << (64 - n))
    }
}

// ---------------------------------------------------------------------
// Quad-word mixers
// ---------------------------------------------------------------------

/// One mixer, selected by `z mod 11`, applied to the quad `[a, b, c, d]`.
pub open spec fn spec_f1(z: W, q: Q) -> Q {
    let a = q[0];
    let b = q[1];
    let c = q[2];
    let d = q[3];
    let s = z % 11;
    if s == 0 {
        [a, b, c, d]
    } else if s == 1 {
        [b, c, d, a]
    } else if s == 2 {
        [c, d, a, b]
    } else if s == 3 {
        [d, a, b, c]
    } else if s == 4 {
        [b, a, c, d]
    } else if s == 5 {
        [a ^ b, b ^ c, c ^ d, d ^ a]
    } else if s == 6 {
        [a.wrapping_add(b), b.wrapping_add(c), c.wrapping_add(d), d.wrapping_add(a)]
    } else if s == 7 {
        [a.wrapping_sub(b), b.wrapping_sub(c), c.wrapping_sub(d), d.wrapping_sub(a)]
    } else if s == 8 {
        [
            a.wrapping_mul(b) ^ c,
            b.wrapping_mul(c) ^ d,
            c.wrapping_mul(d) ^ a,
            d.wrapping_mul(a) ^ b,
        ]
    } else if s == 9 {
        [rotl(a, b & 63), rotl(b, c & 63), rotl(c, d & 63), rotl(d, a & 63)]
    } else {
        [rotl(a, 7), rotl(b, 19), rotl(c, 41), rotl(d, 53)]
    }
}

/// The mixer depends on `z` only through `z mod 11`, and is defined for
/// every `z` and `q`.
pub proof fn lemma_f1_mod11(z: W, q: Q)
    ensures
        spec_f1(z, q) == spec_f1(z % 11, q),
{
    assert((z % 11) % 11 == z % 11) by (nonlinear_arith);
}

/// Word-wise exclusive or of two quads.
pub open spec fn spec_xor(q: Q, r: Q) -> Q {
    [q[0] ^ r[0], q[1] ^ r[1], q[2] ^ r[2], q[3] ^ r[3]]
}

/// Word-wise exclusive or of two blocks.
pub open spec fn spec_xor_block(q: Block, r: Block) -> Block {
    [spec_xor(q[0], r[0]), spec_xor(q[1], r[1])]
}

/// The mixers selected by the base-11 digits of `z`, least significant
/// digit first, applied in turn to `q`.
pub open spec fn spec_f2(z: W, q: Q) -> Q
    decreases z,
{
    if z == 0 {
        q
    } else {
        spec_f2(z / 11, spec_f1(z, q))
    }
}

/// Two words derived from a key quad by modular multiplication,
/// rotation and addition.
pub open spec fn spec_f3(q: Q) -> [W; 2] {
    [
        rotl(
            q[0].wrapping_mul(q[1].wrapping_add(1537228672809128983)) % 4611686018427386911,
            37,
        ).wrapping_add(2305843009213693487),
        rotr(
            q[2].wrapping_mul(q[3].wrapping_add(54255129628557493)) % 4611686018427385831,
            37,
        ).wrapping_add(922337203685477171),
    ]
}

fn f1(z: W, q: Q) -> (r: Q)
    ensures
        r == spec_f1(z, q),
{
    let a = q[0];
    let b = q[1];
    let c = q[2];
    let d = q[3];
    let s = z % 11;
    if s == 0 {
        [a, b, c, d]
    } else if s == 1 {
        [b, c, d, a]
    } else if s == 2 {
        [c, d, a, b]
    } else if s == 3 {
        [d, a, b, c]
    } else if s == 4 {
        [b, a, c, d]
    } else if s == 5 {
        [a ^ b, b ^ c, c ^ d, d ^ a]
    } else if s == 6 {
        [a.wrapping_add(b), b.wrapping_add(c), c.wrapping_add(d), d.wrapping_add(a)]
    } else if s == 7 {
        [a.wrapping_sub(b), b.wrapping_sub(c), c.wrapping_sub(d), d.wrapping_sub(a)]
    } else if s == 8 {
        [
            a.wrapping_mul(b) ^ c,
            b.wrapping_mul(c) ^ d,
            c.wrapping_mul(d) ^ a,
            d.wrapping_mul(a) ^ b,
        ]
    } else if s == 9 {
        proof {
            assert((b & 63) < 64 && (c & 63) < 64 && (d & 63) < 64 && (a & 63) < 64)
                by (bit_vector);
        }
        [
            rotate_left(a, b & 63),
            rotate_left(b, c & 63),
            rotate_left(c, d & 63),
            rotate_left(d, a & 63),
        ]
    } else {
        [rotate_left(a, 7), rotate_left(b, 19), rotate_left(c, 41), rotate_left(d, 53)]
    }
}

/// Word-wise exclusive or of two quads.
pub(crate) fn xor(q: Q, r: Q) -> (res: Q)
    ensures
        res == spec_xor(q, r),
{
    let mut q = q;
    let ghost q0 = q;
    for i in 0..4
        invariant
            forall|j: int| 0 <= j < i ==> q[j] == q0[j] ^ r[j],
            forall|j: int| i <= j < 4 ==> q[j] == q0[j],
    {
        q[i] = q[i] ^ r[i];
    }
    assert(q =~= spec_xor(q0, r));
    q
}

/// Word-wise exclusive or of two blocks.
pub(crate) fn xor_block(q: Block, r: Block) -> (res: Block)
    ensures
        res == spec_xor_block(q, r),
{
    [xor(q[0], r[0]), xor(q[1], r[1])]
}

fn f2(z: W, q0: Q) -> (r: Q)
    ensures
        r == spec_f2(z, q0),
{
    let ghost z0 = z;
    let mut z = z;
    let mut q = q0;
    while z > 0
        invariant
            spec_f2(z, q) == spec_f2(z0, q0),
        decreases z,
    {
        q = f1(z, q);
        z = z / 11;
    }
    q
}

fn f3(q: Q) -> (r: [W; 2])
    ensures
        r == spec_f3(q),
{
    let a = q[0];
    let b = q[1];
    let c = q[2];
    let d = q[3];
    [
        rotate_left(
            a.wrapping_mul(b.wrapping_add(1537228672809128983)) % 4611686018427386911,
            37,
        ).wrapping_add(2305843009213693487),
        rotate_right(
            c.wrapping_mul(d.wrapping_add(54255129628557493)) % 4611686018427385831,
            37,
        ).wrapping_add(922337203685477171),
    ]
}


// ---------------------------------------------------------------------
// The Feistel rounds
// ---------------------------------------------------------------------

/// The key at the start of a round, advanced by the round constants.
pub open spec fn spec_key_advance(k: Key) -> Key {
    [
        k[0].wrapping_add(0x3e304f694602defe),
        k[1].wrapping_add(0x750032b57a2d17b1),
        k[2].wrapping_add(0xff2afee4acb8d237),
        k[3].wrapping_add(0x0e96955b0bb60320),
    ]
}

/// The key schedule step: the key of the next round, derived from the
/// advanced key of this round.
pub open spec fn spec_key_next(k1: Key) -> Key {
    let s = spec_f3(k1);
    [s[0] ^ k1[1], s[1].wrapping_add(k1[2]), s[1] ^ k1[3], s[0].wrapping_add(k1[0])]
}

/// One Feistel round: `x[1]` is whitened with the advanced key, the
/// round function of it is folded into `x[0]`, and the halves swap.
/// Returns the key of the next round and the new block.
pub open spec fn spec_round(k: Key, x: Block) -> (Key, Block) {
    let k1 = spec_key_advance(k);
    let x1 = spec_xor(x[1], k1);
    let x0 = spec_xor(x[0], spec_f2(k1[0], x1));
    (spec_key_next(k1), [x1, x0])
}

/// The key and block after `n` rounds.
pub open spec fn spec_rounds(k: Key, x: Block, n: nat) -> (Key, Block)
    decreases n,
{
    if n == 0 {
        (k, x)
    } else {
        let kx = spec_rounds(k, x, (n - 1) as nat);
        spec_round(kx.0, kx.1)
    }
}

/// The keyed block transform: `R` Feistel rounds.
pub open spec fn spec_f(k: Key, x: Block) -> Block {
    spec_rounds(k, x, R as nat).1
}

/// Core function: transform a block under a key with a Feistel
/// construction.
pub(crate) fn f(k: Key, x: Block) -> (r: Block)
    ensures
        r == spec_f(k, x),
{
    let ghost k0 = k;
    let ghost x0 = x;
    let mut k = k;
    let mut x = x;
    for i in 0..R
        invariant
            (k, x) == spec_rounds(k0, x0, i as nat),
    {
        k[0] = k[0].wrapping_add(0x3e304f694602defe);
        k[1] = k[1].wrapping_add(0x750032b57a2d17b1);
        k[2] = k[2].wrapping_add(0xff2afee4acb8d237);
        k[3] = k[3].wrapping_add(0x0e96955b0bb60320);
        let mut x1 = x[1];
        for j in 0..4
            invariant
                forall|m: int| 0 <= m < j ==> x1[m] == x[1][m] ^ k[m],
                forall|m: int| j <= m < 4 ==> x1[m] == x[1][m],
        {
            x1[j] = x1[j] ^ k[j];
        }
        let c = f2(k[0], x1);
        let x0n = xor(x[0], c);
        let s = f3(k);
        proof {
            let kx = spec_rounds(k0, x0, i as nat);
            assert(k =~= spec_key_advance(kx.0));
            assert(x1 =~= spec_xor(x[1], k));
        }
        x = [x1, x0n];
        k = [s[0] ^ k[1], s[1].wrapping_add(k[2]), s[1] ^ k[3], s[0].wrapping_add(k[0])];
    }
    x
}

/// A keyed transform.
pub struct Transform {
    k: Key,
}

impl Transform {
    /// The key of this transform.
    pub closed spec fn key(&self) -> Key {
        self.k
    }

    /// Create a transform with the given key.
    pub fn new(k: Key) -> (r: Self)
        ensures
            r.key() == k,
    {
        Self { k }
    }

    /// Transform a block under this transform's key.
    pub fn transform(&self, x: Block) -> (r: Block)
        ensures
            r == spec_f(self.key(), x),
    {
        f(self.k, x)
    }

    /// Replace the key of this transform.
    pub fn rekey(&mut self, k: Key)
        ensures
            final(self).key() == k,
    {
        self.k = k;
    }
}

// ---------------------------------------------------------------------
// Invertibility of the transform
// ---------------------------------------------------------------------

/// The round key at the start of round `n` (the key schedule does not
/// depend on the block).
pub open spec fn spec_key_at(k: Key, n: nat) -> Key
    decreases n,
{
    if n == 0 {
        k
    } else {
        spec_key_next(spec_key_advance(spec_key_at(k, (n - 1) as nat)))
    }
}

/// Undo one Feistel round that started with key `k`.
pub open spec fn spec_round_inverse(k: Key, y: Block) -> Block {
    let k1 = spec_key_advance(k);
    [spec_xor(y[1], spec_f2(k1[0], y[0])), spec_xor(y[0], k1)]
}

/// Undo the first `n` rounds, last round first.
pub open spec fn spec_unrounds(k: Key, y: Block, n: nat) -> Block
    decreases n,
{
    if n == 0 {
        y
    } else {
        spec_unrounds(k, spec_round_inverse(spec_key_at(k, (n - 1) as nat), y), (n - 1) as nat)
    }
}

/// The inverse of the keyed transform.
pub open spec fn spec_f_inverse(k: Key, y: Block) -> Block {
    spec_unrounds(k, y, R as nat)
}

proof fn lemma_xor_twice(a: Q, b: Q)
    ensures
        spec_xor(spec_xor(a, b), b) == a,
{
    let a0 = a[0];
    let a1 = a[1];
    let a2 = a[2];
    let a3 = a[3];
    let b0 = b[0];
    let b1 = b[1];
    let b2 = b[2];
    let b3 = b[3];
    assert((a0 ^ b0) ^ b0 == a0 && (a1 ^ b1) ^ b1 == a1 && (a2 ^ b2) ^ b2 == a2 && (a3 ^ b3)
        ^ b3 == a3) by (bit_vector);
    assert(spec_xor(spec_xor(a, b), b) =~= a);
}

proof fn lemma_key_schedule(k: Key, x: Block, n: nat)
    ensures
        spec_rounds(k, x, n).0 == spec_key_at(k, n),
    decreases n,
{
    if n > 0 {
        lemma_key_schedule(k, x, (n - 1) as nat);
    }
}

proof fn lemma_round_inverse(k: Key, x: Block)
    ensures
        spec_round_inverse(k, spec_round(k, x).1) == x,
{
    let k1 = spec_key_advance(k);
    let x1 = spec_xor(x[1], k1);
    lemma_xor_twice(x[1], k1);
    lemma_xor_twice(x[0], spec_f2(k1[0], x1));
    assert(spec_round_inverse(k, spec_round(k, x).1) =~= x);
}

proof fn lemma_unrounds(k: Key, x: Block, n: nat)
    ensures
        spec_unrounds(k, spec_rounds(k, x, n).1, n) == x,
    decreases n,
{
    if n > 0 {
        let prev = spec_rounds(k, x, (n - 1) as nat);
        lemma_key_schedule(k, x, (n - 1) as nat);
        lemma_round_inverse(prev.0, prev.1);
        lemma_unrounds(k, x, (n - 1) as nat);
    }
}

/// The transform is a Feistel construction, so it can be undone:
/// applying the inverse to the transform of `x` under `k` gives back `x`.
pub proof fn lemma_transform_invertible(k: Key, x: Block)
    ensures
        spec_f_inverse(k, spec_f(k, x)) == x,
{
    lemma_unrounds(k, x, R as nat);
}

/// Under a fixed key, distinct blocks transform to distinct blocks.
pub proof fn lemma_transform_injective(k: Key, x: Block, y: Block)
    requires
        spec_f(k, x) == spec_f(k, y),
    ensures
        x == y,
{
    lemma_transform_invertible(k, x);
    lemma_transform_invertible(k, y);
}

} // verus!
