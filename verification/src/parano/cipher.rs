//! The stream cipher: a traffic transform in counter mode whose key is
//! re-derived from the hardener every `T` blocks.

use vstd::prelude::*;

use super::hardener::{spec_init_table, spec_step, Hardener};
use super::transform::{spec_f, Transform};
use super::utils::{
    lemma_quad_from_le_word, lemma_quad_le_word, spec_le_value, lemma_quad_from_le_roundtrip, lemma_quad_le_roundtrip, read_quad, spec_quad_from_le,
    spec_quad_le, write_quad, ReadError,
};
use super::{Block, Key, Q, B, N, T};

verus! {

// ---------------------------------------------------------------------
// The cipher state header
// ---------------------------------------------------------------------

/// The public per-message state: two random values for the key
/// derivation and the initial keystream position.
#[derive(Debug, PartialEq, Eq)]
pub struct CipherState {
    r0: Q,
    r1: Q,
    p0: Q,
    p1: Q,
}

impl View for CipherState {
    type V = (Q, Q, Q, Q);

    closed spec fn view(&self) -> (Q, Q, Q, Q) {
        (self.r0, self.r1, self.p0, self.p1)
    }
}

/// The 128-byte encoding of a cipher state: `r0`, `r1`, `p0`, `p1`,
/// each as four little-endian words.
pub open spec fn spec_state_le(v: (Q, Q, Q, Q)) -> Seq<u8> {
    spec_quad_le(v.0) + spec_quad_le(v.1) + spec_quad_le(v.2) + spec_quad_le(v.3)
}

/// The cipher state whose encoding is the first 128 bytes of `s`.
pub open spec fn spec_state_from_le(s: Seq<u8>) -> (Q, Q, Q, Q)
    recommends
        s.len() >= 128,
{
    (
        spec_quad_from_le(s.subrange(0, 32)),
        spec_quad_from_le(s.subrange(32, 64)),
        spec_quad_from_le(s.subrange(64, 96)),
        spec_quad_from_le(s.subrange(96, 128)),
    )
}

/// Decoding the encoding of a cipher state gives the state back.
pub proof fn lemma_state_roundtrip(v: (Q, Q, Q, Q))
    ensures
        spec_state_from_le(spec_state_le(v)) == v,
{
    let s = spec_state_le(v);
    assert(s.subrange(0, 32) =~= spec_quad_le(v.0));
    assert(s.subrange(32, 64) =~= spec_quad_le(v.1));
    assert(s.subrange(64, 96) =~= spec_quad_le(v.2));
    assert(s.subrange(96, 128) =~= spec_quad_le(v.3));
    lemma_quad_le_roundtrip(v.0);
    lemma_quad_le_roundtrip(v.1);
    lemma_quad_le_roundtrip(v.2);
    lemma_quad_le_roundtrip(v.3);
}

/// Encoding the decoding of 128 bytes gives the bytes back.
pub proof fn lemma_state_bytes_roundtrip(s: Seq<u8>)
    requires
        s.len() == 128,
    ensures
        spec_state_le(spec_state_from_le(s)) == s,
{
    lemma_quad_from_le_roundtrip(s.subrange(0, 32));
    lemma_quad_from_le_roundtrip(s.subrange(32, 64));
    lemma_quad_from_le_roundtrip(s.subrange(64, 96));
    lemma_quad_from_le_roundtrip(s.subrange(96, 128));
    assert(spec_state_le(spec_state_from_le(s)) =~= s);
}

/// The header layout, read side: word `j` of `r0`, `r1`, `p0` and `p1` is
/// the little-endian value of the eight bytes at `8j`, `32 + 8j`,
/// `64 + 8j` and `96 + 8j`.
pub proof fn lemma_state_read_layout(s: Seq<u8>)
    requires
        s.len() >= 128,
    ensures
        forall|j: int|
            0 <= j < 4 ==> #[trigger] spec_state_from_le(s).0[j] == spec_le_value(s, 8 * j)
                && spec_state_from_le(s).1[j] == spec_le_value(s, 32 + 8 * j)
                && spec_state_from_le(s).2[j] == spec_le_value(s, 64 + 8 * j)
                && spec_state_from_le(s).3[j] == spec_le_value(s, 96 + 8 * j),
{
    assert forall|j: int| 0 <= j < 4 implies #[trigger] spec_state_from_le(s).0[j]
        == spec_le_value(s, 8 * j) && spec_state_from_le(s).1[j] == spec_le_value(s, 32 + 8 * j)
        && spec_state_from_le(s).2[j] == spec_le_value(s, 64 + 8 * j) && spec_state_from_le(
        s,
    ).3[j] == spec_le_value(s, 96 + 8 * j) by {
        lemma_quad_from_le_word(s, 0, j);
        lemma_quad_from_le_word(s, 32, j);
        lemma_quad_from_le_word(s, 64, j);
        lemma_quad_from_le_word(s, 96, j);
    }
}

/// The header layout, write side: the encoding has 128 bytes, and the
/// eight bytes at `8j`, `32 + 8j`, `64 + 8j` and `96 + 8j` have word `j`
/// of `r0`, `r1`, `p0` and `p1` as their little-endian value.
pub proof fn lemma_state_write_layout(v: (Q, Q, Q, Q))
    ensures
        spec_state_le(v).len() == 128,
        forall|j: int|
            0 <= j < 4 ==> #[trigger] spec_le_value(spec_state_le(v), 8 * j) == v.0[j]
                && spec_le_value(spec_state_le(v), 32 + 8 * j) == v.1[j] && spec_le_value(
                spec_state_le(v),
                64 + 8 * j,
            ) == v.2[j] && spec_le_value(spec_state_le(v), 96 + 8 * j) == v.3[j],
{
    let e = spec_state_le(v);
    assert forall|j: int| 0 <= j < 4 implies #[trigger] spec_le_value(e, 8 * j) == v.0[j]
        && spec_le_value(e, 32 + 8 * j) == v.1[j] && spec_le_value(e, 64 + 8 * j) == v.2[j]
        && spec_le_value(e, 96 + 8 * j) == v.3[j] by {
        lemma_quad_le_word(v.0, j);
        lemma_quad_le_word(v.1, j);
        lemma_quad_le_word(v.2, j);
        lemma_quad_le_word(v.3, j);
        let q0 = spec_quad_le(v.0);
        let q1 = spec_quad_le(v.1);
        let q2 = spec_quad_le(v.2);
        let q3 = spec_quad_le(v.3);
        assert(spec_le_value(e, 8 * j) == spec_le_value(q0, 8 * j));
        assert(spec_le_value(e, 32 + 8 * j) == spec_le_value(q1, 8 * j));
        assert(spec_le_value(e, 64 + 8 * j) == spec_le_value(q2, 8 * j));
        assert(spec_le_value(e, 96 + 8 * j) == spec_le_value(q3, 8 * j));
    }
}

impl CipherState {
    /// Read a cipher state from `input` at the cursor `at`, advancing it
    /// by 128 bytes; fails when fewer than 128 bytes are left.
    #[verifier::rlimit(40)]
    pub fn read(input: &[u8], at: &mut usize) -> (res: Result<Self, ReadError>)
        ensures
            *old(at) <= input@.len() && input@.len() - *old(at) >= 128 ==> (res matches Ok(s)
                && s@ == spec_state_from_le(input@.subrange(*old(at) as int, *old(at) + 128))
                && *final(at) == *old(at) + 128),
            !(*old(at) <= input@.len() && input@.len() - *old(at) >= 128) ==> res == Err::<
                Self,
                ReadError,
            >(ReadError::UnexpectedEof),
    {
        if *at > input.len() || input.len() - *at < 128 {
            return Err(ReadError::UnexpectedEof);
        }
        let ghost a0 = *at;
        let r0 = read_quad(input, at);
        let r1 = read_quad(input, at);
        let p0 = read_quad(input, at);
        let p1 = read_quad(input, at);
        match (r0, r1, p0, p1) {
            (Ok(r0), Ok(r1), Ok(p0), Ok(p1)) => {
                proof {
                    let s = input@.subrange(a0 as int, a0 + 128);
                    assert(s.subrange(0, 32) =~= input@.subrange(a0 as int, a0 + 32));
                    assert(s.subrange(32, 64) =~= input@.subrange(a0 + 32, a0 + 64));
                    assert(s.subrange(64, 96) =~= input@.subrange(a0 + 64, a0 + 96));
                    assert(s.subrange(96, 128) =~= input@.subrange(a0 + 96, a0 + 128));
                }
                Ok(Self { r0, r1, p0, p1 })
            },
            _ => Err(ReadError::UnexpectedEof),
        }
    }

    /// Append the 128-byte encoding of this state to `output`.
    pub fn write(&self, output: &mut Vec<u8>)
        ensures
            final(output)@ == old(output)@ + spec_state_le(self@),
    {
        let ghost o0 = output@;
        write_quad(output, self.r0);
        write_quad(output, self.r1);
        write_quad(output, self.p0);
        write_quad(output, self.p1);
        assert(output@ =~= o0 + spec_state_le(self@));
    }
}

// ---------------------------------------------------------------------
// The keystream model
// ---------------------------------------------------------------------

/// The abstract state of a cipher: the hardener's key and table, the
/// keystream position, the current portion of keystream, the position in
/// it, the number of blocks made with the current traffic key, and that
/// key.
pub struct KeystreamState {
    pub hardener_key: Key,
    pub table: Seq<Block>,
    pub pos: Block,
    pub stream: Seq<u8>,
    pub i: nat,
    pub t: nat,
    pub traffic_key: Key,
}

/// The 64 little-endian bytes of a block, quad 0 first.
pub open spec fn spec_block_le(y: Block) -> Seq<u8> {
    spec_quad_le(y[0]) + spec_quad_le(y[1])
}

/// A cipher state is well formed: the hardener table holds `N` blocks,
/// the position in the portion is at most `B`, and the traffic key has
/// been used for fewer than `T` blocks.
pub open spec fn spec_keystream_wf(s: KeystreamState) -> bool {
    &&& s.table.len() == N
    &&& s.stream.len() == B
    &&& s.i <= B
    &&& s.t < T
}

/// Make the next portion of keystream: count the block against the
/// traffic key, re-derive that key from a fresh hardener step once it is
/// spent, transform the position, and advance the position.
pub open spec fn spec_refill(s: KeystreamState) -> KeystreamState {
    let t1 = s.t + 1;
    let spent = t1 == T;
    let table = if spent {
        spec_step(s.hardener_key, s.table)
    } else {
        s.table
    };
    let traffic_key = if spent {
        table[0][1]
    } else {
        s.traffic_key
    };
    KeystreamState {
        hardener_key: s.hardener_key,
        table,
        pos: [[(s.pos[0][0] + 1) as u64, s.pos[0][1], s.pos[0][2], s.pos[0][3]], s.pos[1]],
        stream: spec_block_le(spec_f(traffic_key, s.pos)),
        i: 0,
        t: if spent {
            0
        } else {
            t1
        },
        traffic_key,
    }
}

/// The next keystream byte, and the state after it.
pub open spec fn spec_next(s: KeystreamState) -> (KeystreamState, u8) {
    let s1 = if s.i == B {
        spec_refill(s)
    } else {
        s
    };
    (KeystreamState { i: s1.i + 1, ..s1 }, s1.stream[s1.i as int])
}

/// The next `n` keystream bytes, and the state after them.
pub open spec fn spec_keystream(s: KeystreamState, n: nat) -> (KeystreamState, Seq<u8>)
    decreases n,
{
    if n == 0 {
        (s, Seq::empty())
    } else {
        let prev = spec_keystream(s, (n - 1) as nat);
        let nb = spec_next(prev.0);
        (nb.0, prev.1.push(nb.1))
    }
}

/// Byte-wise exclusive or of `a` with the first `a.len()` bytes of `k`.
pub open spec fn spec_xor_bytes(a: Seq<u8>, k: Seq<u8>) -> Seq<u8> {
    Seq::new(a.len(), |m: int| a[m] ^ k[m])
}

/// The number of keystream blocks made while producing `n` bytes from
/// position `i` in the current portion.
pub open spec fn spec_blocks_needed(i: nat, n: nat) -> nat {
    if n == 0 {
        0
    } else {
        ((n + i - 1) / 64) as nat
    }
}

/// The position in the portion after producing `n` bytes from position
/// `i`.
pub open spec fn spec_index_after(i: nat, n: nat) -> nat {
    if n == 0 {
        i
    } else {
        (((i + n - 1) % 64) + 1) as nat
    }
}

/// The keystream position counter does not overflow while producing the
/// next `n` bytes.
pub open spec fn spec_counter_room(s: KeystreamState, n: nat) -> bool {
    s.pos[0][0] + spec_blocks_needed(s.i, n) <= u64::MAX
}

/// How the position in the portion and the block count move with one more
/// byte.
pub proof fn lemma_index_step(i: nat, j: nat)
    requires
        i <= 64,
    ensures
        spec_index_after(i, j) <= 64,
        spec_index_after(i, j) == 64 ==> spec_blocks_needed(i, j + 1) == spec_blocks_needed(i, j)
            + 1 && spec_index_after(i, j + 1) == 1,
        spec_index_after(i, j) < 64 ==> spec_blocks_needed(i, j + 1) == spec_blocks_needed(i, j)
            && spec_index_after(i, j + 1) == spec_index_after(i, j) + 1,
{
    if j > 0 {
        let m = (i + j - 1) as int;
        assert(m % 64 == 63 ==> (m + 1) / 64 == m / 64 + 1 && (m + 1) % 64 == 0)
            by (nonlinear_arith);
        assert(m % 64 < 63 ==> (m + 1) / 64 == m / 64 && (m + 1) % 64 == m % 64 + 1)
            by (nonlinear_arith);
        assert(m % 64 < 64) by (nonlinear_arith);
    } else {
        assert(i == 64 ==> (i + 0) / 64 == 1) by (nonlinear_arith);
        assert(i < 64 ==> i / 64 == 0 && i % 64 == i) by (nonlinear_arith);
    }
}

/// The block count grows with the number of bytes.
pub proof fn lemma_blocks_monotone(i: nat, j: nat, n: nat)
    requires
        j <= n,
    ensures
        spec_blocks_needed(i, j) <= spec_blocks_needed(i, n),
{
    if j > 0 {
        let a = (j + i - 1) as int;
        let b = (n + i - 1) as int;
        assert(0 <= a <= b ==> a / 64 <= b / 64) by (nonlinear_arith);
    }
}

/// Producing keystream keeps the state well formed, advances the
/// position in the portion modulo 64, and advances the position counter
/// by one per block made.
pub proof fn lemma_keystream_counter(s: KeystreamState, j: nat, n: nat)
    requires
        spec_keystream_wf(s),
        j <= n,
        spec_counter_room(s, n),
    ensures
        spec_keystream_wf(spec_keystream(s, j).0),
        spec_keystream(s, j).0.i == spec_index_after(s.i, j),
        spec_keystream(s, j).0.pos[0][0] == s.pos[0][0] + spec_blocks_needed(s.i, j),
        spec_keystream(s, j).1.len() == j,
    decreases j,
{
    if j > 0 {
        let jm = (j - 1) as nat;
        lemma_keystream_counter(s, jm, n);
        lemma_index_step(s.i, jm);
        lemma_blocks_monotone(s.i, j, n);
        let p = spec_keystream(s, jm).0;
        if p.i == B {
            let r = spec_refill(p);
            assert(spec_quad_le(spec_f(r.traffic_key, p.pos)[0]).len() == 32);
            assert(r.stream.len() == 64);
            if p.t + 1 == T {
                assert(spec_step(p.hardener_key, p.table).len() == N) by {
                    super::hardener::lemma_step_len(p.hardener_key, p.table);
                }
            }
        }
    }
}

/// Keystream production is consistent across calls: the first `a + b`
/// bytes are the first `a` bytes followed by the `b` bytes produced from
/// the state after them.
pub proof fn lemma_keystream_split(s: KeystreamState, a: nat, b: nat)
    ensures
        spec_keystream(s, a + b).0 == spec_keystream(spec_keystream(s, a).0, b).0,
        spec_keystream(s, a + b).1 == spec_keystream(s, a).1 + spec_keystream(
            spec_keystream(s, a).0,
            b,
        ).1,
    decreases b,
{
    if b > 0 {
        lemma_keystream_split(s, a, (b - 1) as nat);
        let mid = spec_keystream(s, a);
        let prev = spec_keystream(mid.0, (b - 1) as nat);
        assert(spec_keystream(s, a + b).1 =~= mid.1 + prev.1.push(spec_next(prev.0).1));
    }
}

/// Applying the same keystream twice gives the bytes back: the
/// transform is its own inverse.
pub proof fn lemma_xor_bytes_involution(a: Seq<u8>, k: Seq<u8>)
    requires
        k.len() >= a.len(),
    ensures
        spec_xor_bytes(spec_xor_bytes(a, k), k) == a,
{
    assert forall|m: int| 0 <= m < a.len() implies #[trigger] spec_xor_bytes(
        spec_xor_bytes(a, k),
        k,
    )[m] == a[m] by {
        let x = a[m];
        let y = k[m];
        assert((x ^ y) ^ y == x) by (bit_vector);
    }
    assert(spec_xor_bytes(spec_xor_bytes(a, k), k) =~= a);
}

/// The keystream of `n` bytes has `n` bytes.
pub proof fn lemma_keystream_len(s: KeystreamState, n: nat)
    ensures
        spec_keystream(s, n).1.len() == n,
    decreases n,
{
    if n > 0 {
        lemma_keystream_len(s, (n - 1) as nat);
    }
}

proof fn lemma_blocks_split(i: nat, a: nat, b: nat)
    requires
        i <= 64,
    ensures
        spec_blocks_needed(i, a) + spec_blocks_needed(spec_index_after(i, a), b)
            == spec_blocks_needed(i, a + b),
{
    if a > 0 && b > 0 {
        let m = (i + a - 1) as int;
        let bb = b as int;
        assert(m >= 0 && bb > 0 ==> m / 64 + (bb + m % 64) / 64 == (m + bb) / 64)
            by (nonlinear_arith);
    }
}

/// Transforming `a` and then `b` is transforming `a + b` at once: the
/// counter has room for both parts, the output is the two outputs one
/// after the other, and the cipher ends in the same state.
pub proof fn lemma_transform_chunks(s: KeystreamState, a: Seq<u8>, b: Seq<u8>)
    requires
        spec_keystream_wf(s),
        spec_counter_room(s, a.len() + b.len()),
    ensures
        spec_counter_room(s, a.len()),
        spec_keystream_wf(spec_keystream(s, a.len()).0),
        spec_counter_room(spec_keystream(s, a.len()).0, b.len()),
        spec_keystream(spec_keystream(s, a.len()).0, b.len()).0 == spec_keystream(
            s,
            a.len() + b.len(),
        ).0,
        spec_xor_bytes(a, spec_keystream(s, a.len()).1) + spec_xor_bytes(
            b,
            spec_keystream(spec_keystream(s, a.len()).0, b.len()).1,
        ) == spec_xor_bytes(a + b, spec_keystream(s, a.len() + b.len()).1),
{
    let n = a.len() + b.len();
    lemma_blocks_monotone(s.i, a.len(), n);
    lemma_keystream_counter(s, a.len(), n);
    lemma_blocks_split(s.i, a.len(), b.len());
    lemma_keystream_split(s, a.len(), b.len());
    let mid = spec_keystream(s, a.len());
    lemma_keystream_len(s, a.len());
    lemma_keystream_len(mid.0, b.len());
    assert(spec_xor_bytes(a, mid.1) + spec_xor_bytes(b, spec_keystream(mid.0, b.len()).1)
        =~= spec_xor_bytes(a + b, spec_keystream(s, n).1));
}

/// A message encrypted under a master key and a cipher state, sent behind
/// the encoded state, decrypts to itself: the receiver decodes the same
/// state, so creates a cipher with the same keystream, and applying it
/// again undoes the encryption.
pub proof fn lemma_message_roundtrip(k0: Key, v: (Q, Q, Q, Q), p: Seq<u8>)
    ensures
        spec_xor_bytes(
            spec_xor_bytes(p, spec_keystream(spec_cipher_new(k0, v), p.len()).1),
            spec_keystream(spec_cipher_new(k0, spec_state_from_le(spec_state_le(v))), p.len()).1,
        ) == p,
{
    lemma_state_roundtrip(v);
    lemma_keystream_len(spec_cipher_new(k0, v), p.len());
    lemma_xor_bytes_involution(p, spec_keystream(spec_cipher_new(k0, v), p.len()).1);
}

// ---------------------------------------------------------------------
// The cipher
// ---------------------------------------------------------------------

/// One step of processing a stream.
#[derive(Debug, Clone, Copy, PartialEq, Eq)]
pub enum StreamStep {
    /// The chunk was transformed in place and is to be written out; the
    /// number of bytes processed so far.
    Write(usize),
    /// The input has ended; the total number of bytes processed.
    Done(usize),
}

pub struct Cipher {
    /// The hardener
    h: Hardener,
    /// Position in keystream
    pos: Block,
    /// Current portion of keystream
    stream: [u8; B],
    /// Position in portion
    i: usize,
    /// Number of blocks until we have to rekey
    t: usize,
    /// The transform for the traffic
    tr: Transform,
}

impl View for Cipher {
    type V = KeystreamState;

    closed spec fn view(&self) -> KeystreamState {
        KeystreamState {
            hardener_key: self.h.key(),
            table: self.h.table(),
            pos: self.pos,
            stream: self.stream@,
            i: self.i as nat,
            t: self.t as nat,
            traffic_key: self.tr.key(),
        }
    }
}

/// The state of a freshly created cipher: the master key derives a
/// session key through the hardener with `r0`, the session key re-keys
/// the hardener with `r1`, and the hardener's first derived key becomes
/// the traffic key; the position is `[p0, p1]` and the next byte forces
/// a fresh portion.
pub open spec fn spec_cipher_new(k0: Key, st: (Q, Q, Q, Q)) -> KeystreamState {
    let k1 = spec_init_table(k0, st.0)[0][1];
    let table = spec_init_table(k1, st.1);
    KeystreamState {
        hardener_key: k1,
        table,
        pos: [st.2, st.3],
        stream: Seq::new(B as nat, |m: int| 0u8),
        i: B as nat,
        t: 0,
        traffic_key: table[0][1],
    }
}

impl Cipher {
    /// The cipher's invariant.
    pub open spec fn wf(&self) -> bool {
        spec_keystream_wf(self@)
    }

    /// Create a cipher from the master key and the message's state.
    pub fn new(k0: Key, state: CipherState) -> (c: Self)
        ensures
            c.wf(),
            c@ == spec_cipher_new(k0, state@),
    {
        let CipherState { r0, r1, p0, p1 } = state;
        let pos = [p0, p1];
        // Create a transform with the master key
        let tr = Transform::new(k0);
        // Create a hardener
        let mut h = Hardener::new(tr, r0);
        // Obtain the first derived (session) key.  We do not want to
        // use the master key
        let k1 = h.get();
        // Re-key the hardener
        h.rekey(k1, r1);
        // Get the first traffic key
        let k2 = h.get();
        // Create the traffic transformer
        let tr = Transform::new(k2);
        let stream = [0u8; B];
        proof {
            broadcast use vstd::array::group_array_axioms;

            assert(stream@ =~= Seq::new(B as nat, |m: int| 0u8));
        }
        Self {
            h,
            pos,
            tr,
            // Set the block position to maximum to force a
            // re-calculation on the first run
            i: B,
            stream,
            // The current key has been freshly generated
            t: 0,
        }
    }

    /// Make the next portion of keystream.
    fn refill(&mut self)
        requires
            old(self).wf(),
            old(self).i == B,
            old(self).pos[0][0] < u64::MAX,
        ensures
            final(self)@ == spec_refill(old(self)@),
            final(self).wf(),
    {
        let ghost s0 = self@;
        self.t = self.t + 1;
        if self.t == T {
            // This traffic key is spent
            // Compute a new traffic key using the hardener
            self.h.step();
            let k = self.h.get();
            // Re-key the traffic transform
            self.tr.rekey(k);
            // Reset the usage counter
            self.t = 0;
        }
        // Get the next stream block
        let y = self.tr.transform(self.pos);
        // Increment the position
        let p = self.pos;
        self.pos = [[p[0][0] + 1, p[0][1], p[0][2], p[0][3]], p[1]];
        // Fill the stream buffer
        let mut stream = self.stream;
        let mut n: usize = 0;
        for j in 0..2usize
            invariant
                n == 32 * j,
                forall|m: int| 0 <= m < n ==> stream[m] == #[trigger] spec_block_le(y)[m],
        {
            for kk in 0..4usize
                invariant
                    0 <= j < 2,
                    n == 32 * j + 8 * kk,
                    forall|m: int| 0 <= m < n ==> stream[m] == #[trigger] spec_block_le(y)[m],
            {
                let z = y[j][kk];
                for l in 0..8usize
                    invariant
                        0 <= j < 2,
                        0 <= kk < 4,
                        z == y[j as int][kk as int],
                        n == 32 * j + 8 * kk + l,
                        forall|m: int|
                            0 <= m < n ==> stream[m] == #[trigger] spec_block_le(y)[m],
                {
                    proof {
                        lemma_block_le_index(y, j as int, kk as int, l as int);
                    }
                    stream[n] = (z >> (8 * l)) as u8;
                    n = n + 1;
                }
            }
        }
        assert(stream@ =~= spec_block_le(y));
        self.stream = stream;
        // Reset the stream position
        self.i = 0;
        proof {
            super::hardener::lemma_step_len(s0.hardener_key, s0.table);
        }
    }

    /// Apply (that is, xor) the keystream to the buffer.
    /// As this is a stream cipher, this operation is used for encryption
    /// as well as decryption.
    pub fn transform(&mut self, buf: &mut [u8])
        requires
            old(self).wf(),
            spec_counter_room(old(self)@, old(buf)@.len()),
        ensures
            final(self).wf(),
            final(self)@ == spec_keystream(old(self)@, old(buf)@.len()).0,
            final(buf)@ == spec_xor_bytes(
                old(buf)@,
                spec_keystream(old(self)@, old(buf)@.len()).1,
            ),
    {
        let ghost s0 = self@;
        let ghost b0 = buf@;
        let n = buf.len();
        let mut j: usize = 0;
        while j < n
            invariant
                j <= n,
                n == b0.len(),
                buf@.len() == n,
                spec_keystream_wf(s0),
                spec_counter_room(s0, n as nat),
                self.wf(),
                self@ == spec_keystream(s0, j as nat).0,
                forall|m: int|
                    0 <= m < j ==> buf@[m] == b0[m] ^ #[trigger] spec_keystream(s0, j as nat).1[m],
                forall|m: int| j <= m < n ==> buf@[m] == b0[m],
            decreases n - j,
        {
            proof {
                lemma_keystream_counter(s0, j as nat, n as nat);
                lemma_keystream_counter(s0, (j + 1) as nat, n as nat);
                lemma_index_step(s0.i, j as nat);
                lemma_blocks_monotone(s0.i, (j + 1) as nat, n as nat);
            }
            if self.i == B {
                self.refill();
            }
            let b = buf[j] ^ self.stream[self.i];
            buf[j] = b;
            self.i = self.i + 1;
            proof {
                let prev = spec_keystream(s0, j as nat);
                assert(self@ == spec_keystream(s0, (j + 1) as nat).0);
                assert(spec_keystream(s0, (j + 1) as nat).1 == prev.1.push(spec_next(prev.0).1));
            }
            j = j + 1;
        }
        assert(buf@ =~= spec_xor_bytes(b0, spec_keystream(s0, n as nat).1));
    }

    /// Whether the keystream position counter has room for `len` more
    /// bytes.
    pub fn has_counter_room(&self, len: usize) -> (r: bool)
        ensures
            r == spec_counter_room(self@, len as nat),
    {
        let blocks: u128 = if len == 0 {
            0
        } else {
            (len as u128 + self.i as u128 - 1) / 64
        };
        (self.pos[0][0] as u128) + blocks <= u64::MAX as u128
    }

    /// One step of processing a stream: given the chunk most recently read
    /// and the number of bytes processed before it, transform the chunk in
    /// place and say to write it out, or, on an empty chunk (end of
    /// input), report the total.
    pub fn process_stream(&mut self, chunk: &mut [u8], total: usize) -> (r: StreamStep)
        requires
            old(self).wf(),
            spec_counter_room(old(self)@, old(chunk)@.len()),
            total + old(chunk)@.len() <= usize::MAX,
        ensures
            final(self).wf(),
            old(chunk)@.len() == 0 ==> r == StreamStep::Done(total) && final(self)@ == old(self)@
                && final(chunk)@ == old(chunk)@,
            old(chunk)@.len() > 0 ==> r == StreamStep::Write((total + old(chunk)@.len()) as usize)
                && final(self)@ == spec_keystream(old(self)@, old(chunk)@.len()).0
                && final(chunk)@ == spec_xor_bytes(
                old(chunk)@,
                spec_keystream(old(self)@, old(chunk)@.len()).1,
            ),
    {
        let m = chunk.len();
        if m == 0 {
            return StreamStep::Done(total);
        }
        self.transform(chunk);
        StreamStep::Write(total + m)
    }
}

proof fn lemma_block_le_index(y: Block, j: int, kk: int, l: int)
    requires
        0 <= j < 2,
        0 <= kk < 4,
        0 <= l < 8,
    ensures
        spec_block_le(y).len() == 64,
        spec_block_le(y)[32 * j + 8 * kk + l] == super::utils::le_byte(y[j][kk], l),
{
    let q = y[j];
    assert(spec_quad_le(y[0]).len() == 32);
    assert(spec_quad_le(y[1]).len() == 32);
    assert(spec_block_le(y)[32 * j + 8 * kk + l] == spec_quad_le(q)[8 * kk + l]);
}

} // verus!
