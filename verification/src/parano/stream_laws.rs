//! Laws of the stream cipher: where each keystream byte comes from, which
//! traffic key makes each block, and why encryption and decryption agree
//! however the data is cut into calls.

use vstd::prelude::*;

use super::cipher::{
    lemma_index_step, lemma_keystream_len, lemma_keystream_split,
    lemma_state_roundtrip, lemma_xor_bytes_involution, spec_block_le, spec_blocks_needed,
    spec_cipher_new, spec_index_after, spec_keystream, spec_keystream_wf, spec_next, spec_refill,
    spec_state_from_le, spec_state_le, spec_xor_bytes, KeystreamState,
};
use super::hardener::{lemma_step_len, spec_step};
use super::transform::spec_f;
use super::{Block, Key, Q, B, T};

verus! {

// ---------------------------------------------------------------------
// Closed forms
// ---------------------------------------------------------------------

/// The hardener table after `n` steps.
pub open spec fn spec_hardener_steps(k: Key, table: Seq<Block>, n: nat) -> Seq<Block>
    decreases n,
{
    if n == 0 {
        table
    } else {
        spec_step(k, spec_hardener_steps(k, table, (n - 1) as nat))
    }
}

/// The state after `m` fresh portions of keystream have been made.
pub open spec fn spec_refills(s: KeystreamState, m: nat) -> KeystreamState
    decreases m,
{
    if m == 0 {
        s
    } else {
        spec_refill(spec_refills(s, (m - 1) as nat))
    }
}

/// `s` with the position in the portion set to `i`.
pub open spec fn spec_at_index(s: KeystreamState, i: nat) -> KeystreamState {
    KeystreamState { i, ..s }
}

proof fn lemma_quotient_step(a: int)
    requires
        a >= 0,
    ensures
        (a + 1) % (T as int) == 0 ==> (a + 1) / (T as int) == a / (T as int) + 1,
        (a + 1) % (T as int) != 0 ==> (a + 1) / (T as int) == a / (T as int) && (a + 1) % (
        T as int) == a % (T as int) + 1,
        a % (T as int) < T,
{
    assert((a + 1) % 256 == 0 ==> (a + 1) / 256 == a / 256 + 1) by (nonlinear_arith)
        requires
            a >= 0,
    ;
    assert((a + 1) % 256 != 0 ==> (a + 1) / 256 == a / 256 && (a + 1) % 256 == a % 256 + 1)
        by (nonlinear_arith)
        requires
            a >= 0,
    ;
    assert(a % 256 < 256) by (nonlinear_arith)
        requires
            a >= 0,
    ;
}

/// The traffic-key schedule. After `m` fresh portions, the traffic key has
/// been used for `(t + m) mod T` blocks, the hardener has stepped
/// `(t + m) / T` times, and the traffic key is the hardener's derived key
/// once it has stepped at all. Portion `m` (counting from 1) is the
/// transform, under that key, of the position advanced by `m - 1`. So no
/// traffic key makes more than `T` blocks: a fresh cipher (`t == 0`) uses
/// its first traffic key for blocks 1 to `T - 1`, and each later key for
/// `T` blocks.
pub proof fn lemma_refills(s: KeystreamState, m: nat)
    requires
        spec_keystream_wf(s),
    ensures
        spec_refills(s, m).hardener_key == s.hardener_key,
        spec_refills(s, m).t == ((s.t + m) as int) % (T as int),
        spec_refills(s, m).table == spec_hardener_steps(
            s.hardener_key,
            s.table,
            (((s.t + m) as int) / (T as int)) as nat,
        ),
        spec_refills(s, m).traffic_key == if ((s.t + m) as int) / (T as int) == 0 {
            s.traffic_key
        } else {
            spec_refills(s, m).table[0][1]
        },
        m >= 1 ==> spec_refills(s, m).stream == spec_block_le(
            spec_f(spec_refills(s, m).traffic_key, spec_refills(s, (m - 1) as nat).pos),
        ),
        m >= 1 ==> spec_refills(s, m).i == 0,
        m == 0 ==> spec_refills(s, m).i == s.i,
        spec_refills(s, m).pos[1] == s.pos[1],
        spec_refills(s, m).pos[0][1] == s.pos[0][1],
        spec_refills(s, m).pos[0][2] == s.pos[0][2],
        spec_refills(s, m).pos[0][3] == s.pos[0][3],
        s.pos[0][0] + m <= u64::MAX ==> spec_refills(s, m).pos[0][0] == s.pos[0][0] + m,
        spec_keystream_wf(spec_refills(s, m)),
    decreases m,
{
    if m > 0 {
        let mm = (m - 1) as nat;
        lemma_refills(s, mm);
        lemma_quotient_step((s.t + mm) as int);
        let r = spec_refills(s, mm);
        lemma_step_len(r.hardener_key, r.table);
        let q = (((s.t + mm) as int) / (T as int)) as nat;
        assert(spec_hardener_steps(s.hardener_key, s.table, q + 1) == spec_step(
            s.hardener_key,
            spec_hardener_steps(s.hardener_key, s.table, q),
        ));
        let y = spec_f(spec_refill(r).traffic_key, r.pos);
        assert(spec_block_le(y).len() == 64) by {
            assert(super::utils::spec_quad_le(y[0]).len() == 32);
            assert(super::utils::spec_quad_le(y[1]).len() == 32);
        }
    }
}

proof fn lemma_refill_ignores_index(r: KeystreamState, i: nat)
    ensures
        spec_refill(spec_at_index(r, i)) == spec_refill(r),
{
}

/// Where the keystream comes from: after `j` bytes from `s`, the state is
/// the one after `blocks_needed(s.i, j)` fresh portions, at position
/// `index_after(s.i, j)` in its portion; and byte `e` is byte
/// `(s.i + e) mod 64` of the portion made after `(s.i + e) / 64` fresh
/// portions (the current one, when that is 0).
pub proof fn lemma_keystream_closed_form(s: KeystreamState, j: nat)
    requires
        spec_keystream_wf(s),
    ensures
        spec_keystream(s, j).0 == spec_at_index(
            spec_refills(s, spec_blocks_needed(s.i, j)),
            spec_index_after(s.i, j),
        ),
        spec_keystream(s, j).1.len() == j,
        forall|e: int|
            0 <= e < j ==> #[trigger] spec_keystream(s, j).1[e] == spec_refills(
                s,
                ((s.i + e) / 64) as nat,
            ).stream[(s.i + e) % 64],
    decreases j,
{
    if j > 0 {
        let jm = (j - 1) as nat;
        lemma_keystream_closed_form(s, jm);
        lemma_index_step(s.i, jm);
        let b = spec_blocks_needed(s.i, jm);
        let idx = spec_index_after(s.i, jm);
        let r = spec_refills(s, b);
        let st = spec_keystream(s, jm).0;
        assert(st == spec_at_index(r, idx));
        if idx == B {
            lemma_refill_ignores_index(r, idx);
            assert(spec_refills(s, b + 1) == spec_refill(r));
        }
        let nb = spec_next(st);
        // the new byte
        assert(spec_blocks_needed(s.i, jm + 1) == (((s.i + jm) as int) / 64) as nat);
        assert(spec_index_after(s.i, jm + 1) - 1 == ((s.i + jm) as int) % 64) by {
            assert(((s.i + jm) as int) % 64 >= 0) by (nonlinear_arith);
        }
        assert(spec_keystream(s, j).1 == spec_keystream(s, jm).1.push(nb.1));
        assert(nb.1 == spec_refills(s, (((s.i + jm) as int) / 64) as nat).stream[((s.i + jm) as int) % 64]);
        assert forall|e: int| 0 <= e < j implies #[trigger] spec_keystream(s, j).1[e]
            == spec_refills(s, ((s.i + e) / 64) as nat).stream[(s.i + e) % 64] by {
            if e < jm {
                assert(spec_keystream(s, j).1[e] == spec_keystream(s, jm).1[e]);
            }
        }
    }
}

/// The keystream of a freshly created cipher: byte `e` is byte `e mod 64`
/// of block `e / 64 + 1`, and block `m` is the transform of the position
/// `[p0, p1]` advanced by `m - 1`, under the traffic key after
/// `m / T` hardener steps.
pub proof fn lemma_fresh_keystream(k0: Key, st: (Q, Q, Q, Q), n: nat, e: int)
    requires
        0 <= e < n,
    ensures
        spec_keystream(spec_cipher_new(k0, st), n).1[e] == spec_refills(
            spec_cipher_new(k0, st),
            (e / 64 + 1) as nat,
        ).stream[e % 64],
{
    let s = spec_cipher_new(k0, st);
    super::hardener::lemma_init_table_len(k0, st.0);
    super::hardener::lemma_init_table_len(spec_init_key(k0, st), st.1);
    assert(s.stream.len() == 64);
    lemma_keystream_closed_form(s, n);
    assert((64 + e) / 64 == e / 64 + 1 && (64 + e) % 64 == e % 64) by (nonlinear_arith)
        requires
            e >= 0,
    ;
}

/// The session key derived from the master key and `r0`.
pub open spec fn spec_init_key(k0: Key, st: (Q, Q, Q, Q)) -> Key {
    super::hardener::spec_init_table(k0, st.0)[0][1]
}

// ---------------------------------------------------------------------
// Laws of the transform
// ---------------------------------------------------------------------

/// A transform keeps the cipher well formed, gives as many bytes as it
/// takes, leaves the position in the portion at 1 or more after a
/// non-empty call, and changes nothing on an empty one.
pub proof fn lemma_transform_shape(s: KeystreamState, n: nat)
    requires
        spec_keystream_wf(s),
    ensures
        spec_keystream_wf(spec_keystream(s, n).0),
        spec_keystream(s, n).1.len() == n,
        n > 0 ==> spec_keystream(s, n).0.i >= 1,
        n == 0 ==> spec_keystream(s, n).0 == s && spec_keystream(s, n).1 == Seq::<u8>::empty(),
{
    lemma_keystream_closed_form(s, n);
    lemma_refills(s, spec_blocks_needed(s.i, n));
    if n > 0 {
        lemma_index_step(s.i, (n - 1) as nat);
    }
}

/// One operation both encrypts and decrypts: transforming a buffer from a
/// state, and the result again from the same state, gives the buffer back.
pub proof fn lemma_transform_twice(s: KeystreamState, b: Seq<u8>)
    ensures
        spec_xor_bytes(
            spec_xor_bytes(b, spec_keystream(s, b.len()).1),
            spec_keystream(s, b.len()).1,
        ) == b,
{
    lemma_keystream_len(s, b.len());
    lemma_xor_bytes_involution(b, spec_keystream(s, b.len()).1);
}

/// The keystream, and the state a transform ends in, depend on the state
/// and the length only, never on the data: the change to any buffer of
/// that length is the keystream.
pub proof fn lemma_transform_data_independent(s: KeystreamState, b1: Seq<u8>, b2: Seq<u8>)
    requires
        b1.len() == b2.len(),
    ensures
        forall|j: int|
            0 <= j < b1.len() ==> (#[trigger] spec_xor_bytes(
                b1,
                spec_keystream(s, b1.len()).1,
            )[j] ^ b1[j]) == (spec_xor_bytes(b2, spec_keystream(s, b2.len()).1)[j] ^ b2[j])
                == spec_keystream(s, b1.len()).1[j],
{
    let k = spec_keystream(s, b1.len()).1;
    assert forall|j: int| 0 <= j < b1.len() implies (#[trigger] spec_xor_bytes(b1, k)[j]
        ^ b1[j]) == (spec_xor_bytes(b2, k)[j] ^ b2[j]) == k[j] by {
        let x = b1[j];
        let y = b2[j];
        let z = k[j];
        assert((x ^ z) ^ x == z && (y ^ z) ^ y == z) by (bit_vector);
    }
}

// ---------------------------------------------------------------------
// Streams cut into chunks
// ---------------------------------------------------------------------

/// The chunks one after the other.
pub open spec fn spec_flatten(chunks: Seq<Seq<u8>>) -> Seq<u8>
    decreases chunks.len(),
{
    if chunks.len() == 0 {
        Seq::empty()
    } else {
        spec_flatten(chunks.drop_last()) + chunks.last()
    }
}

/// Processing a stream read as `chunks`, one step per chunk: the state at
/// the end, and the chunks written.
pub open spec fn spec_process_chunks(s: KeystreamState, chunks: Seq<Seq<u8>>) -> (
    KeystreamState,
    Seq<Seq<u8>>,
)
    decreases chunks.len(),
{
    if chunks.len() == 0 {
        (s, Seq::empty())
    } else {
        let prev = spec_process_chunks(s, chunks.drop_last());
        let ks = spec_keystream(prev.0, chunks.last().len());
        (ks.0, prev.1.push(spec_xor_bytes(chunks.last(), ks.1)))
    }
}

/// However a stream is cut into chunks, processing it chunk by chunk
/// writes the stream transformed at once, and ends in the same state.
pub proof fn lemma_process_chunks(s: KeystreamState, chunks: Seq<Seq<u8>>)
    ensures
        spec_process_chunks(s, chunks).0 == spec_keystream(s, spec_flatten(chunks).len()).0,
        spec_flatten(spec_process_chunks(s, chunks).1) == spec_xor_bytes(
            spec_flatten(chunks),
            spec_keystream(s, spec_flatten(chunks).len()).1,
        ),
    decreases chunks.len(),
{
    if chunks.len() > 0 {
        let init = chunks.drop_last();
        let c = chunks.last();
        lemma_process_chunks(s, init);
        let prev = spec_process_chunks(s, init);
        let a = spec_flatten(init).len();
        lemma_keystream_split(s, a, c.len());
        lemma_keystream_len(s, a);
        lemma_keystream_len(s, a + c.len());
        lemma_keystream_len(prev.0, c.len());
        let outs = spec_process_chunks(s, chunks).1;
        assert(outs.drop_last() =~= prev.1);
        assert(spec_flatten(chunks) == spec_flatten(init) + c);
        assert(spec_flatten(outs) =~= spec_xor_bytes(
            spec_flatten(chunks),
            spec_keystream(s, spec_flatten(chunks).len()).1,
        ));
    }
}

/// Decryption inverts encryption however either stream is cut: a stream
/// encrypted chunk by chunk from a state, then decrypted chunk by chunk,
/// in any other cutting, from the same state, gives the stream back.
pub proof fn lemma_stream_roundtrip(
    s: KeystreamState,
    plain: Seq<Seq<u8>>,
    cipher: Seq<Seq<u8>>,
)
    requires
        spec_flatten(cipher) == spec_flatten(spec_process_chunks(s, plain).1),
    ensures
        spec_flatten(spec_process_chunks(s, cipher).1) == spec_flatten(plain),
{
    lemma_process_chunks(s, plain);
    lemma_process_chunks(s, cipher);
    let p = spec_flatten(plain);
    lemma_keystream_len(s, p.len());
    assert(spec_flatten(cipher).len() == p.len());
    lemma_xor_bytes_involution(p, spec_keystream(s, p.len()).1);
}

/// A message encrypted under a master key and a cipher state, sent behind
/// the encoded state and read back in any cutting, decrypts to itself.
pub proof fn lemma_message_stream_roundtrip(
    k0: Key,
    v: (Q, Q, Q, Q),
    plain: Seq<Seq<u8>>,
    cipher: Seq<Seq<u8>>,
)
    requires
        spec_flatten(cipher) == spec_flatten(
            spec_process_chunks(spec_cipher_new(k0, v), plain).1,
        ),
    ensures
        spec_flatten(
            spec_process_chunks(
                spec_cipher_new(k0, spec_state_from_le(spec_state_le(v))),
                cipher,
            ).1,
        ) == spec_flatten(plain),
{
    lemma_state_roundtrip(v);
    lemma_stream_roundtrip(spec_cipher_new(k0, v), plain, cipher);
}

} // verus!
