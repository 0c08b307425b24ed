//! Little-endian encoding of words and quads, and the hexadecimal key
//! format.

use vstd::prelude::*;

use super::{Key, Q};

verus! {

// ---------------------------------------------------------------------
// Little-endian encoding
// ---------------------------------------------------------------------

/// Byte `l` (0 = least significant) of a 64-bit word.
pub open spec fn le_byte(x: u64, l: int) -> u8 {
    (x >> ((8 * l) as u64)) as u8
}

/// The eight little-endian bytes of a word.
pub open spec fn spec_u64_le(x: u64) -> Seq<u8> {
    Seq::new(8, |l: int| le_byte(x, l))
}

/// The word whose little-endian bytes are the first eight of `s`.
pub open spec fn spec_u64_from_le(s: Seq<u8>) -> u64
    recommends
        s.len() >= 8,
{
    (s[0] as u64) | ((s[1] as u64) << 8u64) | ((s[2] as u64) << 16u64) | ((s[3] as u64) << 24u64)
        | ((s[4] as u64) << 32u64) | ((s[5] as u64) << 40u64) | ((s[6] as u64) << 48u64) | ((
    s[7] as u64) << 56u64)
}

/// The 32 little-endian bytes of a quad, word 0 first.
pub open spec fn spec_quad_le(q: Q) -> Seq<u8> {
    spec_u64_le(q[0]) + spec_u64_le(q[1]) + spec_u64_le(q[2]) + spec_u64_le(q[3])
}

/// The quad whose little-endian bytes are the first 32 of `s`.
pub open spec fn spec_quad_from_le(s: Seq<u8>) -> Q
    recommends
        s.len() >= 32,
{
    [
        spec_u64_from_le(s.subrange(0, 8)),
        spec_u64_from_le(s.subrange(8, 16)),
        spec_u64_from_le(s.subrange(16, 24)),
        spec_u64_from_le(s.subrange(24, 32)),
    ]
}

/// Decoding the encoding of a word gives the word back.
pub proof fn lemma_u64_le_roundtrip(x: u64)
    ensures
        spec_u64_from_le(spec_u64_le(x)) == x,
{
    let s = spec_u64_le(x);
    assert(s[0] == (x >> 0u64) as u8);
    assert(s[1] == (x >> 8u64) as u8);
    assert(s[2] == (x >> 16u64) as u8);
    assert(s[3] == (x >> 24u64) as u8);
    assert(s[4] == (x >> 32u64) as u8);
    assert(s[5] == (x >> 40u64) as u8);
    assert(s[6] == (x >> 48u64) as u8);
    assert(s[7] == (x >> 56u64) as u8);
    assert(x == ((((x >> 0u64) as u8) as u64) | ((((x >> 8u64) as u8) as u64) << 8u64) | ((((x >> 16u64)
        as u8) as u64) << 16u64) | ((((x >> 24u64) as u8) as u64) << 24u64) | ((((x >> 32u64)
        as u8) as u64) << 32u64) | ((((x >> 40u64) as u8) as u64) << 40u64) | ((((x >> 48u64)
        as u8) as u64) << 48u64) | ((((x >> 56u64) as u8) as u64) << 56u64))) by (bit_vector);
}

/// Encoding the decoding of eight bytes gives the bytes back.
pub proof fn lemma_u64_from_le_roundtrip(s: Seq<u8>)
    requires
        s.len() == 8,
    ensures
        spec_u64_le(spec_u64_from_le(s)) == s,
{
    let b0 = s[0];
    let b1 = s[1];
    let b2 = s[2];
    let b3 = s[3];
    let b4 = s[4];
    let b5 = s[5];
    let b6 = s[6];
    let b7 = s[7];
    let x = spec_u64_from_le(s);
    assert(x == (b0 as u64) | ((b1 as u64) << 8u64) | ((b2 as u64) << 16u64) | ((b3 as u64)
        << 24u64) | ((b4 as u64) << 32u64) | ((b5 as u64) << 40u64) | ((b6 as u64) << 48u64) | ((
    b7 as u64) << 56u64));
    assert((x >> 0u64) as u8 == b0 && (x >> 8u64) as u8 == b1 && (x >> 16u64) as u8 == b2 && (x >> 24u64)
        as u8 == b3 && (x >> 32u64) as u8 == b4 && (x >> 40u64) as u8 == b5 && (x >> 48u64) as u8
        == b6 && (x >> 56u64) as u8 == b7) by (bit_vector)
        requires
            x == (b0 as u64) | ((b1 as u64) << 8u64) | ((b2 as u64) << 16u64) | ((b3 as u64)
                << 24u64) | ((b4 as u64) << 32u64) | ((b5 as u64) << 40u64) | ((b6 as u64)
                << 48u64) | ((b7 as u64) << 56u64),
    ;
    assert(spec_u64_le(x) =~= s);
}

/// Decoding the encoding of a quad gives the quad back.
pub proof fn lemma_quad_le_roundtrip(q: Q)
    ensures
        spec_quad_from_le(spec_quad_le(q)) == q,
{
    let s = spec_quad_le(q);
    assert(s.subrange(0, 8) =~= spec_u64_le(q[0]));
    assert(s.subrange(8, 16) =~= spec_u64_le(q[1]));
    assert(s.subrange(16, 24) =~= spec_u64_le(q[2]));
    assert(s.subrange(24, 32) =~= spec_u64_le(q[3]));
    lemma_u64_le_roundtrip(q[0]);
    lemma_u64_le_roundtrip(q[1]);
    lemma_u64_le_roundtrip(q[2]);
    lemma_u64_le_roundtrip(q[3]);
    assert(spec_quad_from_le(s) =~= q);
}

/// Encoding the decoding of 32 bytes gives the bytes back.
pub proof fn lemma_quad_from_le_roundtrip(s: Seq<u8>)
    requires
        s.len() == 32,
    ensures
        spec_quad_le(spec_quad_from_le(s)) == s,
{
    lemma_u64_from_le_roundtrip(s.subrange(0, 8));
    lemma_u64_from_le_roundtrip(s.subrange(8, 16));
    lemma_u64_from_le_roundtrip(s.subrange(16, 24));
    lemma_u64_from_le_roundtrip(s.subrange(24, 32));
    assert(spec_quad_le(spec_quad_from_le(s)) =~= s);
}

/// The number whose little-endian base-256 digits are bytes `o` to
/// `o + 7` of `s`.
pub open spec fn spec_le_value(s: Seq<u8>, o: int) -> int {
    s[o] + 0x100 * s[o + 1] + 0x10000 * s[o + 2] + 0x1000000 * s[o + 3] + 0x100000000 * s[o
        + 4] + 0x10000000000 * s[o + 5] + 0x1000000000000 * s[o + 6] + 0x100000000000000 * s[o
        + 7]
}

/// Decoding eight bytes gives their little-endian value.
pub proof fn lemma_u64_from_le_value(t: Seq<u8>)
    requires
        t.len() >= 8,
    ensures
        spec_u64_from_le(t) == spec_le_value(t, 0),
{
    let b0 = t[0];
    let b1 = t[1];
    let b2 = t[2];
    let b3 = t[3];
    let b4 = t[4];
    let b5 = t[5];
    let b6 = t[6];
    let b7 = t[7];
    assert((b0 as u64) | ((b1 as u64) << 8u64) | ((b2 as u64) << 16u64) | ((b3 as u64) << 24u64)
        | ((b4 as u64) << 32u64) | ((b5 as u64) << 40u64) | ((b6 as u64) << 48u64) | ((
    b7 as u64) << 56u64) == b0 + 0x100 * b1 + 0x10000 * b2 + 0x1000000 * b3 + 0x100000000 * b4
        + 0x10000000000 * b5 + 0x1000000000000 * b6 + 0x100000000000000 * b7) by (bit_vector);
}

/// The eight bytes a word is encoded as have the word as their
/// little-endian value.
pub proof fn lemma_u64_le_value(x: u64)
    ensures
        spec_u64_le(x).len() == 8,
        spec_le_value(spec_u64_le(x), 0) == x,
{
    let s = spec_u64_le(x);
    assert(s[0] == (x >> 0u64) as u8);
    assert(s[1] == (x >> 8u64) as u8);
    assert(s[2] == (x >> 16u64) as u8);
    assert(s[3] == (x >> 24u64) as u8);
    assert(s[4] == (x >> 32u64) as u8);
    assert(s[5] == (x >> 40u64) as u8);
    assert(s[6] == (x >> 48u64) as u8);
    assert(s[7] == (x >> 56u64) as u8);
    assert(x == ((x >> 0u64) as u8) + 0x100 * ((x >> 8u64) as u8) + 0x10000 * ((x >> 16u64)
        as u8) + 0x1000000 * ((x >> 24u64) as u8) + 0x100000000 * ((x >> 32u64) as u8)
        + 0x10000000000 * ((x >> 40u64) as u8) + 0x1000000000000 * ((x >> 48u64) as u8)
        + 0x100000000000000 * ((x >> 56u64) as u8)) by (bit_vector);
}

/// Word `j` of the quad decoded from bytes `base` to `base + 31` of `s`
/// is the little-endian value of bytes `base + 8j` to `base + 8j + 7`.
pub proof fn lemma_quad_from_le_word(s: Seq<u8>, base: int, j: int)
    requires
        0 <= base,
        base + 32 <= s.len(),
        0 <= j < 4,
    ensures
        spec_quad_from_le(s.subrange(base, base + 32))[j] == spec_le_value(s, base + 8 * j),
{
    let t = s.subrange(base, base + 32);
    let u = t.subrange(8 * j, 8 * j + 8);
    lemma_u64_from_le_value(u);
    assert(spec_le_value(u, 0) == spec_le_value(s, base + 8 * j));
}

/// Bytes `8j` to `8j + 7` of the encoding of a quad have word `j` as
/// their little-endian value.
pub proof fn lemma_quad_le_word(q: Q, j: int)
    requires
        0 <= j < 4,
    ensures
        spec_quad_le(q).len() == 32,
        spec_le_value(spec_quad_le(q), 8 * j) == q[j],
{
    lemma_u64_le_value(q[0]);
    lemma_u64_le_value(q[1]);
    lemma_u64_le_value(q[2]);
    lemma_u64_le_value(q[3]);
    let e = spec_quad_le(q);
    let w = spec_u64_le(q[j]);
    lemma_u64_le_value(q[j]);
    assert(forall|l: int| 0 <= l < 8 ==> e[8 * j + l] == w[l]);
    assert(spec_le_value(e, 8 * j) == spec_le_value(w, 0));
}

/// The error of a read that runs out of input.
#[derive(Debug, Clone, Copy, PartialEq, Eq)]
pub enum ReadError {
    /// The input ended before the value was complete.
    UnexpectedEof,
}

/// Append the little-endian bytes of `x` to `w`.
pub(crate) fn write_u64(w: &mut Vec<u8>, x: u64)
    ensures
        final(w)@ == old(w)@ + spec_u64_le(x),
{
    let ghost w0 = w@;
    let mut l: u64 = 0;
    while l < 8
        invariant
            l <= 8,
            w@ == w0 + spec_u64_le(x).take(l as int),
        decreases 8 - l,
    {
        w.push((x >> (8 * l)) as u8);
        assert(spec_u64_le(x).take(l + 1) =~= spec_u64_le(x).take(l as int).push(le_byte(x, l as int)));
        l = l + 1;
    }
    assert(spec_u64_le(x).take(8) =~= spec_u64_le(x));
}

/// Append the little-endian bytes of the four words of `q` to `w`.
pub(crate) fn write_quad(w: &mut Vec<u8>, q: Q)
    ensures
        final(w)@ == old(w)@ + spec_quad_le(q),
{
    let ghost w0 = w@;
    write_u64(w, q[0]);
    write_u64(w, q[1]);
    write_u64(w, q[2]);
    write_u64(w, q[3]);
    assert(w@ =~= w0 + spec_quad_le(q));
}

/// Read a little-endian word from `r` at the cursor `at`, advancing it.
pub(crate) fn read_u64(r: &[u8], at: &mut usize) -> (res: Result<u64, ReadError>)
    ensures
        *old(at) <= r@.len() && r@.len() - *old(at) >= 8 ==> res == Ok::<u64, ReadError>(
            spec_u64_from_le(r@.subrange(*old(at) as int, *old(at) + 8)),
        ) && *final(at) == *old(at) + 8,
        !(*old(at) <= r@.len() && r@.len() - *old(at) >= 8) ==> res == Err::<u64, ReadError>(
            ReadError::UnexpectedEof,
        ) && *final(at) == *old(at),
{
    if *at > r.len() || r.len() - *at < 8 {
        return Err(ReadError::UnexpectedEof);
    }
    let a = *at;
    let y = [r[a], r[a + 1], r[a + 2], r[a + 3], r[a + 4], r[a + 5], r[a + 6], r[a + 7]];
    let x = (y[0] as u64) | ((y[1] as u64) << 8u64) | ((y[2] as u64) << 16u64) | ((y[3] as u64)
        << 24u64) | ((y[4] as u64) << 32u64) | ((y[5] as u64) << 40u64) | ((y[6] as u64)
        << 48u64) | ((y[7] as u64) << 56u64);
    *at = a + 8;
    Ok(x)
}

/// Read a quad of little-endian words from `r` at the cursor `at`,
/// advancing it.
pub(crate) fn read_quad(r: &[u8], at: &mut usize) -> (res: Result<Q, ReadError>)
    ensures
        *old(at) <= r@.len() && r@.len() - *old(at) >= 32 ==> res == Ok::<Q, ReadError>(
            spec_quad_from_le(r@.subrange(*old(at) as int, *old(at) + 32)),
        ) && *final(at) == *old(at) + 32,
        !(*old(at) <= r@.len() && r@.len() - *old(at) >= 32) ==> res is Err,
{
    let ghost a0 = *at;
    let a = read_u64(r, at)?;
    let b = read_u64(r, at)?;
    let c = read_u64(r, at)?;
    let d = read_u64(r, at)?;
    proof {
        let s = r@.subrange(a0 as int, a0 + 32);
        assert(s.subrange(0, 8) =~= r@.subrange(a0 as int, a0 + 8));
        assert(s.subrange(8, 16) =~= r@.subrange(a0 + 8, a0 + 16));
        assert(s.subrange(16, 24) =~= r@.subrange(a0 + 16, a0 + 24));
        assert(s.subrange(24, 32) =~= r@.subrange(a0 + 24, a0 + 32));
        assert([a, b, c, d] =~= spec_quad_from_le(s));
    }
    Ok([a, b, c, d])
}

} // verus!
verus! {

// ---------------------------------------------------------------------
// The hexadecimal key format
// ---------------------------------------------------------------------

/// Why a number failed to parse.
#[derive(Debug, Clone, Copy, PartialEq, Eq)]
pub enum IntErrorKind {
    /// The text was empty.
    Empty,
    /// The text held a character that is not a digit.
    InvalidDigit,
    /// The number does not fit in 64 bits.
    PosOverflow,
}

/// Why a key failed to load.
#[derive(Debug, Clone, Copy, PartialEq, Eq)]
pub enum KeyError {
    /// Fewer than four words.
    ShortKey,
    /// A word is not a hexadecimal number of 64 bits.
    Parse(IntErrorKind),
    /// More than four words.
    JunkAfterKey,
}

/// Unicode white space (the `White_Space` property).
pub open spec fn spec_is_whitespace(c: char) -> bool {
    ||| ('\t' <= c && c <= '\r')
    ||| c == ' '
    ||| c == '\u{85}'
    ||| c == '\u{a0}'
    ||| c == '\u{1680}'
    ||| ('\u{2000}' <= c && c <= '\u{200a}')
    ||| c == '\u{2028}'
    ||| c == '\u{2029}'
    ||| c == '\u{202f}'
    ||| c == '\u{205f}'
    ||| c == '\u{3000}'
}

/// The index of the first character at or after `i` that is not white
/// space (or the length).
pub open spec fn spec_skip_ws(s: Seq<char>, i: int) -> int
    decreases s.len() - i,
{
    if i < s.len() && spec_is_whitespace(s[i]) {
        spec_skip_ws(s, i + 1)
    } else {
        i
    }
}

/// The end of `s` with trailing white space after `lo` removed.
pub open spec fn spec_trim_end(s: Seq<char>, j: int, lo: int) -> int
    decreases j - lo,
{
    if j > lo && spec_is_whitespace(s[j - 1]) {
        spec_trim_end(s, j - 1, lo)
    } else {
        j
    }
}

/// `s` with leading and trailing white space removed.
pub open spec fn spec_trim(s: Seq<char>) -> Seq<char> {
    let lo = spec_skip_ws(s, 0);
    s.subrange(lo, spec_trim_end(s, s.len() as int, lo))
}

/// The index of the first `-` at or after `i` (or the length).
pub open spec fn spec_dash_from(s: Seq<char>, i: int) -> int
    decreases s.len() - i,
{
    if i >= s.len() {
        s.len() as int
    } else if s[i] == '-' {
        i
    } else {
        spec_dash_from(s, i + 1)
    }
}

/// The first `-` at or after `i` lies in the text, or there is none.
pub proof fn lemma_dash_from_bounds(s: Seq<char>, i: int)
    requires
        0 <= i <= s.len(),
    ensures
        i <= spec_dash_from(s, i) <= s.len(),
        spec_dash_from(s, i) < s.len() ==> s[spec_dash_from(s, i)] == '-',
    decreases s.len() - i,
{
    if i < s.len() && s[i] != '-' {
        lemma_dash_from_bounds(s, i + 1);
    }
}

/// The pieces of `s` between the `-` separators (at least one piece).
pub open spec fn spec_split(s: Seq<char>) -> Seq<Seq<char>>
    decreases s.len(),
{
    let e = spec_dash_from(s, 0);
    if e >= s.len() {
        seq![s]
    } else {
        proof {
            lemma_dash_from_bounds(s, 0);
        }
        seq![s.subrange(0, e)] + spec_split(s.subrange(e + 1, s.len() as int))
    }
}

/// The value of a hexadecimal digit.
pub open spec fn spec_hex_digit(c: char) -> Option<u64> {
    if '0' <= c && c <= '9' {
        Some((c as u32 - 48) as u64)
    } else if 'a' <= c && c <= 'f' {
        Some((c as u32 - 87) as u64)
    } else if 'A' <= c && c <= 'F' {
        Some((c as u32 - 55) as u64)
    } else {
        None
    }
}

/// The value of the first `n` digits of `d`, read most significant
/// first: the first character that is not a digit fails, and so does the
/// first digit at which the value exceeds 64 bits.
pub open spec fn spec_hex_prefix(d: Seq<char>, n: nat) -> Result<u64, IntErrorKind>
    decreases n,
{
    if n == 0 {
        Ok(0)
    } else {
        match spec_hex_prefix(d, (n - 1) as nat) {
            Err(e) => Err(e),
            Ok(v) => match spec_hex_digit(d[n - 1]) {
                None => Err(IntErrorKind::InvalidDigit),
                Some(x) => if v * 16 + x > u64::MAX {
                    Err(IntErrorKind::PosOverflow)
                } else {
                    Ok((v * 16 + x) as u64)
                },
            },
        }
    }
}

/// A hexadecimal number of 64 bits with an optional leading `+`.
pub open spec fn spec_parse_hex(p: Seq<char>) -> Result<u64, IntErrorKind> {
    if p.len() == 0 {
        Err(IntErrorKind::Empty)
    } else if p.len() == 1 && (p[0] == '+' || p[0] == '-') {
        Err(IntErrorKind::InvalidDigit)
    } else if p[0] == '+' {
        spec_hex_prefix(p.subrange(1, p.len() as int), (p.len() - 1) as nat)
    } else {
        spec_hex_prefix(p, p.len())
    }
}

/// The words of the first `n` pieces; a missing piece is a short key, and
/// the first piece that fails to parse fails the whole.
pub open spec fn spec_key_words(pieces: Seq<Seq<char>>, n: nat) -> Result<Seq<u64>, KeyError>
    decreases n,
{
    if n == 0 {
        Ok(Seq::empty())
    } else {
        match spec_key_words(pieces, (n - 1) as nat) {
            Err(e) => Err(e),
            Ok(ws) => if n - 1 >= pieces.len() {
                Err(KeyError::ShortKey)
            } else {
                match spec_parse_hex(pieces[n - 1]) {
                    Err(k) => Err(KeyError::Parse(k)),
                    Ok(v) => Ok(ws.push(v)),
                }
            },
        }
    }
}

/// A key in text: four hexadecimal words separated by `-`, with
/// white space around the whole.
pub open spec fn spec_parse_key(text: Seq<char>) -> Result<Key, KeyError> {
    let pieces = spec_split(spec_trim(text));
    match spec_key_words(pieces, 4) {
        Err(e) => Err(e),
        Ok(ws) => if pieces.len() > 4 {
            Err(KeyError::JunkAfterKey)
        } else {
            Ok([ws[0], ws[1], ws[2], ws[3]])
        },
    }
}

proof fn lemma_hex_prefix_err(d: Seq<char>, n: nat, m: nat)
    requires
        n <= m,
        spec_hex_prefix(d, n) is Err,
    ensures
        spec_hex_prefix(d, m) == spec_hex_prefix(d, n),
    decreases m - n,
{
    if m > n {
        lemma_hex_prefix_err(d, n, (m - 1) as nat);
    }
}

proof fn lemma_key_words_err(pieces: Seq<Seq<char>>, n: nat, m: nat)
    requires
        n <= m,
        spec_key_words(pieces, n) is Err,
    ensures
        spec_key_words(pieces, m) == spec_key_words(pieces, n),
    decreases m - n,
{
    if m > n {
        lemma_key_words_err(pieces, n, (m - 1) as nat);
    }
}

// ---------------------------------------------------------------------
// Keys written in hexadecimal load back
// ---------------------------------------------------------------------

/// The hexadecimal digits, lower case, in order of value.
pub open spec fn spec_lower_digits() -> Seq<char> {
    seq!['0', '1', '2', '3', '4', '5', '6', '7', '8', '9', 'a', 'b', 'c', 'd', 'e', 'f']
}

/// The hexadecimal digits, upper case, in order of value.
pub open spec fn spec_upper_digits() -> Seq<char> {
    seq!['0', '1', '2', '3', '4', '5', '6', '7', '8', '9', 'A', 'B', 'C', 'D', 'E', 'F']
}

/// The hexadecimal digit for a value below 16, in upper or lower case.
pub open spec fn spec_hex_char(d: u64, upper: bool) -> char {
    if d < 10 {
        (48 + d) as char
    } else if upper {
        (55 + d) as char
    } else {
        (87 + d) as char
    }
}

/// The hexadecimal digits of `x`, most significant first, without leading
/// zeros (`0` for zero), in upper or lower case.
pub open spec fn spec_hex_text(x: u64, upper: bool) -> Seq<char>
    decreases x,
{
    if x < 16 {
        seq![spec_hex_char(x, upper)]
    } else {
        spec_hex_text(x / 16, upper).push(spec_hex_char(x % 16, upper))
    }
}

/// The lower-case hexadecimal digits of `x`, as `{:x}` writes them.
pub open spec fn spec_hex_lower(x: u64) -> Seq<char> {
    spec_hex_text(x, false)
}

/// A key as text: its four words in hexadecimal, upper or lower case,
/// separated by `-`.
pub open spec fn spec_format_key_case(k: Key, upper: bool) -> Seq<char> {
    spec_hex_text(k[0], upper) + seq!['-'] + spec_hex_text(k[1], upper) + seq!['-']
        + spec_hex_text(k[2], upper) + seq!['-'] + spec_hex_text(k[3], upper)
}

/// A key as text: its four words in lower-case hexadecimal, separated by
/// `-`.
pub open spec fn spec_format_key(k: Key) -> Seq<char> {
    spec_format_key_case(k, false)
}

/// The digit characters and their values: `0`-`9` are 0 to 9, `a`-`f`
/// and `A`-`F` are 10 to 15, and no other character is a digit.
pub proof fn lemma_hex_digit_values(c: char)
    ensures
        spec_hex_digit(c) is Some <==> (exists|d: int|
            0 <= d < 16 && (c == spec_lower_digits()[d] || c == spec_upper_digits()[d])),
        forall|d: int|
            0 <= d < 16 ==> spec_hex_digit(#[trigger] spec_lower_digits()[d]) == Some(d as u64)
                && spec_hex_digit(spec_upper_digits()[d]) == Some(d as u64)
                && spec_hex_char(d as u64, false) == spec_lower_digits()[d]
                && spec_hex_char(d as u64, true) == spec_upper_digits()[d],
{
    let lo = spec_lower_digits();
    let up = spec_upper_digits();
    assert forall|d: int| 0 <= d < 16 implies spec_hex_digit(#[trigger] lo[d]) == Some(d as u64)
        && spec_hex_digit(up[d]) == Some(d as u64) && spec_hex_char(d as u64, false) == lo[d]
        && spec_hex_char(d as u64, true) == up[d] by {
        if d == 0 {} else if d == 1 {} else if d == 2 {} else if d == 3 {} else if d == 4 {
        } else if d == 5 {} else if d == 6 {} else if d == 7 {} else if d == 8 {} else if d
            == 9 {} else if d == 10 {} else if d == 11 {} else if d == 12 {} else if d == 13 {
        } else if d == 14 {} else {}
    }
    if spec_hex_digit(c) is Some {
        let d: int = if '0' <= c && c <= '9' {
            c as u32 - 48
        } else if 'a' <= c && c <= 'f' {
            c as u32 - 87
        } else {
            c as u32 - 55
        };
        assert(0 <= d < 16);
        assert(c == lo[d] || c == up[d]);
    }
}

proof fn lemma_hex_char(d: u64, upper: bool)
    requires
        d < 16,
    ensures
        spec_hex_digit(spec_hex_char(d, upper)) == Some(d),
        !spec_is_whitespace(spec_hex_char(d, upper)),
        spec_hex_char(d, upper) != '-',
        spec_hex_char(d, upper) != '+',
{
}

proof fn lemma_hex_text_chars(x: u64, upper: bool)
    ensures
        spec_hex_text(x, upper).len() >= 1,
        forall|i: int|
            #![trigger spec_hex_text(x, upper)[i]]
            0 <= i < spec_hex_text(x, upper).len() ==> spec_hex_digit(spec_hex_text(x, upper)[i])
                is Some && spec_hex_text(x, upper)[i] != '-' && spec_hex_text(x, upper)[i] != '+'
                && !spec_is_whitespace(spec_hex_text(x, upper)[i]),
    decreases x,
{
    if x < 16 {
        lemma_hex_char(x, upper);
    } else {
        lemma_hex_text_chars(x / 16, upper);
        lemma_hex_char(x % 16, upper);
    }
}

proof fn lemma_hex_prefix_local(d1: Seq<char>, d2: Seq<char>, n: nat)
    requires
        n <= d1.len(),
        n <= d2.len(),
        forall|i: int| 0 <= i < n ==> d1[i] == d2[i],
    ensures
        spec_hex_prefix(d1, n) == spec_hex_prefix(d2, n),
    decreases n,
{
    if n > 0 {
        lemma_hex_prefix_local(d1, d2, (n - 1) as nat);
    }
}

proof fn lemma_hex_text_value(x: u64, upper: bool)
    ensures
        spec_hex_prefix(spec_hex_text(x, upper), spec_hex_text(x, upper).len()) == Ok::<
            u64,
            IntErrorKind,
        >(x),
    decreases x,
{
    if x < 16 {
        lemma_hex_char(x, upper);
        assert(spec_hex_prefix(spec_hex_text(x, upper), 0) == Ok::<u64, IntErrorKind>(0));
    } else {
        let h = spec_hex_text(x / 16, upper);
        lemma_hex_text_value(x / 16, upper);
        lemma_hex_char(x % 16, upper);
        let hx = spec_hex_text(x, upper);
        lemma_hex_prefix_local(hx, h, h.len());
        assert((x / 16) * 16 + x % 16 == x) by (nonlinear_arith);
    }
}

proof fn lemma_parse_hex_text(x: u64, upper: bool)
    ensures
        spec_parse_hex(spec_hex_text(x, upper)) == Ok::<u64, IntErrorKind>(x),
{
    lemma_hex_text_chars(x, upper);
    lemma_hex_text_value(x, upper);
    assert(spec_hex_digit(spec_hex_text(x, upper)[0]) is Some);
}

proof fn lemma_dash_from_plain(s: Seq<char>, i: int, k: int)
    requires
        0 <= i <= k <= s.len(),
        forall|m: int| i <= m < k ==> s[m] != '-',
        k == s.len() || s[k] == '-',
    ensures
        spec_dash_from(s, i) == k,
    decreases k - i,
{
    if i < k {
        lemma_dash_from_plain(s, i + 1, k);
    }
}

proof fn lemma_split_plain(a: Seq<char>)
    requires
        forall|m: int| 0 <= m < a.len() ==> a[m] != '-',
    ensures
        spec_split(a) == seq![a],
{
    lemma_dash_from_plain(a, 0, a.len() as int);
}

proof fn lemma_split_cons(a: Seq<char>, b: Seq<char>)
    requires
        forall|m: int| 0 <= m < a.len() ==> a[m] != '-',
    ensures
        spec_split(a + seq!['-'] + b) == seq![a] + spec_split(b),
{
    let s = a + seq!['-'] + b;
    lemma_dash_from_plain(s, 0, a.len() as int);
    assert(s.subrange(0, a.len() as int) =~= a);
    assert(s.subrange(a.len() as int + 1, s.len() as int) =~= b);
}

proof fn lemma_skip_ws_to(s: Seq<char>, i: int, k: int)
    requires
        0 <= i <= k < s.len(),
        forall|m: int| i <= m < k ==> spec_is_whitespace(s[m]),
        !spec_is_whitespace(s[k]),
    ensures
        spec_skip_ws(s, i) == k,
    decreases k - i,
{
    if i < k {
        lemma_skip_ws_to(s, i + 1, k);
    }
}

proof fn lemma_trim_end_to(s: Seq<char>, j: int, e: int, lo: int)
    requires
        lo < e <= j <= s.len(),
        forall|m: int| e <= m < j ==> spec_is_whitespace(s[m]),
        !spec_is_whitespace(s[e - 1]),
    ensures
        spec_trim_end(s, j, lo) == e,
    decreases j - lo,
{
    if j > e {
        lemma_trim_end_to(s, j - 1, e, lo);
    }
}

proof fn lemma_key_format_case_roundtrip(
    k: Key,
    upper: bool,
    before: Seq<char>,
    after: Seq<char>,
)
    requires
        forall|m: int| 0 <= m < before.len() ==> spec_is_whitespace(#[trigger] before[m]),
        forall|m: int| 0 <= m < after.len() ==> spec_is_whitespace(#[trigger] after[m]),
    ensures
        spec_parse_key(before + spec_format_key_case(k, upper) + after) == Ok::<Key, KeyError>(k),
{
    let h0 = spec_hex_text(k[0], upper);
    let h1 = spec_hex_text(k[1], upper);
    let h2 = spec_hex_text(k[2], upper);
    let h3 = spec_hex_text(k[3], upper);
    lemma_hex_text_chars(k[0], upper);
    lemma_hex_text_chars(k[1], upper);
    lemma_hex_text_chars(k[2], upper);
    lemma_hex_text_chars(k[3], upper);
    let core = spec_format_key_case(k, upper);
    let text = before + core + after;
    let lo = before.len() as int;
    let hi = lo + core.len();
    // trimming leaves the formatted key
    assert(core[0] == h0[0]);
    assert(core[core.len() - 1] == h3[h3.len() - 1]);
    assert(text[lo] == core[0]);
    assert(text[hi - 1] == core[core.len() - 1]);
    assert forall|m: int| 0 <= m < lo implies spec_is_whitespace(text[m]) by {
        assert(text[m] == before[m]);
    }
    lemma_skip_ws_to(text, 0, lo);
    assert forall|m: int| hi <= m < text.len() implies spec_is_whitespace(text[m]) by {
        assert(text[m] == after[m - hi]);
    }
    lemma_trim_end_to(text, text.len() as int, hi, lo);
    assert(spec_trim(text) =~= core);
    // splitting gives the four words
    let r3 = h3;
    let r2 = h2 + seq!['-'] + h3;
    let r1 = h1 + seq!['-'] + r2;
    assert(core =~= h0 + seq!['-'] + r1);
    lemma_split_plain(h3);
    lemma_split_cons(h2, h3);
    lemma_split_cons(h1, r2);
    lemma_split_cons(h0, r1);
    let pieces = spec_split(core);
    assert(pieces =~= seq![h0, h1, h2, h3]);
    lemma_parse_hex_text(k[0], upper);
    lemma_parse_hex_text(k[1], upper);
    lemma_parse_hex_text(k[2], upper);
    lemma_parse_hex_text(k[3], upper);
    reveal_with_fuel(spec_key_words, 5);
    let ws = spec_key_words(pieces, 4).unwrap();
    assert(ws =~= seq![k[0], k[1], k[2], k[3]]);
    assert([ws[0], ws[1], ws[2], ws[3]] =~= k);
}

/// A key written as its four words in lower-case hexadecimal separated by
/// `-` (as `{:x}` writes them), with any white space before and after,
/// loads as that key.
pub proof fn lemma_key_format_roundtrip(k: Key, before: Seq<char>, after: Seq<char>)
    requires
        forall|m: int| 0 <= m < before.len() ==> spec_is_whitespace(#[trigger] before[m]),
        forall|m: int| 0 <= m < after.len() ==> spec_is_whitespace(#[trigger] after[m]),
    ensures
        spec_parse_key(before + spec_format_key(k) + after) == Ok::<Key, KeyError>(k),
{
    lemma_key_format_case_roundtrip(k, false, before, after);
}

/// The same in upper-case hexadecimal (as `{:X}` writes it).
pub proof fn lemma_key_format_upper_roundtrip(k: Key, before: Seq<char>, after: Seq<char>)
    requires
        forall|m: int| 0 <= m < before.len() ==> spec_is_whitespace(#[trigger] before[m]),
        forall|m: int| 0 <= m < after.len() ==> spec_is_whitespace(#[trigger] after[m]),
    ensures
        spec_parse_key(before + spec_format_key_case(k, true) + after) == Ok::<Key, KeyError>(k),
{
    lemma_key_format_case_roundtrip(k, true, before, after);
}

fn is_whitespace(c: char) -> (r: bool)
    ensures
        r == spec_is_whitespace(c),
{
    ('\t' <= c && c <= '\r') || c == ' ' || c == '\u{85}' || c == '\u{a0}' || c == '\u{1680}'
        || ('\u{2000}' <= c && c <= '\u{200a}') || c == '\u{2028}' || c == '\u{2029}' || c
        == '\u{202f}' || c == '\u{205f}' || c == '\u{3000}'
}

fn hex_digit(c: char) -> (r: Option<u64>)
    ensures
        r == spec_hex_digit(c),
{
    if '0' <= c && c <= '9' {
        Some((c as u32 - 48) as u64)
    } else if 'a' <= c && c <= 'f' {
        Some((c as u32 - 87) as u64)
    } else if 'A' <= c && c <= 'F' {
        Some((c as u32 - 55) as u64)
    } else {
        None
    }
}

/// Parse the characters `cs[a..b]` as a hexadecimal word.
fn parse_hex(cs: &Vec<char>, a: usize, b: usize) -> (r: Result<u64, IntErrorKind>)
    requires
        a <= b <= cs@.len(),
    ensures
        r == spec_parse_hex(cs@.subrange(a as int, b as int)),
{
    let ghost p = cs@.subrange(a as int, b as int);
    if a == b {
        return Err(IntErrorKind::Empty);
    }
    if b - a == 1 && (cs[a] == '+' || cs[a] == '-') {
        return Err(IntErrorKind::InvalidDigit);
    }
    let start = if cs[a] == '+' {
        a + 1
    } else {
        a
    };
    let ghost d = cs@.subrange(start as int, b as int);
    assert(p[0] == '+' ==> d =~= p.subrange(1, p.len() as int));
    assert(p[0] != '+' ==> d =~= p);
    let mut v: u64 = 0;
    let mut i = start;
    while i < b
        invariant
            a <= start <= i <= b <= cs@.len(),
            d == cs@.subrange(start as int, b as int),
            spec_hex_prefix(d, (i - start) as nat) == Ok::<u64, IntErrorKind>(v),
            spec_parse_hex(p) == spec_hex_prefix(d, d.len()),
            p == cs@.subrange(a as int, b as int),
        decreases b - i,
    {
        assert(d[(i - start) as int] == cs@[i as int]);
        match hex_digit(cs[i]) {
            None => {
                proof {
                    assert(spec_hex_prefix(d, (i - start + 1) as nat) == Err::<u64, IntErrorKind>(
                        IntErrorKind::InvalidDigit,
                    ));
                    lemma_hex_prefix_err(d, (i - start + 1) as nat, d.len());
                }
                return Err(IntErrorKind::InvalidDigit);
            },
            Some(x) => {
                let t: u128 = (v as u128) * 16 + (x as u128);
                if t > u64::MAX as u128 {
                    proof {
                        assert(spec_hex_prefix(d, (i - start + 1) as nat) == Err::<
                            u64,
                            IntErrorKind,
                        >(IntErrorKind::PosOverflow));
                        lemma_hex_prefix_err(d, (i - start + 1) as nat, d.len());
                    }
                    return Err(IntErrorKind::PosOverflow);
                }
                v = t as u64;
            },
        }
        i = i + 1;
    }
    Ok(v)
}

/// Load a key from its text: four hexadecimal words separated by `-`,
/// with white space around the whole.
pub fn load_hex_key(text: &str) -> (r: Result<Key, KeyError>)
    ensures
        r == spec_parse_key(text@),
{
    let cs = chars_of(text);
    let ghost s = cs@;
    // Trim white space
    let mut lo: usize = 0;
    while lo < cs.len() && is_whitespace(cs[lo])
        invariant
            lo <= cs@.len(),
            spec_skip_ws(s, 0) == spec_skip_ws(s, lo as int),
            s == cs@,
        decreases cs@.len() - lo,
    {
        lo = lo + 1;
    }
    let mut hi: usize = cs.len();
    while hi > lo && is_whitespace(cs[hi - 1])
        invariant
            lo <= hi <= cs@.len(),
            lo == spec_skip_ws(s, 0),
            spec_trim_end(s, s.len() as int, lo as int) == spec_trim_end(s, hi as int, lo as int),
            s == cs@,
        decreases hi - lo,
    {
        hi = hi - 1;
    }
    let ghost v = s.subrange(lo as int, hi as int);
    assert(v == spec_trim(s));
    let ghost pieces = spec_split(v);
    // Split on '-' and parse the words
    let mut key: Key = [0u64, 0, 0, 0];
    let mut next: Option<usize> = Some(lo);
    let mut j: usize = 0;
    while j < 4
        invariant
            j <= 4,
            lo <= hi <= cs@.len(),
            s == cs@,
            s == text@,
            v == s.subrange(lo as int, hi as int),
            v == spec_trim(s),
            pieces == spec_split(v),
            spec_key_words(pieces, j as nat) matches Ok(ws) && ws.len() == j && forall|m: int|
                0 <= m < j ==> #[trigger] key[m] == ws[m],
            match next {
                Some(st) => lo <= st <= hi && pieces.len() >= j && pieces.skip(j as int)
                    == spec_split(s.subrange(st as int, hi as int)),
                None => pieces.len() == j,
            },
        decreases 4 - j,
    {
        let st = match next {
            None => {
                proof {
                    assert(spec_key_words(pieces, (j + 1) as nat) == Err::<Seq<u64>, KeyError>(
                        KeyError::ShortKey,
                    ));
                    lemma_key_words_err(pieces, (j + 1) as nat, 4);
                }
                return Err(KeyError::ShortKey);
            },
            Some(st) => st,
        };
        let ghost rest = s.subrange(st as int, hi as int);
        let mut e = st;
        while e < hi && cs[e] != '-'
            invariant
                st <= e <= hi <= cs@.len(),
                s == cs@,
                rest == s.subrange(st as int, hi as int),
                spec_dash_from(rest, 0) == spec_dash_from(rest, (e - st) as int),
            decreases hi - e,
        {
            e = e + 1;
        }
        proof {
            lemma_dash_from_bounds(rest, 0);
            assert(pieces.skip(j as int)[0] == pieces[j as int]);
            assert(pieces[j as int] == s.subrange(st as int, e as int)) by {
                assert(rest.subrange(0, (e - st) as int) =~= s.subrange(st as int, e as int));
            }
        }
        match parse_hex(&cs, st, e) {
            Err(k) => {
                proof {
                    assert(spec_key_words(pieces, (j + 1) as nat) == Err::<Seq<u64>, KeyError>(
                        KeyError::Parse(k),
                    ));
                    lemma_key_words_err(pieces, (j + 1) as nat, 4);
                }
                return Err(KeyError::Parse(k));
            },
            Ok(w) => {
                key[j] = w;
            },
        }
        proof {
            if e < hi {
                let tail = rest.subrange((e - st + 1) as int, rest.len() as int);
                assert(tail =~= s.subrange(e + 1, hi as int));
                assert(spec_split(rest) == seq![rest.subrange(0, (e - st) as int)] + spec_split(
                    tail,
                ));
                assert(pieces.skip(j + 1) =~= pieces.skip(j as int).skip(1));
                assert(pieces.skip(j + 1) =~= spec_split(s.subrange(e + 1, hi as int)));
            }
        }
        next = if e < hi {
            Some(e + 1)
        } else {
            None
        };
        j = j + 1;
    }
    if next.is_some() {
        Err(KeyError::JunkAfterKey)
    } else {
        proof {
            let ws = spec_key_words(pieces, 4).unwrap();
            assert(key =~= [ws[0], ws[1], ws[2], ws[3]]);
        }
        Ok(key)
    }
}

fn chars_of(text: &str) -> (cs: Vec<char>)
    ensures
        cs@ == text@,
{
    let mut cs: Vec<char> = Vec::new();
    for c in it: text.chars()
        invariant
            cs@ == it.seq().take(it.index() as int),
    {
        cs.push(c);
    }
    proof {
        broadcast use vstd::string::axiom_spec_iter;
    }
    assert(cs@ =~= text@);
    cs
}

} // verus!
