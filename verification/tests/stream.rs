use paranocrypt::parano::cipher::StreamStep;
use paranocrypt::parano::utils::ReadError;
use paranocrypt::parano::{Cipher, CipherState, Key, Q};

const K0: Key = [
    0x0123456789abcdef,
    0xfedcba9876543210,
    0xdeadbeefcafebabe,
    0x0f1e2d3c4b5a6978,
];

fn quad_bytes(q: Q, out: &mut Vec<u8>) {
    for w in q {
        out.extend_from_slice(&w.to_le_bytes());
    }
}

fn state_bytes(r0: Q, r1: Q, p0: Q, p1: Q) -> Vec<u8> {
    let mut v = Vec::new();
    quad_bytes(r0, &mut v);
    quad_bytes(r1, &mut v);
    quad_bytes(p0, &mut v);
    quad_bytes(p1, &mut v);
    v
}

fn sample_state_bytes() -> Vec<u8> {
    state_bytes(
        [0x1111111111111111, 0x2222222222222222, 0x3333333333333333, 0x4444444444444444],
        [0x5555555555555555, 0x6666666666666666, 0x7777777777777777, 0x8888888888888888],
        [0x0102030405060708, 0, 0, 0],
        [0, 0, 0, 0x99],
    )
}

fn sample_state() -> CipherState {
    let bytes = sample_state_bytes();
    let mut at = 0;
    CipherState::read(&bytes, &mut at).unwrap()
}

#[test]
fn state_write_read_roundtrip() {
    let bytes: Vec<u8> = (0..128u32).map(|x| (x * 7 + 3) as u8).collect();
    let mut at = 0;
    let s = CipherState::read(&bytes, &mut at).unwrap();
    assert_eq!(at, 128);
    let mut out = Vec::new();
    s.write(&mut out);
    assert_eq!(out, bytes);
    let mut at2 = 0;
    assert_eq!(CipherState::read(&out, &mut at2), Ok(s));
}

#[test]
fn state_write_is_little_endian() {
    let s = sample_state();
    let mut out = vec![0xaa];
    s.write(&mut out);
    assert_eq!(out.len(), 129);
    assert_eq!(out[0], 0xaa);
    assert_eq!(&out[1..9], &[0x11; 8]);
    assert_eq!(&out[65..73], &[8, 7, 6, 5, 4, 3, 2, 1]);
    assert_eq!(out[128 - 8 + 1], 0x99);
}

#[test]
fn state_read_at_cursor() {
    let mut bytes = vec![9, 9, 9];
    bytes.extend(sample_state_bytes());
    let mut at = 3;
    let s = CipherState::read(&bytes, &mut at).unwrap();
    assert_eq!(at, 131);
    assert_eq!(s, sample_state());
}

#[test]
fn state_read_short_input() {
    let bytes = vec![0u8; 127];
    let mut at = 0;
    assert_eq!(CipherState::read(&bytes, &mut at), Err(ReadError::UnexpectedEof));
    let bytes = vec![0u8; 130];
    let mut at = 3;
    assert_eq!(CipherState::read(&bytes, &mut at), Err(ReadError::UnexpectedEof));
    let mut at = 200;
    assert_eq!(CipherState::read(&bytes, &mut at), Err(ReadError::UnexpectedEof));
}

#[test]
fn keystream_first_bytes() {
    let mut c = Cipher::new(K0, sample_state());
    let mut buf = vec![0u8; 80];
    c.transform(&mut buf);
    let expected: [u8; 80] = [
        133, 234, 183, 61, 16, 141, 222, 184, 99, 73, 196, 139, 163, 160, 254, 197, 25, 11, 28,
        79, 66, 241, 86, 198, 27, 214, 15, 170, 39, 144, 74, 219, 1, 128, 151, 245, 248, 111,
        112, 193, 77, 19, 173, 45, 41, 218, 50, 10, 10, 203, 25, 200, 166, 122, 124, 152, 31,
        27, 148, 181, 94, 107, 248, 167, 124, 161, 21, 33, 4, 207, 196, 88, 183, 105, 31, 33,
        211, 98, 47, 99,
    ];
    assert_eq!(buf, expected.to_vec());
}

#[test]
fn keystream_across_traffic_rekey() {
    let mut c = Cipher::new(K0, sample_state());
    let mut buf = vec![0u8; 256 * 64 + 100];
    c.transform(&mut buf);
    let expected: [u8; 100] = [
        80, 196, 186, 166, 101, 241, 81, 74, 62, 103, 64, 20, 133, 170, 56, 172, 111, 197, 85,
        230, 98, 11, 170, 167, 120, 214, 189, 229, 17, 239, 30, 17, 19, 16, 169, 52, 150, 244,
        108, 167, 207, 22, 102, 195, 250, 142, 87, 253, 52, 250, 202, 227, 246, 108, 116, 88, 91,
        218, 29, 72, 73, 111, 223, 167, 104, 213, 38, 105, 136, 28, 177, 151, 12, 203, 38, 32,
        177, 155, 66, 22, 207, 95, 127, 166, 71, 1, 87, 106, 225, 238, 48, 18, 160, 253, 19, 87,
        138, 111, 122, 112,
    ];
    assert_eq!(&buf[16320..16420], &expected[..]);
    let sum: u64 = buf.iter().map(|b| *b as u64).sum();
    assert_eq!(sum, 2100419);
}

#[test]
fn decrypt_restores_plaintext() {
    let plain: Vec<u8> = b"The quick brown fox jumps over the lazy dog, again and again and again."
        .to_vec();
    let mut enc = Cipher::new(K0, sample_state());
    let mut buf = plain.clone();
    enc.transform(&mut buf);
    assert_ne!(buf, plain);
    let mut dec = Cipher::new(K0, sample_state());
    dec.transform(&mut buf);
    assert_eq!(buf, plain);
}

#[test]
fn chunked_transform_matches_whole() {
    let data: Vec<u8> = (0..300u32).map(|x| (x % 251) as u8).collect();
    let mut whole = data.clone();
    let mut c1 = Cipher::new(K0, sample_state());
    c1.transform(&mut whole);
    let mut c2 = Cipher::new(K0, sample_state());
    let mut a = data[..7].to_vec();
    let mut b = data[7..200].to_vec();
    let mut c = data[200..].to_vec();
    c2.transform(&mut a);
    c2.transform(&mut b);
    c2.transform(&mut c);
    let mut joined = a;
    joined.extend(b);
    joined.extend(c);
    assert_eq!(joined, whole);
}

#[test]
fn process_stream_steps() {
    let mut c = Cipher::new(K0, sample_state());
    let mut chunk = vec![0u8; 10];
    assert_eq!(c.process_stream(&mut chunk, 5), StreamStep::Write(15));
    assert_eq!(chunk, vec![133, 234, 183, 61, 16, 141, 222, 184, 99, 73]);
    let mut empty: Vec<u8> = Vec::new();
    assert_eq!(c.process_stream(&mut empty, 15), StreamStep::Done(15));
    let mut chunk = vec![0u8; 3];
    assert_eq!(c.process_stream(&mut chunk, 15), StreamStep::Write(18));
    assert_eq!(chunk, vec![196, 139, 163]);
}

#[test]
fn counter_room_near_the_end() {
    let bytes = state_bytes([1; 4], [2; 4], [u64::MAX - 1, 0, 0, 0], [0; 4]);
    let mut at = 0;
    let mut c = Cipher::new(K0, CipherState::read(&bytes, &mut at).unwrap());
    assert!(c.has_counter_room(0));
    assert!(c.has_counter_room(64));
    assert!(!c.has_counter_room(65));
    let mut buf = vec![0u8; 64];
    c.transform(&mut buf);
    assert!(c.has_counter_room(0));
    assert!(!c.has_counter_room(1));
    let full = state_bytes([1; 4], [2; 4], [u64::MAX, 0, 0, 0], [0; 4]);
    let mut at = 0;
    let c = Cipher::new(K0, CipherState::read(&full, &mut at).unwrap());
    assert!(!c.has_counter_room(1));
    assert!(c.has_counter_room(0));
}

#[test]
fn message_roundtrip_through_header() {
    let plain: Vec<u8> = (0..1000u32).map(|x| (x * 31 % 256) as u8).collect();
    let state = sample_state();
    let mut message = Vec::new();
    state.write(&mut message);
    let mut body = plain.clone();
    Cipher::new(K0, state).transform(&mut body);
    message.extend(&body);

    let mut at = 0;
    let received = CipherState::read(&message, &mut at).unwrap();
    let mut decrypted = message[at..].to_vec();
    Cipher::new(K0, received).transform(&mut decrypted);
    assert_eq!(decrypted, plain);
}

#[test]
fn keystream_does_not_depend_on_data() {
    let b1: Vec<u8> = (0..200u32).map(|x| (x * 13 % 256) as u8).collect();
    let b2: Vec<u8> = (0..200u32).map(|x| (x * 101 % 256) as u8).collect();
    let mut o1 = b1.clone();
    let mut o2 = b2.clone();
    let mut c1 = Cipher::new(K0, sample_state());
    let mut c2 = Cipher::new(K0, sample_state());
    c1.transform(&mut o1);
    c2.transform(&mut o2);
    for j in 0..200 {
        assert_eq!(o1[j] ^ b1[j], o2[j] ^ b2[j]);
    }
    // Both ciphers go on with the same keystream.
    let mut z1 = vec![0u8; 20];
    let mut z2 = vec![0u8; 20];
    c1.transform(&mut z1);
    c2.transform(&mut z2);
    assert_eq!(z1, z2);
}

#[test]
fn empty_transform_changes_nothing() {
    let mut c1 = Cipher::new(K0, sample_state());
    let mut empty: Vec<u8> = Vec::new();
    c1.transform(&mut empty);
    let mut buf = vec![0u8; 10];
    c1.transform(&mut buf);
    assert_eq!(buf, vec![133, 234, 183, 61, 16, 141, 222, 184, 99, 73]);
}
