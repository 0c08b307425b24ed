use paranocrypt::parano::load_hex_key;
use paranocrypt::parano::utils::{IntErrorKind, KeyError};

#[test]
fn key_parses_four_words() {
    assert_eq!(
        load_hex_key("0123456789abcdef-fedcba9876543210-deadbeefcafebabe-0f1e2d3c4b5a6978\n"),
        Ok([0x0123456789abcdef, 0xfedcba9876543210, 0xdeadbeefcafebabe, 0x0f1e2d3c4b5a6978])
    );
}

#[test]
fn key_trims_white_space() {
    assert_eq!(load_hex_key("  1-2-3-4  \n"), Ok([1, 2, 3, 4]));
    assert_eq!(load_hex_key("\u{a0}\t1-2-3-4\u{3000}\r\n"), Ok([1, 2, 3, 4]));
}

#[test]
fn key_accepts_plus_and_upper_case() {
    assert_eq!(load_hex_key("+1-+A-b-C"), Ok([1, 10, 11, 12]));
    assert_eq!(load_hex_key("ffffffffffffffff-0-0-0"), Ok([u64::MAX, 0, 0, 0]));
}

#[test]
fn key_short() {
    assert_eq!(load_hex_key("1-2-3"), Err(KeyError::ShortKey));
}

#[test]
fn key_junk_after() {
    assert_eq!(load_hex_key("1-2-3-4-5"), Err(KeyError::JunkAfterKey));
    assert_eq!(load_hex_key("1-2-3-4-"), Err(KeyError::JunkAfterKey));
}

#[test]
fn key_empty_word() {
    assert_eq!(load_hex_key("1-2--4"), Err(KeyError::Parse(IntErrorKind::Empty)));
    assert_eq!(load_hex_key(""), Err(KeyError::Parse(IntErrorKind::Empty)));
    assert_eq!(load_hex_key(" \n "), Err(KeyError::Parse(IntErrorKind::Empty)));
}

#[test]
fn key_invalid_digit() {
    assert_eq!(load_hex_key("1-2-3-x"), Err(KeyError::Parse(IntErrorKind::InvalidDigit)));
    assert_eq!(load_hex_key("1 -2-3-4"), Err(KeyError::Parse(IntErrorKind::InvalidDigit)));
    assert_eq!(load_hex_key("+-1-2-3"), Err(KeyError::Parse(IntErrorKind::InvalidDigit)));
    assert_eq!(load_hex_key("zz-1"), Err(KeyError::Parse(IntErrorKind::InvalidDigit)));
    assert_eq!(
        load_hex_key("1111111111111111z-1-2-3"),
        Err(KeyError::Parse(IntErrorKind::InvalidDigit))
    );
    assert_eq!(load_hex_key("\u{e9}-1-2-3"), Err(KeyError::Parse(IntErrorKind::InvalidDigit)));
}

#[test]
fn key_overflow() {
    assert_eq!(
        load_hex_key("1-2-3-10000000000000000"),
        Err(KeyError::Parse(IntErrorKind::PosOverflow))
    );
    assert_eq!(
        load_hex_key("11111111111111111z-1-2-3"),
        Err(KeyError::Parse(IntErrorKind::PosOverflow))
    );
}

#[test]
fn key_errors_match_std_parsing() {
    // The word parser agrees with the standard library's on the cases above.
    for w in ["", "+", "-", "+1", "1 ", "10000000000000000", "ffffffffffffffff", "Fe", "g"] {
        let ours = load_hex_key(&format!("{}-0-0-0", w));
        let std = u64::from_str_radix(w, 16);
        match (ours, std) {
            (Ok(k), Ok(v)) => assert_eq!(k[0], v),
            (Err(KeyError::Parse(_)), Err(_)) => {}
            (o, s) => panic!("disagree on {:?}: {:?} vs {:?}", w, o, s),
        }
    }
}

#[test]
fn key_formatted_in_hex_loads_back() {
    let keys: [[u64; 4]; 3] = [
        [0, 1, 0xf, 0x10],
        [u64::MAX, 0xdeadbeef, 0x0123456789abcdef, 0x8000000000000000],
        [0x1234, 0xabcdef, 0, u64::MAX - 1],
    ];
    for k in keys {
        let text = format!("{:x}-{:x}-{:x}-{:x}", k[0], k[1], k[2], k[3]);
        assert_eq!(load_hex_key(&text), Ok(k));
        assert_eq!(load_hex_key(&format!(" \t{}\n", text)), Ok(k));
    }
}
