use paranocrypt::cipher::encrypt;
use paranocrypt::parano::transform::Transform;
use paranocrypt::parano::{Block, Key};

const K2: Key = [
    0x0123456789abcdef,
    0xfedcba9876543210,
    0xdeadbeefcafebabe,
    0x0f1e2d3c4b5a6978,
];

#[test]
fn transform_small_key_and_block() {
    let tr = Transform::new([1, 2, 3, 4]);
    let y = tr.transform([[5, 6, 7, 8], [9, 10, 11, 12]]);
    assert_eq!(
        y,
        [
            [0xe3731bce8575ef5a, 0xa2e9e1d65429909d, 0x6cc23a7b3170bbdc, 0x971b5de76ae1a468],
            [0x9a20cba88ba29bce, 0xe4ca69a46e3ca361, 0x3f608c346495d874, 0xfe521401ed2e9bf8],
        ]
    );
}

#[test]
fn transform_zero_key_zero_block() {
    let tr = Transform::new([0; 4]);
    let y = tr.transform([[0; 4]; 2]);
    assert_eq!(
        y,
        [
            [0x1ad66b653b97b543, 0x1e18d79c0d7b5991, 0xae52f90e4e137ac4, 0x2f96f99a4cf17dd5],
            [0xf0301605f38178ff, 0x89baf7de6863d196, 0xc9d398e48355013c, 0x5642cfbbcd92924e],
        ]
    );
}

#[test]
fn transform_extreme_words() {
    let x: Block = [
        [0xffffffffffffffff, 0, 0x8000000000000000, 1],
        [2, 3, 0x7fffffffffffffff, 0xaaaaaaaaaaaaaaaa],
    ];
    let y = Transform::new(K2).transform(x);
    assert_eq!(
        y,
        [
            [0x83fd13eb2c9c4a83, 0x2d4a2d38bd27ea37, 0x72327374909cf094, 0x43df528a962bdf1b],
            [0x9742c4c2c371932a, 0xc20c573c68eff65b, 0x661774b4403e0e67, 0x0be6aaf306a4bb3b],
        ]
    );
}

#[test]
fn rekey_changes_the_key() {
    let mut tr = Transform::new([0; 4]);
    tr.rekey([1, 2, 3, 4]);
    assert_eq!(
        tr.transform([[5, 6, 7, 8], [9, 10, 11, 12]]),
        Transform::new([1, 2, 3, 4]).transform([[5, 6, 7, 8], [9, 10, 11, 12]])
    );
}

#[test]
fn encrypt_is_the_transform() {
    let x: Block = [[5, 6, 7, 8], [9, 10, 11, 12]];
    assert_eq!(encrypt([1, 2, 3, 4], x), Transform::new([1, 2, 3, 4]).transform(x));
    assert_eq!(encrypt(K2, x), Transform::new(K2).transform(x));
}

#[test]
fn transform_is_injective_on_neighbours() {
    // Blocks that differ in one bit transform to different blocks.
    let tr = Transform::new(K2);
    let base: Block = [[0; 4]; 2];
    let y0 = tr.transform(base);
    for j in 0..2 {
        for k in 0..4 {
            let mut x = base;
            x[j][k] ^= 1;
            assert_ne!(tr.transform(x), y0);
        }
    }
}
