use paranocrypt::cipher::Cipher;

#[test]
fn legacy_new_table_is_zero() {
    let c = Cipher::new([1, 2, 3, 4]);
    assert_eq!(c.get(), [0, 0, 0, 0]);
}

#[test]
fn legacy_step_from_zero_table() {
    let mut c = Cipher::new([1, 2, 3, 4]);
    c.step();
    assert_eq!(
        c.get(),
        [0xb78016fb4ff20499, 0x759540f773e5a41c, 0x1a06e2792f759d62, 0xa13d5c314afc8087]
    );
    c.step();
    assert_eq!(c.get(), [0, 0, 0, 0]);
}
