use paranocrypt::parano::hardener::Hardener;
use paranocrypt::parano::transform::Transform;

#[test]
fn hardener_new_derives_key() {
    let h = Hardener::new(Transform::new([1, 2, 3, 4]), [5, 6, 7, 8]);
    assert_eq!(
        h.get(),
        [0xd979330b0d6f217b, 0x2fd9800ca44d2221, 0x8e3d61ea075df7bc, 0x3e12f785be7cea89]
    );
}

#[test]
fn hardener_step_changes_key() {
    let mut h = Hardener::new(Transform::new([1, 2, 3, 4]), [5, 6, 7, 8]);
    h.step();
    assert_eq!(
        h.get(),
        [0x804e884a0e5d2e87, 0x86cbeb38dc37cb70, 0x75a7eb0872f38fd7, 0x9c607d1220e95ee8]
    );
}

#[test]
fn hardener_rekey_forgets_previous_state() {
    let mut h = Hardener::new(Transform::new([1, 2, 3, 4]), [5, 6, 7, 8]);
    h.step();
    h.rekey([9, 10, 11, 12], [13, 14, 15, 16]);
    let fresh = Hardener::new(Transform::new([9, 10, 11, 12]), [13, 14, 15, 16]);
    let expected = [0x777f7c5ae69fda4f, 0x03408702a0c3cd6f, 0x4c826d36985e0cc8, 0x1e79473bfcc90559];
    assert_eq!(h.get(), expected);
    assert_eq!(fresh.get(), expected);
}

#[test]
fn hardener_init_is_deterministic() {
    let mut h = Hardener::new(Transform::new([1, 2, 3, 4]), [5, 6, 7, 8]);
    let k = h.get();
    h.init([5, 6, 7, 8]);
    assert_eq!(h.get(), k);
}
