use hll::explicit::ExplicitStorage;
use hll::settings::Settings;
use hll::storage::Storage;

fn explicit_test_settings() -> Settings {
    Settings::new(11, 5, 3, true).unwrap()
}

#[test]
fn explicit_values_are_kept_once_and_in_signed_order() {
    let mut storage = ExplicitStorage::with_settings(&explicit_test_settings());
    assert_eq!(0, storage.len());
    storage.set(5);
    storage.set(0x8000_0000_0000_0000);
    storage.set(5);
    storage.set(0xFFFF_FFFF_FFFF_FFFF);
    storage.set(0);
    assert_eq!(4, storage.len());
    assert_eq!(
        vec![0x8000_0000_0000_0000, 0xFFFF_FFFF_FFFF_FFFF, 0, 5],
        storage.iter()
    );
}

#[test]
fn explicit_is_full_above_the_threshold() {
    let mut storage = ExplicitStorage::with_settings(&explicit_test_settings());
    for v in 1..=3u64 {
        storage.set(v);
        assert!(!storage.is_full());
    }
    storage.set(4);
    assert!(storage.is_full());
    // the calculated threshold of 2^11 registers of 5 bits is 160
    let mut auto = ExplicitStorage::with_settings(&Settings::new(11, 5, -1, true).unwrap());
    for v in 1..=160u64 {
        auto.set(v);
    }
    assert!(!auto.is_full());
    auto.set(161);
    assert!(auto.is_full());
    // without explicit storage any value is one too many
    let mut none = ExplicitStorage::with_settings(&Settings::new(11, 5, 0, true).unwrap());
    assert!(!none.is_full());
    none.set(1);
    assert!(none.is_full());
}

#[test]
fn explicit_union_takes_the_values_of_both() {
    let mut a = ExplicitStorage::with_settings(&explicit_test_settings());
    let mut b = ExplicitStorage::with_settings(&explicit_test_settings());
    a.set(1);
    a.set(2);
    b.set(2);
    b.set(0xFFFF_FFFF_FFFF_FFFF);
    a.union_explicit(&b);
    assert_eq!(vec![0xFFFF_FFFF_FFFF_FFFF, 1, 2], a.iter());
    assert_eq!(vec![0xFFFF_FFFF_FFFF_FFFF, 2], b.iter());
}

#[test]
fn explicit_image_is_eight_bytes_a_value() {
    let mut storage = ExplicitStorage::with_settings(&explicit_test_settings());
    storage.set(0x0102_0304_0506_0708);
    storage.set(0xF000_0000_0000_0001);
    assert_eq!(16, storage.bytes_size());
    let mut buf = vec![0xAAu8; 18];
    storage.to_bytes(&mut buf);
    assert_eq!(
        vec![
            0xF0, 0x00, 0x00, 0x00, 0x00, 0x00, 0x00, 0x01, //
            0x01, 0x02, 0x03, 0x04, 0x05, 0x06, 0x07, 0x08, //
            0xAA, 0xAA,
        ],
        buf
    );
    let back = ExplicitStorage::from_bytes(&explicit_test_settings(), &buf[..16]);
    assert_eq!(storage, back);
    let none = ExplicitStorage::from_bytes(&explicit_test_settings(), &[]);
    assert_eq!(0, none.len());
    // a value that stands twice in an image is one value
    let twice = ExplicitStorage::from_bytes(
        &explicit_test_settings(),
        &[0, 0, 0, 0, 0, 0, 0, 9, 0, 0, 0, 0, 0, 0, 0, 9],
    );
    assert_eq!(vec![9], twice.iter());
}

#[test]
fn explicit_clear_and_clone_with_settings() {
    let mut storage = ExplicitStorage::with_settings(&explicit_test_settings());
    storage.set(7);
    let other = Settings::new(4, 1, 0, false).unwrap();
    let copy = storage.clone_with_settings(&other);
    assert_eq!(other, copy.settings);
    assert_eq!(vec![7], copy.iter());
    storage.clear();
    assert_eq!(0, storage.len());
    assert_eq!(explicit_test_settings(), storage.settings);
    assert_eq!(1, copy.len());
}
