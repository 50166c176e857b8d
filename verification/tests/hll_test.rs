use hll::dense::DenseRegisters;
use hll::explicit::ExplicitStorage;
use hll::settings::{Settings, SettingsError};
use hll::sparse::SparseRegisters;
use hll::{Cardinality, Hll, HllError};

fn construct_hll_value(log2m: u32, register: u32, value: u32) -> u64 {
    let substream_value: u64 = 1 << (value - 1);
    let substream_value = substream_value << log2m;

    substream_value | register as u64
}

fn estimate(counts: &[u32], zeros: u32, settings: &Settings) -> u64 {
    let m = (1u64 << settings.log_2m) as f64;
    let mut sum = 0.0f64;
    for (value, count) in counts.iter().enumerate() {
        sum += (*count as f64) / 2f64.powi(value as i32);
    }
    let alpha_msquared = match settings.log_2m {
        4 => 0.673 * m * m,
        5 => 0.697 * m * m,
        6 => 0.709 * m * m,
        _ => (0.7213 / (1.0 + 1.079 / m)) * m * m,
    };
    let two_to_l = 2f64.powf(settings.two_to_l_exponent() as f64);
    let estimator = alpha_msquared / sum;
    if zeros != 0 && estimator < settings.small_estimator_cutoff() as f64 {
        return (m * (m / zeros as f64).ln()).ceil() as u64;
    }
    if estimator <= two_to_l / 30.0 {
        return estimator.ceil() as u64;
    }
    (-1.0 * two_to_l * (1.0 - (estimator / two_to_l)).ln()).ceil() as u64
}

fn cardinality(hll: &Hll) -> u64 {
    match hll.cardinality() {
        Cardinality::Exact(n) => n,
        Cardinality::Estimate {
            counts,
            number_of_zeros,
        } => estimate(&counts, number_of_zeros, hll.settings()),
    }
}

fn registers(hll: &Hll) -> Vec<u8> {
    let settings = *hll.settings();
    let dense = match hll {
        Hll::Empty(_) => DenseRegisters::with_settings(&settings),
        Hll::Explicit(explicit_storage) => {
            let mut dense = DenseRegisters::with_settings(&settings);
            dense.union_explicit(explicit_storage);
            dense
        }
        Hll::Sparse(sparse_registers) => sparse_registers.to_dense(None),
        Hll::Dense(dense_registers) => dense_registers.clone_with_settings(&settings),
    };
    (0..(1u32 << settings.log_2m)).map(|i| dense.get(i)).collect()
}

#[test]
fn test_hll() {
    // Create settings for the HLL
    let settings = Settings::new(
        10,   // log_2m: number of registers will be 2^10
        4,    // reg_width: 4 bits per register
        -1,   // explicit_threshold: auto-calculate threshold
        true, // sparse_enabled: use sparse representation
    )
    .unwrap();

    // Create a new HLL with the settings
    let mut hll = Hll::new(settings);

    // Add elements
    hll.add_raw(123456789);
    println!("Cardinality: {}", cardinality(&hll)); // prints "1"
    assert_eq!(1, cardinality(&hll));

    // Create another HLL and add elements
    let mut hll2 = Hll::new(settings);
    hll2.add_raw(123456789);
    hll2.add_raw(987654321);

    // Union HLLs
    hll2.union(true, &hll).unwrap();
    println!("Cardinality after union: {}", cardinality(&hll2)); // prints "2"
    assert_eq!(2, cardinality(&hll2));

    // Serialize to bytes
    let bytes = hll2.to_bytes();

    // Deserialize from bytes
    let hll3 = Hll::from_bytes(&bytes).unwrap();
    println!("Cardinality after deserialization: {}", cardinality(&hll3)); // prints "2"
    assert_eq!(2, cardinality(&hll3));
    assert_eq!(hll2, hll3);
}

#[test]
fn the_first_value_is_counted_unless_it_is_zero() {
    let settings = Settings::new(11, 5, -1, true).unwrap();
    let mut hll = Hll::new(settings);
    hll.add_raw(0);
    assert_eq!(Hll::Empty(settings), hll);
    assert_eq!(Cardinality::Exact(0), hll.cardinality());
    hll.add_raw(0xDEAD_BEEF);
    assert_eq!(2, hll.type_id());
    assert_eq!(Cardinality::Exact(1), hll.cardinality());
    hll.add_raw(0xDEAD_BEEF);
    assert_eq!(Cardinality::Exact(1), hll.cardinality());
    hll.add_raw(0);
    assert_eq!(Cardinality::Exact(1), hll.cardinality());
}

#[test]
fn the_first_value_goes_to_the_storage_that_the_settings_name() {
    let mut explicit = Hll::new(Settings::new(11, 5, 1, false).unwrap());
    explicit.add_raw(7);
    assert_eq!(2, explicit.type_id());
    let mut sparse = Hll::new(Settings::new(11, 5, 0, true).unwrap());
    sparse.add_raw(construct_hll_value(11, 5, 3));
    assert_eq!(3, sparse.type_id());
    assert!(matches!(sparse.cardinality(), Cardinality::Estimate { .. }));
    if let Hll::Sparse(sparse_registers) = &sparse {
        assert_eq!(vec![(5, 3)], sparse_registers.iter());
    }
    let mut dense = Hll::new(Settings::new(11, 5, 0, false).unwrap());
    dense.add_raw(construct_hll_value(11, 5, 3));
    assert_eq!(4, dense.type_id());
    let mut expected = vec![0u8; 2048];
    expected[5] = 3;
    assert_eq!(expected, registers(&dense));
    assert_eq!(expected, registers(&sparse));
    // a value without a bit above its register's number counts for nothing
    let mut untouched = Hll::new(Settings::new(11, 5, 0, false).unwrap());
    untouched.add_raw(5);
    assert_eq!(4, untouched.type_id());
    assert_eq!(vec![0u8; 2048], registers(&untouched));
    assert_eq!(0, cardinality(&untouched));
}

#[test]
fn one_register_of_a_sparse_storage_gives_the_small_range_estimate() {
    let settings = Settings::new(11, 5, 0, true).unwrap();
    let mut hll = Hll::new(settings);
    hll.add_raw(construct_hll_value(11, 0, 31));
    if let Hll::Sparse(sparse_registers) = &hll {
        assert_eq!(vec![(0, 31)], sparse_registers.iter());
        let (counts, zeros) = sparse_registers.indicator();
        assert_eq!(2047, zeros);
        assert_eq!(2047, counts[0]);
        assert_eq!(1, counts[31]);
    } else {
        panic!("not sparse");
    }
    let expected = (2048f64 * (2048f64 / 2047f64).ln()).ceil() as u64;
    assert_eq!(expected, cardinality(&hll));
    assert_eq!(2, expected);
}

#[test]
fn no_register_falls_when_values_are_counted() {
    let settings = Settings::new(4, 5, 2, true).unwrap();
    let mut hll = Hll::new(settings);
    let mut before = registers(&hll);
    let mut kinds = Vec::new();
    for i in 1..200u64 {
        hll.add_raw(i.wrapping_mul(0x9E37_79B9_7F4A_7C15));
        let after = registers(&hll);
        assert!(before.iter().zip(after.iter()).all(|(b, a)| b <= a));
        before = after;
        if kinds.last() != Some(&hll.type_id()) {
            kinds.push(hll.type_id());
        }
    }
    assert_eq!(vec![2, 3, 4], kinds);
}

#[test]
fn a_full_storage_moves_to_the_next() {
    let settings = Settings::new(4, 5, 2, true).unwrap();
    assert_eq!(Some(8), settings.sparse_threshold);
    let mut hll = Hll::new(settings);
    hll.add_raw(construct_hll_value(4, 0, 1));
    hll.add_raw(construct_hll_value(4, 1, 2));
    assert_eq!(2, hll.type_id());
    assert_eq!(Cardinality::Exact(2), hll.cardinality());
    // the third value is one more than the explicit threshold allows
    hll.add_raw(construct_hll_value(4, 2, 3));
    assert_eq!(3, hll.type_id());
    if let Hll::Sparse(sparse_registers) = &hll {
        assert_eq!(vec![(0, 1), (1, 2), (2, 3)], sparse_registers.iter());
    }
    for i in 3..8 {
        hll.add_raw(construct_hll_value(4, i, 1));
        assert_eq!(3, hll.type_id());
    }
    // the ninth register is one more than the sparse threshold allows
    hll.add_raw(construct_hll_value(4, 8, 5));
    assert_eq!(4, hll.type_id());
    assert_eq!(vec![1, 2, 3, 1, 1, 1, 1, 1, 5, 0, 0, 0, 0, 0, 0, 0], registers(&hll));
    assert!(!hll.is_full());

    // without a sparse storage the explicit one moves to the dense one
    let mut other = Hll::new(Settings::new(4, 5, 1, false).unwrap());
    other.add_raw(construct_hll_value(4, 0, 1));
    assert_eq!(2, other.type_id());
    other.add_raw(construct_hll_value(4, 3, 7));
    assert_eq!(4, other.type_id());
    assert_eq!(vec![1, 0, 0, 7, 0, 0, 0, 0, 0, 0, 0, 0, 0, 0, 0, 0], registers(&other));
}

#[test]
fn as_registers_counts_every_value() {
    let settings = Settings::new(4, 5, 100, true).unwrap();
    let mut explicit_storage = ExplicitStorage::with_settings(&settings);
    explicit_storage.set(construct_hll_value(4, 3, 2));
    explicit_storage.set(construct_hll_value(4, 3, 6));
    explicit_storage.set(construct_hll_value(4, 9, 1));
    explicit_storage.set(4);
    assert_eq!(4, explicit_storage.len());
    let promoted = explicit_storage.as_registers();
    if let Hll::Sparse(sparse_registers) = &promoted {
        assert_eq!(vec![(3, 6), (9, 1)], sparse_registers.iter());
    } else {
        panic!("not sparse");
    }
    for i in 0..16 {
        explicit_storage.set(construct_hll_value(4, i, 1));
    }
    let dense = explicit_storage.as_registers();
    assert_eq!(4, dense.type_id());
    assert_eq!(vec![1, 1, 1, 6, 1, 1, 1, 1, 1, 1, 1, 1, 1, 1, 1, 1], registers(&dense));
}

#[test]
fn union_with_an_empty_estimator() {
    let settings = Settings::new(11, 5, 4, true).unwrap();
    let empty = Hll::new(settings);
    let mut values = Hll::new(settings);
    values.add_raw(11);
    values.add_raw(12);
    let mut registers_only = Hll::new(Settings::new(11, 5, 0, true).unwrap());
    registers_only.add_raw(construct_hll_value(11, 3, 4));
    let mut dense = Hll::new(Settings::new(11, 5, 0, false).unwrap());
    dense.add_raw(construct_hll_value(11, 3, 4));
    for hll in [values, registers_only, dense] {
        let mut merged = hll.clone();
        merged.union(true, &empty).unwrap();
        assert_eq!(hll, merged);
        let mut adopted = empty.clone();
        adopted.union(true, &hll).unwrap();
        assert_eq!(registers(&hll), registers(&adopted));
        assert_eq!(hll.type_id(), adopted.type_id());
    }
    // an empty estimator without a sparse storage takes a sparse one over as a dense one
    let mut strict = Hll::new(Settings::new(11, 5, 0, false).unwrap());
    let mut sparse = Hll::new(Settings::new(11, 5, 0, true).unwrap());
    sparse.add_raw(construct_hll_value(11, 3, 4));
    strict.union(true, &sparse).unwrap();
    assert_eq!(4, strict.type_id());
    assert_eq!(registers(&sparse), registers(&strict));
    assert_eq!(None, strict.settings().sparse_threshold);
}

#[test]
fn union_gives_the_same_registers_either_way() {
    let layouts = [
        Settings::new(4, 5, 100, true).unwrap(),
        Settings::new(4, 5, 0, true).unwrap(),
        Settings::new(4, 5, 0, false).unwrap(),
        Settings::new(4, 5, 2, true).unwrap(),
    ];
    let left_values: Vec<u64> = (1..6u64).map(|i| i.wrapping_mul(0x9E37_79B9_7F4A_7C15)).collect();
    let right_values: Vec<u64> = (3..12u64).map(|i| i.wrapping_mul(0xC2B2_AE3D_27D4_EB4F)).collect();
    for left_settings in layouts {
        for right_settings in layouts {
            let mut left = Hll::new(left_settings);
            for v in &left_values {
                left.add_raw(*v);
            }
            let mut right = Hll::new(right_settings);
            for v in &right_values {
                right.add_raw(*v);
            }
            let expected: Vec<u8> = registers(&left)
                .iter()
                .zip(registers(&right).iter())
                .map(|(a, b)| *a.max(b))
                .collect();
            let mut one = left.clone();
            one.union(true, &right).unwrap();
            let mut other = right.clone();
            other.union(true, &left).unwrap();
            assert_eq!(expected, registers(&one));
            assert_eq!(expected, registers(&other));
            assert_eq!(left_settings, *one.settings());
            assert_eq!(right_settings, *other.settings());
        }
    }
}

#[test]
fn union_of_explicit_storages_keeps_each_value_once() {
    let settings = Settings::new(11, 5, 4, true).unwrap();
    let mut a = Hll::new(settings);
    a.add_raw(1);
    a.add_raw(2);
    let mut b = Hll::new(settings);
    b.add_raw(2);
    b.add_raw(3);
    a.union(true, &b).unwrap();
    assert_eq!(Cardinality::Exact(3), a.cardinality());
    if let Hll::Explicit(explicit_storage) = &a {
        assert_eq!(vec![1, 2, 3], explicit_storage.iter());
    }
    // one more than the threshold allows
    let mut c = Hll::new(settings);
    c.add_raw(4);
    c.add_raw(5);
    a.union(true, &c).unwrap();
    assert_eq!(3, a.type_id());
}

#[test]
fn strict_union_asks_for_the_same_layout() {
    let mut a = Hll::new(Settings::new(11, 5, 4, true).unwrap());
    a.add_raw(1);
    let before = a.clone();
    let b = Hll::new(Settings::new(12, 5, 4, true).unwrap());
    let c = Hll::new(Settings::new(11, 4, 4, true).unwrap());
    assert_eq!(Err(HllError::Settings(SettingsError::MisMatch)), a.union(true, &b));
    assert_eq!(Err(HllError::Settings(SettingsError::MisMatch)), a.union(true, &c));
    assert_eq!(before, a);
    assert_eq!(Err(SettingsError::MisMatch), a.settings_check(&b));
    assert_eq!(Ok(()), a.union(false, &b));
    assert_eq!(before, a);
    assert_eq!(HllError::Settings(SettingsError::Log2m), HllError::from(SettingsError::Log2m));
}

#[test]
fn clear_keeps_the_settings_and_the_kind_of_storage() {
    let layouts = [
        Settings::new(4, 5, 100, true).unwrap(),
        Settings::new(4, 5, 0, true).unwrap(),
        Settings::new(4, 5, 0, false).unwrap(),
    ];
    for settings in layouts {
        let mut hll = Hll::new(settings);
        for i in 1..5u64 {
            hll.add_raw(i.wrapping_mul(0x9E37_79B9_7F4A_7C15));
        }
        let kind = hll.type_id();
        assert!(cardinality(&hll) > 0);
        hll.clear();
        assert_eq!(0, cardinality(&hll));
        assert_eq!(kind, hll.type_id());
        assert_eq!(settings, *hll.settings());
        assert_eq!(vec![0u8; 16], registers(&hll));
    }
    let mut empty = Hll::new(layouts[0]);
    empty.clear();
    assert_eq!(Hll::Empty(layouts[0]), empty);
}

#[test]
fn clone_with_settings_keeps_what_is_held() {
    let settings = Settings::new(4, 5, 100, true).unwrap();
    let other = Settings::new(4, 5, 2, false).unwrap();
    let mut hll = Hll::new(settings);
    hll.add_raw(9);
    hll.add_raw(10);
    let copy = hll.clone_with_settings(&other);
    assert_eq!(other, *copy.settings());
    assert_eq!(2, copy.type_id());
    assert_eq!(Cardinality::Exact(2), copy.cardinality());
    assert_eq!(settings, *hll.settings());
    let sparse = Hll::Sparse(SparseRegisters::with_settings(&settings)).clone_with_settings(&other);
    assert_eq!(3, sparse.type_id());
    assert_eq!(Hll::Empty(other), Hll::new(settings).clone_with_settings(&other));
}

#[test]
fn an_image_comes_back_as_the_same_image() {
    let layouts = [
        Settings::new(11, 5, -1, true).unwrap(),
        Settings::new(11, 5, 256, true).unwrap(),
        Settings::new(11, 5, 300, false).unwrap(),
        Settings::new(11, 5, 0, true).unwrap(),
        Settings::new(11, 5, 0, false).unwrap(),
        Settings::new(4, 8, 3, true).unwrap(),
    ];
    for settings in layouts {
        let mut hll = Hll::new(settings);
        for i in 0..40u64 {
            let bytes = hll.to_bytes();
            let back = Hll::from_bytes(&bytes).unwrap();
            assert_eq!(hll.type_id(), back.type_id());
            assert_eq!(bytes, back.to_bytes());
            assert_eq!(registers(&hll), registers(&back));
            hll.add_raw((i + 1).wrapping_mul(0x9E37_79B9_7F4A_7C15));
        }
    }
}

#[test]
fn the_image_of_an_explicit_storage_holds_the_values_in_order() {
    let settings = Settings::new(11, 5, -1, true).unwrap();
    let mut hll = Hll::new(settings);
    hll.add_raw(0x0102_0304_0506_0708);
    hll.add_raw(0xFFFF_FFFF_FFFF_FFFE);
    hll.add_raw(3);
    let bytes = hll.to_bytes();
    assert_eq!(
        vec![
            0x12, 0x8B, 0x7F, //
            0xFF, 0xFF, 0xFF, 0xFF, 0xFF, 0xFF, 0xFF, 0xFE, //
            0x00, 0x00, 0x00, 0x00, 0x00, 0x00, 0x00, 0x03, //
            0x01, 0x02, 0x03, 0x04, 0x05, 0x06, 0x07, 0x08,
        ],
        bytes
    );
    assert_eq!(hll, Hll::from_bytes(&bytes).unwrap());
    assert_eq!(vec![0x11, 0x8B, 0x7F], Hll::new(settings).to_bytes());
}

#[test]
fn the_image_of_a_sparse_storage_holds_short_words() {
    let settings = Settings::new(11, 5, 0, true).unwrap();
    let mut hll = Hll::new(settings);
    hll.add_raw(construct_hll_value(11, 0x123, 0x11));
    hll.add_raw(construct_hll_value(11, 1, 31));
    let bytes = hll.to_bytes();
    assert_eq!(vec![0x13, 0x8B, 0x40, 0x00, 0x3F, 0x24, 0x71], bytes);
    assert_eq!(hll, Hll::from_bytes(&bytes).unwrap());
}

#[test]
fn from_bytes_tells_what_it_cannot_read() {
    // the version is not 1
    assert_eq!(Err(HllError::Version(2)), Hll::from_bytes(&[0x24, 0x8B, 0x00]));
    assert_eq!(Err(HllError::Version(0)), Hll::from_bytes(&[0x04, 0x8B, 0x00]));
    assert_eq!(Err(HllError::Version(15)), Hll::from_bytes(&[0xF1]));
    // the kind of storage is none of the four
    assert_eq!(Err(HllError::Version(0)), Hll::from_bytes(&[0x10, 0x8B, 0x00]));
    assert_eq!(Err(HllError::Version(5)), Hll::from_bytes(&[0x15, 0x8B, 0x00]));
    assert_eq!(Err(HllError::Version(15)), Hll::from_bytes(&[0x1F, 0x8B, 0x00, 0x01]));
    // fewer than 2^4 registers
    assert_eq!(
        Err(HllError::Settings(SettingsError::Log2m)),
        Hll::from_bytes(&[0x14, 0x83, 0x00])
    );
    assert_eq!(
        Err(HllError::Settings(SettingsError::Log2m)),
        Hll::from_bytes(&[0x15, 0x80, 0x00])
    );
    let empty = Hll::from_bytes(&[0x11, 0xE4, 0x49]).unwrap();
    assert_eq!(Hll::Empty(Settings::new(4, 8, 256, true).unwrap()), empty);
}

#[test]
fn from_bytes_fills_a_short_dense_image_with_zeros() {
    let short = Hll::from_bytes(&[0x14, 0x84, 0x00, 0b0000_1000, 0b0100_0000]).unwrap();
    let mut expected = vec![0u8; 16];
    expected[0] = 1;
    expected[1] = 1;
    assert_eq!(expected, registers(&short));
    assert_eq!(13, short.to_bytes().len());
}

#[test]
fn an_estimator_tells_whether_it_is_consistent() {
    let settings = Settings::new(4, 5, 0, true).unwrap();
    assert!(settings.is_consistent());
    let mut wrong = settings;
    wrong.m_bits_mask = 0x1F;
    assert!(!wrong.is_consistent());
    let mut wrong = settings;
    wrong.sparse_threshold = Some(16);
    assert!(!wrong.is_consistent());
    let mut wrong = settings;
    wrong.log_2m = 32;
    assert!(!wrong.is_consistent());

    let mut sparse = SparseRegisters::with_settings(&settings);
    sparse.set_if_greater(15, 31);
    assert!(Hll::Sparse(sparse.clone()).is_consistent());
    sparse.buf.insert(16, 1);
    assert!(!sparse.is_consistent());
    sparse.buf.remove(&16);
    sparse.buf.insert(3, 32);
    assert!(!sparse.is_consistent());

    let dense = DenseRegisters::with_settings(&settings);
    assert!(dense.is_consistent());
    let longer = Settings::new(5, 5, 0, true).unwrap();
    assert!(!dense.clone_with_settings(&longer).is_consistent());
    assert!(Hll::Empty(settings).is_consistent());
    assert!(Hll::Explicit(ExplicitStorage::with_settings(&settings)).is_consistent());
}

#[test]
fn an_estimator_tells_what_it_can_merge_and_write() {
    let small = Settings::new(4, 5, 0, true).unwrap();
    let large = Settings::new(5, 5, 0, true).unwrap();
    let mut sparse = Hll::new(large);
    sparse.add_raw(construct_hll_value(5, 20, 1));
    let mut low = Hll::new(large);
    low.add_raw(construct_hll_value(5, 3, 1));
    let mut target = Hll::new(small);
    // an empty estimator takes a sparse storage over as it is
    assert!(target.can_union(&sparse));
    target.add_raw(construct_hll_value(4, 1, 1));
    assert!(!target.can_union(&sparse));
    assert!(target.can_union(&low));
    assert!(target.can_union(&Hll::new(large)));
    let dense = Hll::Dense(DenseRegisters::with_settings(&large));
    assert!(!target.can_union(&dense));
    assert!(Hll::new(small).can_union(&dense));
    assert!(dense.can_union(&target));

    assert!(target.is_writable());
    assert!(dense.is_writable());
    // a short word of 31 + 8 bits does not fit 32 bits
    let wide = Settings::new(31, 8, 0, true).unwrap();
    assert!(!Hll::Sparse(SparseRegisters::with_settings(&wide)).is_writable());
    assert!(Hll::new(wide).is_writable());
}

#[test]
fn an_image_tells_whether_it_can_be_read() {
    assert!(!Hll::is_readable(&[]));
    // another version is told apart from the first byte alone
    assert!(Hll::is_readable(&[0x24]));
    assert!(!Hll::is_readable(&[0x14]));
    assert!(!Hll::is_readable(&[0x14, 0x8B]));
    assert!(Hll::is_readable(&[0x14, 0x8B, 0x00]));
    // a threshold of 2^32 and more does not fit
    assert!(!Hll::is_readable(&[0x11, 0x8B, 33]));
    assert!(!Hll::is_readable(&[0x11, 0x8B, 62]));
    assert!(Hll::is_readable(&[0x11, 0x8B, 32]));
    assert!(Hll::is_readable(&[0x11, 0x8B, 63]));
    // explicit values take eight bytes each
    assert!(Hll::is_readable(&[0x12, 0x8B, 0x00, 0, 0, 0, 0, 0, 0, 0, 1]));
    assert!(!Hll::is_readable(&[0x12, 0x8B, 0x00, 0, 0, 0, 0, 0, 0, 1]));
    // 2^4 registers of one bit take two bytes
    assert!(Hll::is_readable(&[0x14, 0x04, 0x00, 0xFF, 0xFF]));
    assert!(!Hll::is_readable(&[0x14, 0x04, 0x00, 0xFF, 0xFF, 0xFF]));
    // a short word of 31 + 8 bits does not fit 32 bits
    assert!(!Hll::is_readable(&[0x13, 0xFF, 0x40]));
    assert!(Hll::is_readable(&[0x13, 0x8B, 0x40, 0xFF]));
    // what is not valid is told before the rest is looked at
    assert!(Hll::is_readable(&[0x12, 0x83, 0x00, 1]));
    assert!(Hll::is_readable(&[0x1F, 0x8B, 0x00, 1]));
}

#[test]
fn values_of_one_register_are_estimated_as_one_register() {
    let settings = Settings::new(4, 5, 3, true).unwrap();
    let mut hll = Hll::new(settings);
    hll.add_raw(0x11);
    hll.add_raw(0x21);
    hll.add_raw(0x41);
    assert_eq!(Cardinality::Exact(3), hll.cardinality());
    // the fourth value is one more than the explicit threshold allows; all four are
    // counted in register 1
    hll.add_raw(0x81);
    if let Hll::Sparse(sparse_registers) = &hll {
        assert_eq!(vec![(1, 4)], sparse_registers.iter());
    } else {
        panic!("not sparse");
    }
    let mut counts = vec![0u32; 32];
    counts[0] = 15;
    counts[4] = 1;
    assert_eq!(
        Cardinality::Estimate {
            counts,
            number_of_zeros: 15
        },
        hll.cardinality()
    );
    assert_eq!((16f64 * (16f64 / 15f64).ln()).ceil() as u64, cardinality(&hll));
    assert_eq!(2, cardinality(&hll));
}
