use hll::dense::DenseRegisters;
use hll::settings::Settings;
use hll::storage::Storage;
use hll::utils::divide_by_8_round_up;
use hll::{Cardinality, Hll};

fn dense_test_settings() -> Settings {
    Settings::new(11, 5, 0, false).unwrap()
}

fn construct_hll_value(log2m: u32, register: u32, value: u32) -> u64 {
    let substream_value: u64 = 1 << (value - 1);
    let substream_value = substream_value << log2m;

    substream_value | register as u64
}

fn estimate(counts: &[u32], zeros: u32, settings: &Settings) -> u64 {
    let m = (1u64 << settings.log_2m) as f64;
    let mut sum = 0.0f64;
    for (value, count) in counts.iter().enumerate() {
        sum += (*count as f64) / 2f64.powi(value as i32);
    }
    let alpha_msquared = match settings.log_2m {
        4 => 0.673 * m * m,
        5 => 0.697 * m * m,
        6 => 0.709 * m * m,
        _ => (0.7213 / (1.0 + 1.079 / m)) * m * m,
    };
    let two_to_l = 2f64.powf(settings.two_to_l_exponent() as f64);
    let estimator = alpha_msquared / sum;
    if zeros != 0 && estimator < settings.small_estimator_cutoff() as f64 {
        return (m * (m / zeros as f64).ln()).ceil() as u64;
    }
    if estimator <= two_to_l / 30.0 {
        return estimator.ceil() as u64;
    }
    (-1.0 * two_to_l * (1.0 - (estimator / two_to_l)).ln()).ceil() as u64
}

fn cardinality(hll: &Hll) -> u64 {
    match hll.cardinality() {
        Cardinality::Exact(n) => n,
        Cardinality::Estimate {
            counts,
            number_of_zeros,
        } => estimate(&counts, number_of_zeros, hll.settings()),
    }
}

#[test]
fn test_clear_dense() {
    let mut hll = Hll::Dense(DenseRegisters::with_settings(
        &Settings::new(4, 5, 0, false).unwrap(),
    ));

    for i in 0..100 {
        hll.add_raw(i as u64);
    }

    assert!(cardinality(&hll) > 0);
    hll.clear();
    assert_eq!(0, cardinality(&hll));
}

#[test]
fn test_to_from_bytes_dense() {
    let settings = dense_test_settings();
    let expected_byte_count = 3 + divide_by_8_round_up(settings.reg_width * (1 << settings.log_2m));

    // Test empty element
    {
        let hll = Hll::Dense(DenseRegisters::with_settings(&settings));
        let bytes = hll.to_bytes();

        assert_eq!(expected_byte_count, bytes.len() as u32);

        let in_hll = Hll::from_bytes(&bytes).unwrap();
        assert_elements_equal_dense(&hll, &in_hll);
    }

    // Test partially filled element
    {
        let mut hll = Hll::new(settings);
        for i in 0..3 {
            hll.add_raw(construct_hll_value(settings.log_2m, i, i + 9));
        }
        let bytes = hll.to_bytes();

        assert_eq!(expected_byte_count, bytes.len() as u32);

        let in_hll = Hll::from_bytes(&bytes).unwrap();
        assert_elements_equal_dense(&hll, &in_hll);
    }

    // Test full set
    {
        let mut hll = Hll::new(settings);
        for i in 0..(1 << settings.log_2m) {
            hll.add_raw(construct_hll_value(settings.log_2m, i, (i % 9) + 1));
        }
        let bytes = hll.to_bytes();

        assert_eq!(expected_byte_count, bytes.len() as u32);

        let in_hll = Hll::from_bytes(&bytes).unwrap();
        assert_elements_equal_dense(&hll, &in_hll);
    }
}

#[test]
fn test_to_from_bytes_dense_trailing() {
    // Ensure coverage on code where number of bits is not evenly divisible by 64
    let settings = dense_test_settings();
    let mut hll = Hll::new(settings);

    for i in 0..16 {
        hll.add_raw(construct_hll_value(settings.log_2m, i, i + 1));
    }

    let bytes = hll.to_bytes();
    assert!(bytes.len() % 8 != 0);

    let hll2 = Hll::from_bytes(&bytes).unwrap();
    assert_eq!(hll, hll2);
}

#[test]
fn test_dense_registers() {
    let tests = vec![
        // Register width 4 (minimum size)
        (
            4,
            vec![
                0x000000000000001,  /*'j'=1*/
                0x0000000000000012, /*'j'=2*/
                0x0000000000000023, /*'j'=3*/
                0x0000000000000044, /*'j'=4*/
                0x0000000000000085, /*'j'=5*/
                0x0000000000010006, /*'j'=6*/
                0x0000000000020007, /*'j'=7*/
                0x0000000000040008, /*'j'=8*/
                0x0000000000080009, /*'j'=9*/
                0x000000000003000A, /*'j'=10*/
                0x000000000011000B, /*'j'=11*/
            ],
            vec![
                (1, 0),
                (2, 1),
                (3, 2),
                (4, 3),
                (5, 4),
                (6, 13),
                (7, 14),
                (8, 15),
                (9, 15), /*overflow*/
                (10, 13),
                (11, 13),
            ],
        ),
        // Register width 5
        (
            5,
            vec![
                0x000000000000001,  /*'j'=1*/
                0x0000000000000012, /*'j'=2*/
                0x0000000000000023, /*'j'=3*/
                0x0000000000000044, /*'j'=4*/
                0x0000000000000085, /*'j'=5*/
                0x0000000100000006, /*'j'=6*/
                0x0000000200000007, /*'j'=7*/
                0x0000000400000008, /*'j'=8*/
                0x0000000800000009, /*'j'=9*/
            ],
            vec![
                (1, 0),
                (2, 1),
                (3, 2),
                (4, 3),
                (5, 4),
                (6, 29),
                (7, 30),
                (8, 31),
                (9, 31), /*overflow*/
            ],
        ),
    ];

    let log_2m = 4;

    for (reg_width, values, registers) in tests {
        let mut hll = Hll::Dense(DenseRegisters::with_settings(
            &Settings::new(log_2m, reg_width, 0, false).unwrap(),
        ));

        for value in values {
            hll.add_raw(value);
        }

        for (regnum, value) in registers {
            if let Hll::Dense(dense) = &hll {
                assert_eq!(value as u8, dense.get(regnum));
            }
        }
    }
}

#[test]
fn test_dense_get() {
    let settings = Settings::new(11, 7, 0, false).unwrap();

    let mut hll = DenseRegisters::with_settings(&settings);
    for i in 0..(1 << settings.log_2m) {
        hll.set_if_greater(i, (i & (0x80 - 1)) as u8);
    }

    for i in 0..(1 << settings.log_2m) {
        let expected = i & (0x80 - 1);
        assert_eq!(expected as u8, hll.get(i), "loop: {}", i);
    }
}

fn assert_elements_equal_dense(hll1: &Hll, hll2: &Hll) {
    assert!(assert_dense(hll1) && assert_dense(hll2));
    assert_eq!(hll1, hll2);
}

fn assert_dense(hll: &Hll) -> bool {
    matches!(hll, Hll::Dense(_))
}

#[test]
fn dense_set_if_greater_keeps_the_larger_value_cut_to_the_width() {
    let settings = Settings::new(4, 4, 0, false).unwrap();
    let mut dense = DenseRegisters::with_settings(&settings);
    dense.set_if_greater(3, 5);
    assert_eq!(5, dense.get(3));
    // 0x13 cut down to four bits is 3, which is less than 5
    dense.set_if_greater(3, 0x13);
    assert_eq!(5, dense.get(3));
    // 0x1A cut down to four bits is 10
    dense.set_if_greater(3, 0x1A);
    assert_eq!(10, dense.get(3));
    dense.set_if_greater(3, 9);
    assert_eq!(10, dense.get(3));
    // the neighbours stay as they were
    assert_eq!(0, dense.get(2));
    assert_eq!(0, dense.get(4));
}

#[test]
fn dense_set_reg_overwrites() {
    let settings = Settings::new(4, 5, 0, false).unwrap();
    let mut dense = DenseRegisters::with_settings(&settings);
    dense.set_reg(1, 31);
    dense.set_reg(2, 17);
    dense.set_reg(1, 4);
    assert_eq!(4, dense.get(1));
    assert_eq!(17, dense.get(2));
    assert_eq!(0, dense.get(0));
    // register 1 takes bits 5..10: 00100 then 10001 for register 2
    let mut image = vec![0u8; dense.bytes_size()];
    dense.to_bytes(&mut image);
    assert_eq!(10, image.len());
    assert_eq!(vec![0b0000_0001, 0b0010_0010, 0, 0, 0, 0, 0, 0, 0, 0], image);
}

#[test]
fn dense_serialized_length_and_header() {
    let settings = dense_test_settings();
    let hll = Hll::Dense(DenseRegisters::with_settings(&settings));
    let bytes = hll.to_bytes();
    assert_eq!(1283, bytes.len());
    assert_eq!([0x14, 0x8B, 0x00], bytes[..3]);
    assert!(bytes[3..].iter().all(|b| *b == 0));
}

#[test]
fn dense_indicator_counts_register_values() {
    let settings = Settings::new(4, 5, 0, false).unwrap();
    let mut dense = DenseRegisters::with_settings(&settings);
    dense.set_if_greater(0, 3);
    dense.set_if_greater(5, 3);
    dense.set_if_greater(7, 31);
    let (counts, zeros) = dense.indicator();
    assert_eq!(32, counts.len());
    assert_eq!(13, counts[0]);
    assert_eq!(2, counts[3]);
    assert_eq!(1, counts[31]);
    assert_eq!(13, zeros);
    assert_eq!(16u32, counts.iter().sum());
}

#[test]
fn dense_walk_yields_every_register_in_turn() {
    let settings = Settings::new(4, 5, 0, false).unwrap();
    let mut dense = DenseRegisters::with_settings(&settings);
    dense.set_if_greater(2, 9);
    let mut walk = dense.iter();
    let mut seen = Vec::new();
    while let Some(item) = walk.next() {
        seen.push(item);
    }
    assert_eq!(16, seen.len());
    assert_eq!((0, 0), seen[0]);
    assert_eq!((2, 9), seen[2]);
    assert_eq!((15, 0), seen[15]);
    assert_eq!(None, walk.next());
}

#[test]
fn dense_union_takes_the_larger_value() {
    let settings = Settings::new(4, 5, 0, false).unwrap();
    let mut a = DenseRegisters::with_settings(&settings);
    let mut b = DenseRegisters::with_settings(&settings);
    a.set_if_greater(1, 4);
    a.set_if_greater(2, 9);
    b.set_if_greater(2, 3);
    b.set_if_greater(3, 7);
    a.union_dense(&b);
    assert_eq!(4, a.get(1));
    assert_eq!(9, a.get(2));
    assert_eq!(7, a.get(3));
    assert_eq!(0, a.get(4));
}
