use hll::settings::Settings;
use hll::sparse::SparseRegisters;
use hll::storage::Storage;
use rand::rngs::StdRng;
use rand::Rng;
use rand::SeedableRng;
use std::collections::BTreeMap;

fn sparse_test_settings() -> Settings {
    Settings::new(11, 5, 0, true).unwrap()
}

fn construct_hll_value(log2m: u32, register: u32, value: u32) -> u64 {
    let substream_value: u64 = 1 << (value - 1);
    let substream_value = substream_value << log2m;

    substream_value | register as u64
}

fn assert_register_present(registers: &SparseRegisters, register: u32, value: u8) {
    assert_eq!(registers.buf.get(&register), Some(&value));
}

fn assert_one_register_set(registers: &SparseRegisters, register: u32, value: u8) {
    assert_eq!(registers.buf.len(), 1);
    assert_register_present(registers, register, value);
}

fn assert_elements_equal_sparse(registers1: &SparseRegisters, registers2: &SparseRegisters) {
    assert_eq!(registers1.buf, registers2.buf);
}

#[test]
fn test_add_sparse() {
    // Test inserting an element with register value 1 (minimum set value)
    {
        let register_index = 0;
        let register_value = 1;
        let raw_value = construct_hll_value(
            sparse_test_settings().log_2m,
            register_index,
            register_value,
        );

        let mut registers = SparseRegisters::with_settings(&sparse_test_settings());
        registers.set(raw_value);

        assert_one_register_set(&registers, register_index, register_value as u8);
    }

    // Test inserting an element with register value 31 (maximum set value)
    {
        let register_index = 0;
        let register_value = 31;
        let raw_value = construct_hll_value(
            sparse_test_settings().log_2m,
            register_index,
            register_value,
        );

        let mut registers = SparseRegisters::with_settings(&sparse_test_settings());
        registers.set(raw_value);

        assert_one_register_set(&registers, register_index, register_value as u8);
    }

    // Test inserting an element that could overflow the register (past 31)
    {
        let register_index = 0;
        let register_value = 36;
        let raw_value = construct_hll_value(
            sparse_test_settings().log_2m,
            register_index,
            register_value,
        );

        let mut registers = SparseRegisters::with_settings(&sparse_test_settings());
        registers.set(raw_value);

        assert_one_register_set(&registers, register_index, 31); // register max
    }

    // Test inserting duplicate elements, observe no change
    {
        let register_index = 0;
        let register_value = 1;
        let raw_value = construct_hll_value(
            sparse_test_settings().log_2m,
            register_index,
            register_value,
        );

        let mut registers = SparseRegisters::with_settings(&sparse_test_settings());
        registers.set(raw_value);
        registers.set(raw_value);

        assert_one_register_set(&registers, register_index, register_value as u8);
    }

    // Test inserting elements that increase a register's value
    {
        let register_index = 0;
        let register_value = 1;
        let raw_value = construct_hll_value(
            sparse_test_settings().log_2m,
            register_index,
            register_value,
        );

        let mut registers = SparseRegisters::with_settings(&sparse_test_settings());
        registers.set(raw_value);

        let register_value2 = 2;
        let raw_value2 = construct_hll_value(
            sparse_test_settings().log_2m,
            register_index,
            register_value2,
        );
        registers.set(raw_value2);

        assert_one_register_set(&registers, register_index, register_value2 as u8);
    }

    // Test inserting elements that have lower register values, observe no change
    {
        let register_index = 0;
        let register_value = 2;
        let raw_value = construct_hll_value(
            sparse_test_settings().log_2m,
            register_index,
            register_value,
        );

        let mut registers = SparseRegisters::with_settings(&sparse_test_settings());
        registers.set(raw_value);

        let register_value2 = 1;
        registers.set_if_greater(register_index, register_value2 as u8);

        assert_one_register_set(&registers, register_index, register_value as u8);
    }
}

#[test]
fn test_union_sparse() {
    // Test two disjoint multisets should union properly
    {
        let mut registers_a = SparseRegisters::with_settings(&sparse_test_settings());
        registers_a.set_if_greater(1, 1);
        let mut registers_b = SparseRegisters::with_settings(&sparse_test_settings());
        registers_b.set_if_greater(2, 1);

        registers_a.union_sparse(&registers_b);

        assert_eq!(registers_a.buf.len(), 2);
        assert_register_present(&registers_a, 1, 1);
        assert_register_present(&registers_a, 2, 1);
    }

    // Test two exactly overlapping multisets should union properly
    {
        let mut registers_a = SparseRegisters::with_settings(&sparse_test_settings());
        registers_a.set_if_greater(1, 10);
        let mut registers_b = SparseRegisters::with_settings(&sparse_test_settings());
        registers_b.set_if_greater(1, 13);

        registers_a.union_sparse(&registers_b);

        assert_eq!(registers_a.buf.len(), 1);
        assert_one_register_set(&registers_a, 1, 13);
    }

    // Test overlapping multisets should union properly
    {
        let mut registers_a = SparseRegisters::with_settings(&sparse_test_settings());
        let mut registers_b = SparseRegisters::with_settings(&sparse_test_settings());

        // register index = 3
        registers_a.set_if_greater(3, 11);

        // register index = 4
        registers_a.set_if_greater(4, 13);
        registers_b.set_if_greater(4, 21);

        // register index = 5
        registers_b.set_if_greater(5, 14);

        registers_a.union_sparse(&registers_b);

        // union should have three registers set, with partition B set to the max of the two registers
        assert_register_present(&registers_a, 3, 11);
        assert_register_present(&registers_a, 4, 21); // max(21,13)
        assert_register_present(&registers_a, 5, 14);
    }
}

#[test]
fn test_to_from_bytes_sparse() {
    // Test empty element
    {
        let registers = SparseRegisters::with_settings(&sparse_test_settings());
        let mut buf = vec![0u8; registers.bytes_size()];
        registers.to_bytes(&mut buf);

        let from_bytes = SparseRegisters::from_bytes(&sparse_test_settings(), &buf);
        assert_eq!(from_bytes.buf.len(), 0);
    }

    // Test partially filled element
    {
        let mut registers = SparseRegisters::with_settings(&sparse_test_settings());
        for i in 0..3 {
            registers.set_if_greater(i, (i + 9) as u8);
        }

        let mut buf = vec![0u8; registers.bytes_size()];
        registers.to_bytes(&mut buf);

        let from_bytes = SparseRegisters::from_bytes(&sparse_test_settings(), &buf);
        assert_elements_equal_sparse(&registers, &from_bytes);
    }

    // Test full set
    {
        let mut registers = SparseRegisters::with_settings(&sparse_test_settings());
        for i in 0..sparse_test_settings().sparse_threshold.unwrap() as u32 {
            registers.set_if_greater(i, ((i % 9) + 1) as u8);
        }

        let mut buf = vec![0u8; registers.bytes_size()];
        registers.to_bytes(&mut buf);

        let from_bytes = SparseRegisters::from_bytes(&sparse_test_settings(), &buf);
        assert_elements_equal_sparse(&registers, &from_bytes);
    }
}

#[test]
fn test_random_values_sparse() {
    let seed = 1; // makes for reproducible tests
    let mut rng = StdRng::seed_from_u64(seed);

    for _ in 0..100 {
        let mut registers = SparseRegisters::with_settings(&sparse_test_settings());
        let mut expected: BTreeMap<u32, u8> = BTreeMap::new();

        // Generate random values and add them to both the registers and expected map
        for _ in 0..100 {
            let register = rng.gen_range(0..(1 << sparse_test_settings().log_2m));
            let value: u8 = rng.gen_range(1..=31);
            registers.set_if_greater(register, value);

            // Update expected map with max value
            expected
                .entry(register)
                .and_modify(|e| *e = (*e).max(value))
                .or_insert(value);
        }

        // Verify all values match
        assert_eq!(registers.buf, expected);
    }
}

#[test]
fn sparse_set_if_greater_cuts_the_value_to_the_width() {
    let mut registers = SparseRegisters::with_settings(&sparse_test_settings());
    // 0x2A cut down to five bits is 10
    registers.set_if_greater(7, 0x2A);
    assert_one_register_set(&registers, 7, 10);
    // 0x48 cut down to five bits is 8: not greater
    registers.set_if_greater(7, 0x48);
    assert_one_register_set(&registers, 7, 10);
    // a value of 0 makes an entry where there was none
    registers.set_if_greater(9, 0);
    assert_eq!(2, registers.len());
    assert_register_present(&registers, 9, 0);
}

#[test]
fn sparse_image_is_short_words_by_register_number() {
    // a short word has 11 + 5 = 16 bits: the register's number above its value
    let mut registers = SparseRegisters::with_settings(&sparse_test_settings());
    registers.set_if_greater(0x123, 0x11);
    registers.set_if_greater(1, 31);
    assert_eq!(4, registers.bytes_size());
    let mut buf = vec![0u8; registers.bytes_size()];
    registers.to_bytes(&mut buf);
    // (1 << 5) | 31 = 0x003F, (0x123 << 5) | 0x11 = 0x2471
    assert_eq!(vec![0x00, 0x3F, 0x24, 0x71], buf);
    assert_eq!(vec![(1, 31), (0x123, 0x11)], registers.iter());
}

#[test]
fn sparse_image_with_short_words_across_bytes() {
    // a short word has 4 + 1 = 5 bits
    let settings = Settings::new(4, 1, 0, true).unwrap();
    let mut registers = SparseRegisters::with_settings(&settings);
    registers.set_if_greater(3, 1);
    registers.set_if_greater(9, 1);
    registers.set_if_greater(15, 1);
    // 00111 10011 11111 and one bit to fill the byte
    assert_eq!(2, registers.bytes_size());
    let mut buf = vec![0u8; 2];
    registers.to_bytes(&mut buf);
    assert_eq!(vec![0b0011_1100, 0b1111_1110], buf);
    let back = SparseRegisters::from_bytes(&settings, &buf);
    assert_eq!(registers.buf, back.buf);
}

#[test]
fn sparse_image_whose_last_byte_leaves_room_reads_one_word_more() {
    // a short word has 5 bits; two of them leave 6 bits of the second byte
    let settings = Settings::new(4, 1, 0, true).unwrap();
    let mut registers = SparseRegisters::with_settings(&settings);
    registers.set_if_greater(3, 1);
    registers.set_if_greater(9, 1);
    let mut buf = vec![0u8; registers.bytes_size()];
    registers.to_bytes(&mut buf);
    assert_eq!(vec![0b0011_1100, 0b1100_0000], buf);
    let back = SparseRegisters::from_bytes(&settings, &buf);
    assert_eq!(3, back.len());
    assert_eq!(Some(&0), back.buf.get(&0));
    assert_eq!(Some(&1), back.buf.get(&3));
    assert_eq!(Some(&1), back.buf.get(&9));
}

#[test]
fn sparse_is_full_above_the_threshold() {
    let settings = Settings::new(4, 5, 0, true).unwrap();
    assert_eq!(Some(8), settings.sparse_threshold);
    let mut registers = SparseRegisters::with_settings(&settings);
    for i in 0..8 {
        registers.set_if_greater(i, 1);
        assert!(!registers.is_full());
    }
    registers.set_if_greater(8, 1);
    assert!(registers.is_full());
    let without = Settings::new(4, 5, 0, false).unwrap();
    assert!(SparseRegisters::with_settings(&without).is_full());
}

#[test]
fn sparse_to_dense_keeps_the_registers() {
    let mut registers = SparseRegisters::with_settings(&sparse_test_settings());
    registers.set_if_greater(0, 4);
    registers.set_if_greater(2047, 31);
    let dense = registers.to_dense(None);
    assert_eq!(4, dense.get(0));
    assert_eq!(0, dense.get(1));
    assert_eq!(31, dense.get(2047));
    assert_eq!(sparse_test_settings(), dense.settings);
    let narrow = Settings::new(11, 3, 0, false).unwrap();
    let cut = registers.to_dense(Some(&narrow));
    assert_eq!(4, cut.get(0));
    assert_eq!(7, cut.get(2047));
    assert_eq!(narrow, cut.settings);
}

#[test]
fn sparse_indicator_counts_register_values() {
    let settings = Settings::new(4, 5, 0, true).unwrap();
    let mut registers = SparseRegisters::with_settings(&settings);
    registers.set_if_greater(0, 3);
    registers.set_if_greater(5, 3);
    registers.set_if_greater(7, 31);
    registers.set_if_greater(8, 0);
    let (counts, zeros) = registers.indicator();
    assert_eq!(32, counts.len());
    assert_eq!(12, zeros);
    assert_eq!(13, counts[0]);
    assert_eq!(2, counts[3]);
    assert_eq!(1, counts[31]);
}

#[test]
fn sparse_clear_forgets_the_registers() {
    let mut registers = SparseRegisters::with_settings(&sparse_test_settings());
    registers.set_if_greater(4, 4);
    registers.clear();
    assert_eq!(0, registers.len());
    assert_eq!(sparse_test_settings(), registers.settings);
}
