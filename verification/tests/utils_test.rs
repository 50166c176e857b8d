use hll::utils::{calc_position, divide_by_8_round_up, read_bits, read_u8_bits, write_bits, write_u8_bits};

#[test]
fn rw_bits() {
    let mut buf = vec![0u8; 8];

    write_bits(&mut buf, 1, 2, 3, 4);
    assert_eq!([0, 12, 0, 0, 0, 0, 0, 0], buf.as_slice());

    let res = read_bits(&buf, 1, 2, 4);
    assert_eq!(3, res);

    write_bits(&mut buf, 1, 0, 0x0a, 8);
    assert_eq!([0, 0x0a, 0, 0, 0, 0, 0, 0], buf.as_slice());

    let res = read_bits(&buf, 1, 0, 8);
    assert_eq!(0x0a, res);

    write_bits(&mut buf, 0, 7, 0xFF, 8);
    assert_eq!([0x01, 0xFE, 0, 0, 0, 0, 0, 0], buf.as_slice());

    let res = read_bits(&buf, 0, 7, 8);
    assert_eq!(0xFF, res);

    write_bits(&mut buf, 2, 3, 0xFFFF, 15);
    assert_eq!([0x01, 0xFE, 31, 0xFF, 192, 0, 0, 0], buf.as_slice());

    let res = read_bits(&buf, 2, 3, 15);
    assert_eq!(0x7FFF, res);
}

#[test]
fn left_shift() {
    assert_eq!(1 << 0, 1);
}

#[test]
#[should_panic]
fn rw_bits_panic() {
    let mut buf = vec![0u8; 2];
    write_bits(&mut buf, 1, 7, 0xFFFF, 15)
}

#[test]
fn divide_by_8_rounds_up() {
    assert_eq!(0, divide_by_8_round_up(0));
    assert_eq!(1, divide_by_8_round_up(1));
    assert_eq!(1, divide_by_8_round_up(8));
    assert_eq!(2, divide_by_8_round_up(9));
    assert_eq!(1280, divide_by_8_round_up(10240));
    assert_eq!(0x2000_0000, divide_by_8_round_up(u32::MAX));
}

#[test]
fn calc_position_gives_byte_and_bit() {
    assert_eq!((0, 0), calc_position(0, 5));
    assert_eq!((0, 5), calc_position(1, 5));
    assert_eq!((1, 2), calc_position(2, 5));
    assert_eq!((1279, 3), calc_position(2047, 5));
    assert_eq!((7, 0), calc_position(8, 7));
    assert_eq!((0x7FFF_FFFF, 0), calc_position(0x7FFF_FFFF, 8));
}

#[test]
fn u8_bits_within_one_byte() {
    let mut buf = vec![0xFFu8; 3];
    write_u8_bits(&mut buf, 1, 2, 0b0101, 4);
    assert_eq!(vec![0xFF, 0b1101_0111, 0xFF], buf);
    assert_eq!(0b0101, read_u8_bits(&buf, 1, 2, 4));
    assert_eq!(0b11, read_u8_bits(&buf, 1, 0, 2));
    // only the low bits of the value are written
    write_u8_bits(&mut buf, 0, 0, 0xF2, 3);
    assert_eq!(vec![0b0101_1111, 0b1101_0111, 0xFF], buf);
    assert_eq!(2, read_u8_bits(&buf, 0, 0, 3));
    write_u8_bits(&mut buf, 2, 0, 0x00, 8);
    assert_eq!(vec![0b0101_1111, 0b1101_0111, 0x00], buf);
}

#[test]
fn u8_bits_across_two_bytes() {
    let mut buf = vec![0u8; 2];
    write_u8_bits(&mut buf, 0, 6, 0b10110, 5);
    assert_eq!(vec![0b0000_0010, 0b1100_0000], buf);
    assert_eq!(0b10110, read_u8_bits(&buf, 0, 6, 5));
    let mut full = vec![0xFFu8; 2];
    write_u8_bits(&mut full, 0, 6, 0b00100, 5);
    assert_eq!(vec![0b1111_1100, 0b1001_1111], full);
    assert_eq!(0b00100, read_u8_bits(&full, 0, 6, 5));
    write_u8_bits(&mut full, 0, 1, 0x00, 8);
    assert_eq!(vec![0b1000_0000, 0b0001_1111], full);
}

#[test]
fn bits_are_written_most_significant_first() {
    let mut buf = vec![0u8; 6];
    write_bits(&mut buf, 0, 3, 0x1234_5678, 32);
    // 000 then 0001 0010 0011 0100 0101 0110 0111 1000
    assert_eq!(vec![0x02, 0x46, 0x8A, 0xCF, 0x00, 0x00], buf);
    assert_eq!(0x1234_5678, read_bits(&buf, 0, 3, 32));
    assert_eq!(0x2345, read_bits(&buf, 0, 7, 16));
    // nothing is written where there are no bits to write
    write_bits(&mut buf, 5, 0, 0xFFFF_FFFF, 0);
    assert_eq!(vec![0x02, 0x46, 0x8A, 0xCF, 0x00, 0x00], buf);
    assert_eq!(0, read_bits(&buf, 5, 0, 0));
    // a neighbour is left alone
    write_bits(&mut buf, 4, 3, 0x1F, 5);
    assert_eq!(vec![0x02, 0x46, 0x8A, 0xCF, 0x1F, 0x00], buf);
    write_bits(&mut buf, 0, 3, 0, 32);
    assert_eq!(vec![0x00, 0x00, 0x00, 0x00, 0x1F, 0x00], buf);
}
