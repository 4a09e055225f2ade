use touchhle::bytes::{
    read_i16_le, read_i32_le, read_i64_le, read_u32_le, read_u64_le, read_varint,
    varint_available,
};

#[test]
fn u32_is_little_endian() {
    let data = [0xAA, 0x78, 0x56, 0x34, 0x12];
    assert_eq!(read_u32_le(&data, 1), 0x1234_5678);
    assert_eq!(read_u32_le(&[0xFF, 0xFF, 0xFF, 0xFF], 0), u32::MAX);
}

#[test]
fn u64_is_little_endian() {
    let data = [8, 7, 6, 5, 4, 3, 2, 1];
    assert_eq!(read_u64_le(&data, 0), 0x0102_0304_0506_0708);
}

#[test]
fn signed_reads_use_twos_complement() {
    assert_eq!(read_i16_le(&[0xFE, 0xFF], 0), -2);
    assert_eq!(read_i16_le(&[0xFF, 0x7F], 0), i16::MAX);
    assert_eq!(read_i16_le(&[0x00, 0x80], 0), i16::MIN);
    assert_eq!(read_i32_le(&[0x70, 0x11, 0x01, 0x00], 0), 70000);
    assert_eq!(read_i32_le(&[0x00, 0x00, 0x00, 0x80], 0), i32::MIN);
    assert_eq!(read_i32_le(&[0xFF, 0xFF, 0xFF, 0xFF], 0), -1);
    assert_eq!(read_i64_le(&[0xFB, 0xFF, 0xFF, 0xFF, 0xFF, 0xFF, 0xFF, 0xFF], 0), -5);
    assert_eq!(read_i64_le(&[0, 0, 0, 0, 0, 0, 0, 0x80], 0), i64::MIN);
    assert_eq!(read_i64_le(&[0xFF, 0xFF, 0xFF, 0xFF, 0xFF, 0xFF, 0xFF, 0x7F], 0), i64::MAX);
}

#[test]
fn varint_single_byte() {
    let data = [0x85, 0x01];
    let mut pos = 0;
    assert_eq!(read_varint(&data, &mut pos), 5);
    assert_eq!(pos, 1);
}

#[test]
fn varint_ends_at_first_byte_with_high_bit() {
    // 0x05 has no high bit: the varint goes on; 0x81 ends it.
    let data = [0xFF, 0x05, 0x81, 0x80];
    let mut pos = 1;
    assert_eq!(read_varint(&data, &mut pos), 5 + 128);
    assert_eq!(pos, 3);
}

#[test]
fn varint_of_five_bytes_is_truncated_to_32_bits() {
    let data = [0x7F, 0x7F, 0x7F, 0x7F, 0xFF];
    let mut pos = 0;
    assert_eq!(read_varint(&data, &mut pos), 0xFFFF_FFFF);
    assert_eq!(pos, 5);
    let data = [0x00, 0x00, 0x00, 0x00, 0x90];
    let mut pos = 0;
    // 0x10 << 28 does not fit in 32 bits.
    assert_eq!(read_varint(&data, &mut pos), 0);
}

#[test]
fn varint_availability() {
    assert!(varint_available(&[0x80], 0));
    assert!(!varint_available(&[0x00], 0));
    assert!(!varint_available(&[0x80], 1));
    assert!(!varint_available(&[0x00, 0x00, 0x00, 0x00, 0x00, 0x80], 0));
    assert!(varint_available(&[0x00, 0x00, 0x00, 0x00, 0x80], 0));
}
