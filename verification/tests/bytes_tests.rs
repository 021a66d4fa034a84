//! Tests of the little-endian byte accessors.

use grid_world::bytes::{read_u16_le, read_u64_le, write_u16_le, write_u64_le};

#[test]
fn just_read() {
    let data = vec![0x01u8, 0x02u8];
    let read = read_u16_le(&data, 0);
    assert_eq!(read, 0x0201u16);
}

#[test]
fn read_write() {
    let mut data = vec![0x01u8, 0x02u8];
    let read = read_u16_le(&data, 0);
    assert_eq!(read, 0x0201u16);

    write_u16_le(&mut data, 0, 0x0102u16);
    let read = read_u16_le(&data, 0);
    assert_eq!(read, 0x0102u16);

    assert_eq!(data, [0x02u8, 0x01u8]);
}

#[test]
fn read_write_u64() {
    let mut data = vec![0u8; 10];
    write_u64_le(&mut data, 1, 0x1122_3344_5566_7788);
    assert_eq!(data, [0, 0x88, 0x77, 0x66, 0x55, 0x44, 0x33, 0x22, 0x11, 0]);
    assert_eq!(read_u64_le(&data, 1), 0x1122_3344_5566_7788);
    assert_eq!(data[0], 0);
    assert_eq!(data[9], 0);
}
