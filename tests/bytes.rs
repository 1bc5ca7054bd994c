use pngstego::bytes::{push_u32_be, read_u32_be};

#[test]
fn reads_and_writes_big_endian() {
    let mut out = vec![9u8];
    push_u32_be(&mut out, 0x12345678);
    assert_eq!(out, vec![9, 0x12, 0x34, 0x56, 0x78]);
    assert_eq!(read_u32_be(&out, 1), 0x12345678);
    assert_eq!(read_u32_be(&[0xFF, 0xFF, 0xFF, 0xFF], 0), u32::MAX);
}
