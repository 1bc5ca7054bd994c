use pngstego::chunk::{PngChunk, HIDE, IEND, IHDR};
use pngstego::error::PngError;

#[test]
fn new_chunk_is_zero() {
    let c = PngChunk::new();
    assert_eq!(c.data_len, 0);
    assert_eq!(c.data_type, 0);
    assert_eq!(c.data_ptr, 0);
    assert_eq!(c.crc32, 0);
    assert!(c.is_type(0));
    assert!(!c.is_type(IEND));
}

#[test]
fn type_codes_spell_their_names() {
    assert_eq!(IHDR.to_be_bytes(), *b"IHDR");
    assert_eq!(IEND.to_be_bytes(), *b"IEND");
    assert_eq!(HIDE.to_be_bytes(), *b"hIDe");
    let mut c = PngChunk::new();
    c.data_type = IHDR;
    assert_eq!(c.type_bytes(), b"IHDR".to_vec());
}

#[test]
fn reads_standard_iend_chunk() {
    let bytes = [9, 9, 0, 0, 0, 0, b'I', b'E', b'N', b'D', 0xAE, 0x42, 0x60, 0x82, 5];
    let mut c = PngChunk::new();
    assert_eq!(c.read_no_data(&bytes, 2), Ok(14));
    assert!(c.is_type(IEND));
    assert_eq!(c.data_len, 0);
    assert_eq!(c.data_ptr, 10);
    assert_eq!(c.crc32, 0xAE426082);
}

#[test]
fn bad_crc_leaves_chunk_unchanged() {
    let bytes = [0, 0, 0, 0, b'I', b'E', b'N', b'D', 0xAE, 0x42, 0x60, 0x83];
    let mut c = PngChunk::new();
    assert_eq!(c.read_no_data(&bytes, 0), Err(PngError::Checksum));
    assert_eq!(c, PngChunk::new());
}

#[test]
fn short_read_is_truncated() {
    let bytes = [0, 0, 0, 5, b'I', b'D', b'A', b'T', 1, 2];
    let mut c = PngChunk::new();
    assert_eq!(c.read_no_data(&bytes, 0), Err(PngError::Truncated));
    assert_eq!(c.read_no_data(&bytes, 4), Err(PngError::Truncated));
    assert_eq!(c.read_no_data(&bytes, 20), Err(PngError::Truncated));
}

#[test]
fn write_custom_appends_hidden_record() {
    let mut out = vec![1u8];
    assert_eq!(PngChunk::write_custom(&mut out, "ab"), Ok(()));
    let crc = crc32fast::hash(b"hIDeab").to_be_bytes();
    let mut expected = vec![1u8, 0, 0, 0, 2, b'h', b'I', b'D', b'e', b'a', b'b'];
    expected.extend_from_slice(&crc);
    assert_eq!(out, expected);
    let mut back = PngChunk::new();
    assert_eq!(back.read_no_data(&out, 1), Ok(out.len()));
    assert!(back.is_type(HIDE));
}

#[test]
fn copy_write_and_read_data() {
    let src = [0u8, 10, 11, 12, 13];
    let c = PngChunk { data_len: 3, data_type: IEND, data_ptr: 1, crc32: 0x01020304 };
    let mut out = vec![7u8];
    assert_eq!(c.copy_data(&src, &mut out), Ok(()));
    assert_eq!(out, vec![7, 10, 11, 12]);
    let mut whole = Vec::new();
    assert_eq!(c.write_to_file(&src, &mut whole), Ok(()));
    assert_eq!(whole, vec![0, 0, 0, 3, b'I', b'E', b'N', b'D', 10, 11, 12, 1, 2, 3, 4]);
    assert_eq!(c.read_data(&src), Ok(vec![10, 11, 12]));
}

#[test]
fn data_outside_source_is_truncated() {
    let src = [0u8, 10, 11];
    let c = PngChunk { data_len: 3, data_type: IEND, data_ptr: 1, crc32: 0 };
    let mut out = vec![7u8];
    assert_eq!(c.copy_data(&src, &mut out), Err(PngError::Truncated));
    assert_eq!(c.write_to_file(&src, &mut out), Err(PngError::Truncated));
    assert_eq!(out, vec![7]);
    assert_eq!(c.read_data(&src), Err(PngError::Truncated));
}
