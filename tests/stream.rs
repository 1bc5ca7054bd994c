use pngstego::chunk::{PngChunk, HIDE, IEND, IHDR};
use pngstego::error::PngError;
use pngstego::png::{PngFile, PNG_HEADER};

const SIG: [u8; 8] = [0x89, b'P', b'N', b'G', 0x0D, 0x0A, 0x1A, 0x0A];

fn record(ty: &[u8; 4], data: &[u8]) -> Vec<u8> {
    let mut covered = ty.to_vec();
    covered.extend_from_slice(data);
    let crc = crc32fast::hash(&covered);
    let mut out = (data.len() as u32).to_be_bytes().to_vec();
    out.extend_from_slice(&covered);
    out.extend_from_slice(&crc.to_be_bytes());
    out
}

fn stream(middle: &[(&[u8; 4], &[u8])]) -> Vec<u8> {
    let mut out = SIG.to_vec();
    out.extend(record(b"IHDR", &[0, 0, 0, 1, 0, 0, 0, 1, 8, 2, 0, 0, 0]));
    for (ty, data) in middle {
        out.extend(record(ty, data));
    }
    out.extend(record(b"IEND", &[]));
    out
}

fn directory(bytes: Vec<u8>) -> Vec<PngChunk> {
    PngFile::new(bytes).unwrap().chunks().clone()
}

#[test]
fn opens_minimal_stream() {
    let png = PngFile::new(stream(&[])).unwrap();
    assert_eq!(png.header(), PNG_HEADER);
    assert_eq!(png.header(), 0x89504E470D0A1A0A);
    let cs = png.chunks();
    assert_eq!(cs.len(), 2);
    assert_eq!(cs[0].data_type, IHDR);
    assert_eq!(cs[0].data_len, 13);
    assert_eq!(cs[0].data_ptr, 16);
    assert_eq!(cs[1].data_type, IEND);
    assert_eq!(cs[1].data_len, 0);
    assert_eq!(cs[1].data_ptr, 8 + 25 + 8);
    assert_eq!(cs[1].crc32, 0xAE426082);
}

#[test]
fn trailing_bytes_after_iend_are_ignored() {
    let mut bytes = stream(&[]);
    bytes.extend_from_slice(&[1, 2, 3]);
    assert_eq!(directory(bytes).len(), 2);
}

#[test]
fn round_trip_with_empty_message() {
    let src = stream(&[(b"tEXt", b"abc"), (b"IDAT", &[1, 2, 3, 4, 5])]);
    let before = directory(src.clone());
    let out = PngFile::new(src).unwrap().inject("").unwrap();
    let mut after = directory(out);
    assert_eq!(after.len(), before.len() + 1);
    let hidden = after.remove(before.len() - 1);
    assert_eq!(hidden.data_type, HIDE);
    assert_eq!(hidden.data_len, 0);
    let n = before.len();
    assert_eq!(&after[..n - 1], &before[..n - 1]);
    let mut last = before[n - 1];
    last.data_ptr += 12;
    assert_eq!(after[n - 1], last);
}

#[test]
fn flipped_payload_byte_fails_checksum() {
    let src = stream(&[(b"tEXt", b"abc")]);
    for i in 16..29 {
        let mut bad = src.clone();
        bad[i] ^= 0x01;
        assert_eq!(PngFile::new(bad).err(), Some(PngError::Checksum));
    }
    let text_data = 8 + 25 + 8;
    for i in text_data..text_data + 3 {
        let mut bad = src.clone();
        bad[i] ^= 0x40;
        assert_eq!(PngFile::new(bad).err(), Some(PngError::Checksum));
    }
}

#[test]
fn flipped_type_byte_fails_checksum() {
    let src = stream(&[(b"tEXt", b"abc")]);
    for i in 12..16 {
        let mut bad = src.clone();
        bad[i] ^= 0x20;
        assert_eq!(PngFile::new(bad).err(), Some(PngError::Checksum));
    }
    let mut bad = src.clone();
    let iend_type = src.len() - 8;
    bad[iend_type] ^= 0x20;
    assert_eq!(PngFile::new(bad).err(), Some(PngError::Checksum));
}

#[test]
fn altered_signature_is_rejected() {
    let src = stream(&[]);
    for i in 0..8 {
        let mut bad = src.clone();
        bad[i] ^= 0xFF;
        assert_eq!(PngFile::new(bad).err(), Some(PngError::BadSignature));
    }
    for len in 0..8 {
        assert_eq!(PngFile::new(src[..len].to_vec()).err(), Some(PngError::BadSignature));
    }
}

#[test]
fn non_png_bytes_are_rejected() {
    assert_eq!(PngFile::new(vec![0; 64]).err(), Some(PngError::BadSignature));
    assert_eq!(PngFile::new(vec![0x89, b'P', b'N', b'G']).err(), Some(PngError::BadSignature));
    assert_eq!(PngFile::new(Vec::new()).err(), Some(PngError::BadSignature));
}

#[test]
fn truncated_stream_is_rejected() {
    let src = stream(&[(b"tEXt", b"abc")]);
    assert_eq!(PngFile::new(SIG.to_vec()).err(), Some(PngError::Truncated));
    for cut in [10, 20, 36, src.len() - 13, src.len() - 1] {
        assert_eq!(PngFile::new(src[..cut].to_vec()).err(), Some(PngError::Truncated));
    }
}

#[test]
fn first_chunk_must_be_header() {
    let mut bytes = SIG.to_vec();
    bytes.extend(record(b"tEXt", b"abc"));
    bytes.extend(record(b"IEND", &[]));
    assert_eq!(PngFile::new(bytes).err(), Some(PngError::MissingHeader));
}

#[test]
fn extract_finds_injected_text() {
    let src = stream(&[(b"IDAT", &[9, 9, 9])]);
    let out = PngFile::new(src).unwrap().inject("hello world").unwrap();
    assert_eq!(PngFile::new(out).unwrap().extract().unwrap(), "hello world");
}

#[test]
fn extract_finds_non_ascii_text() {
    let out = PngFile::new(stream(&[])).unwrap().inject("héllo ✓").unwrap();
    assert_eq!(PngFile::new(out).unwrap().extract().unwrap(), "héllo ✓");
}

#[test]
fn extract_without_hidden_chunk_fails() {
    let png = PngFile::new(stream(&[(b"tEXt", b"abc")])).unwrap();
    assert_eq!(png.extract().err(), Some(PngError::NotFound));
}

#[test]
fn extract_of_empty_message_is_empty() {
    let out = PngFile::new(stream(&[])).unwrap().inject("").unwrap();
    assert_eq!(PngFile::new(out).unwrap().extract().unwrap(), "");
}

#[test]
fn extract_returns_first_hidden_message() {
    let once = PngFile::new(stream(&[])).unwrap().inject("first").unwrap();
    let twice = PngFile::new(once).unwrap().inject("second").unwrap();
    assert_eq!(PngFile::new(twice).unwrap().extract().unwrap(), "first");
}

#[test]
fn extract_rejects_invalid_utf8() {
    let bytes = stream(&[(b"hIDe", &[0xFF, 0xFE, 0x41])]);
    assert_eq!(PngFile::new(bytes).unwrap().extract().err(), Some(PngError::Encoding));
}

#[test]
fn injected_chunk_stands_before_iend() {
    let ihdr_only = stream(&[]);
    let one = stream(&[(b"tEXt", b"a")]);
    let many = stream(&[(b"tEXt", b"a"), (b"IDAT", &[1, 2]), (b"IDAT", &[3])]);
    for src in [ihdr_only, one, many] {
        let before = directory(src.clone());
        let after = directory(PngFile::new(src).unwrap().inject("msg").unwrap());
        let n = before.len();
        assert_eq!(after.len(), n + 1);
        assert_eq!(&after[..n - 1], &before[..n - 1]);
        assert_eq!(after[n - 1].data_type, HIDE);
        assert_eq!(after[n - 1].data_len, 3);
        assert_eq!(after[n].data_type, IEND);
        assert_eq!(after[n].data_ptr, before[n - 1].data_ptr + 15);
    }
}

#[test]
fn injected_bytes_are_exact() {
    let src = stream(&[(b"tEXt", b"abc")]);
    let out = PngFile::new(src.clone()).unwrap().inject("hi").unwrap();
    let iend_at = src.len() - 12;
    let mut expected = src[..iend_at].to_vec();
    expected.extend(record(b"hIDe", b"hi"));
    expected.extend_from_slice(&src[iend_at..]);
    assert_eq!(out, expected);
}

#[test]
fn inject_drops_trailing_bytes() {
    let mut src = stream(&[]);
    let plain = src.len();
    src.extend_from_slice(&[7, 7]);
    let out = PngFile::new(src.clone()).unwrap().inject("").unwrap();
    assert_eq!(out.len(), plain + 12);
}
