//! One length-prefixed, CRC-checked chunk of a PNG stream.

use vstd::prelude::*;
use vstd::slice::slice_subrange;
use vstd::string::StringSliceAdditionalSpecFns;

use crate::bytes::{be32, be_bytes, push_u32_be, read_u32_be};
use crate::error::PngError;

verus! {

/// Type code of the header chunk, `IHDR`.
pub const IHDR: u32 = 0x49484452;

/// Type code of the terminal chunk, `IEND`.
pub const IEND: u32 = 0x49454E44;

/// Type code of the chunk that carries a hidden message, `hIDe`.
pub const HIDE: u32 = 0x68494465;

/// What `crc32fast::hash` returns for the given bytes: their CRC-32 (IEEE).
pub uninterp spec fn crc32_of(b: Seq<u8>) -> u32;

/// Relies on crc32fast::hash: the CRC-32 of the bytes, a function of the bytes alone.
#[verifier::external_body]
fn crc32(b: &[u8]) -> (r: u32)
    ensures
        r == crc32_of(b@),
{
    crc32fast::hash(b)
}

/// The directory entry of one chunk; its data stays in the source bytes.
#[derive(Debug, Clone, Copy, PartialEq, Eq, Structural)]
pub struct PngChunk {
    /// Number of data bytes.
    pub data_len: u32,
    /// The four type bytes read as a big-endian integer.
    pub data_type: u32,
    /// Offset in the source bytes where the data starts.
    pub data_ptr: u64,
    /// The stored CRC of the type bytes followed by the data.
    pub crc32: u32,
}

/// The chunk that starts at `pos` and the position just after it, or why it cannot be read.
pub open spec fn parse_chunk(data: Seq<u8>, pos: int) -> Result<(PngChunk, int), PngError> {
    if pos + 8 > data.len() {
        Err(PngError::Truncated)
    } else {
        let len = be32(data, pos);
        let ty = be32(data, pos + 4);
        let end = pos + 8 + len;
        if end + 4 > data.len() {
            Err(PngError::Truncated)
        } else if crc32_of(data.subrange(pos + 4, end)) != be32(data, end) {
            Err(PngError::Checksum)
        } else {
            Ok(
                (
                    PngChunk {
                        data_len: len,
                        data_type: ty,
                        data_ptr: (pos + 8) as u64,
                        crc32: be32(data, end),
                    },
                    end + 4,
                ),
            )
        }
    }
}

/// The data bytes of `c` within `data`.
pub open spec fn payload(data: Seq<u8>, c: PngChunk) -> Seq<u8> {
    data.subrange(c.data_ptr as int, c.data_ptr + c.data_len)
}

/// Whether the data of `c` lies within `data`.
pub open spec fn payload_in(data: Seq<u8>, c: PngChunk) -> bool {
    c.data_ptr + c.data_len <= data.len()
}

/// The bytes of `c` as it is written out: length, type, data, CRC.
pub open spec fn record_bytes(data: Seq<u8>, c: PngChunk) -> Seq<u8> {
    be_bytes(c.data_len) + be_bytes(c.data_type) + payload(data, c) + be_bytes(c.crc32)
}

/// The CRC of a chunk of type `ty` whose data is `msg`.
pub open spec fn chunk_crc(ty: u32, msg: Seq<u8>) -> u32 {
    crc32_of(be_bytes(ty) + msg)
}

/// The bytes of a hidden-message chunk whose data is `msg`.
pub open spec fn hidden_record(msg: Seq<u8>) -> Seq<u8> {
    be_bytes(msg.len() as u32) + be_bytes(HIDE) + msg + be_bytes(chunk_crc(HIDE, msg))
}

impl PngChunk {
    /// A chunk with every field zero.
    pub fn new() -> (r: PngChunk)
        ensures
            r.data_len == 0,
            r.data_type == 0,
            r.data_ptr == 0,
            r.crc32 == 0,
    {
        PngChunk { data_len: 0, data_type: 0, data_ptr: 0, crc32: 0 }
    }

    /// Whether the chunk's type code is `dtype`.
    pub fn is_type(&self, dtype: u32) -> (r: bool)
        ensures
            r == (self.data_type == dtype),
    {
        self.data_type == dtype
    }

    /// The four type bytes, most significant first (`IHDR` gives `b"IHDR"`).
    pub fn type_bytes(&self) -> (r: Vec<u8>)
        ensures
            r@ == be_bytes(self.data_type),
    {
        let mut r: Vec<u8> = Vec::new();
        push_u32_be(&mut r, self.data_type);
        r
    }

    /// Reads the chunk that starts at `pos` in `data`, checks its CRC, and fills `self`
    /// with it. Returns the position just after the chunk. On failure `self` is unchanged.
    pub fn read_no_data(&mut self, data: &[u8], pos: usize) -> (r: Result<usize, PngError>)
        ensures
            match parse_chunk(data@, pos as int) {
                Ok((c, next)) => r is Ok && r->Ok_0 == next && *final(self) == c,
                Err(e) => r == Err::<usize, PngError>(e) && *final(self) == *old(self),
            },
            r is Ok ==> pos < r->Ok_0 <= data@.len(),
    {
        if pos > data.len() || data.len() - pos < 8 {
            return Err(PngError::Truncated);
        }
        let len = read_u32_be(data, pos);
        let ty = read_u32_be(data, pos + 4);
        let start = pos + 8;
        if data.len() - start < 4 || ((data.len() - start - 4) as u64) < len as u64 {
            return Err(PngError::Truncated);
        }
        let end = start + len as usize;
        let stored = read_u32_be(data, end);
        let computed = crc32(slice_subrange(data, pos + 4, end));
        if computed != stored {
            return Err(PngError::Checksum);
        }
        self.data_len = len;
        self.data_type = ty;
        self.data_ptr = start as u64;
        self.crc32 = stored;
        Ok(end + 4)
    }

    /// Appends the data bytes of the chunk, read from `src`, to `out`.
    /// Fails when they do not lie within `src`, and leaves `out` unchanged then.
    pub fn copy_data(&self, src: &[u8], out: &mut Vec<u8>) -> (r: Result<(), PngError>)
        ensures
            payload_in(src@, *self) ==> r is Ok && final(out)@ == old(out)@ + payload(src@, *self),
            !payload_in(src@, *self) ==> r == Err::<(), PngError>(PngError::Truncated)
                && final(out)@ == old(out)@,
    {
        if self.data_ptr > src.len() as u64 || (src.len() as u64 - self.data_ptr) < self.data_len as u64 {
            return Err(PngError::Truncated);
        }
        let start = self.data_ptr as usize;
        let end = start + self.data_len as usize;
        let mut i = start;
        while i < end
            invariant
                start <= i <= end,
                end <= src@.len(),
                start == self.data_ptr,
                end == self.data_ptr + self.data_len,
                out@ == old(out)@ + src@.subrange(start as int, i as int),
            decreases end - i,
        {
            out.push(src[i]);
            assert(src@.subrange(start as int, i + 1) =~= src@.subrange(start as int, i as int).push(src@[i as int]));
            i += 1;
        }
        Ok(())
    }

    /// Appends the whole chunk to `out`: length, type, the data read from `src`, CRC.
    /// Fails when the data does not lie within `src`, and leaves `out` unchanged then.
    pub fn write_to_file(&self, src: &[u8], out: &mut Vec<u8>) -> (r: Result<(), PngError>)
        ensures
            payload_in(src@, *self) ==> r is Ok && final(out)@ == old(out)@ + record_bytes(src@, *self),
            !payload_in(src@, *self) ==> r == Err::<(), PngError>(PngError::Truncated)
                && final(out)@ == old(out)@,
    {
        if self.data_ptr > src.len() as u64 || (src.len() as u64 - self.data_ptr) < self.data_len as u64 {
            return Err(PngError::Truncated);
        }
        let ghost before = out@;
        push_u32_be(out, self.data_len);
        push_u32_be(out, self.data_type);
        let copied = self.copy_data(src, out);
        push_u32_be(out, self.crc32);
        assert(out@ =~= before + record_bytes(src@, *self));
        copied
    }

    /// The data bytes of the chunk, read from `src`; fails when they do not lie within it.
    pub fn read_data(&self, src: &[u8]) -> (r: Result<Vec<u8>, PngError>)
        ensures
            payload_in(src@, *self) ==> r is Ok && r->Ok_0@ == payload(src@, *self),
            !payload_in(src@, *self) ==> r == Err::<Vec<u8>, PngError>(PngError::Truncated),
    {
        let mut buf: Vec<u8> = Vec::new();
        match self.copy_data(src, &mut buf) {
            Ok(()) => {
                assert(buf@ =~= payload(src@, *self));
                Ok(buf)
            },
            Err(e) => Err(e),
        }
    }

    /// Appends a hidden-message chunk whose data is the UTF-8 bytes of `text`.
    /// Fails when `text` is too long for the length field, and leaves `out` unchanged then.
    pub fn write_custom(out: &mut Vec<u8>, text: &str) -> (r: Result<(), PngError>)
        ensures
            text.spec_bytes().len() <= u32::MAX ==> r is Ok
                && final(out)@ == old(out)@ + hidden_record(text.spec_bytes()),
            text.spec_bytes().len() > u32::MAX ==> r == Err::<(), PngError>(PngError::TooLarge)
                && final(out)@ == old(out)@,
    {
        let msg = text.as_bytes();
        if msg.len() > 0xFFFF_FFFF {
            return Err(PngError::TooLarge);
        }
        let mut covered: Vec<u8> = Vec::new();
        push_u32_be(&mut covered, HIDE);
        let mut i: usize = 0;
        while i < msg.len()
            invariant
                i <= msg@.len(),
                covered@ == be_bytes(HIDE) + msg@.subrange(0, i as int),
            decreases msg@.len() - i,
        {
            covered.push(msg[i]);
            assert(msg@.subrange(0, i + 1) =~= msg@.subrange(0, i as int).push(msg@[i as int]));
            i += 1;
        }
        assert(msg@.subrange(0, msg@.len() as int) =~= msg@);
        let crc = crc32(covered.as_slice());
        let ghost before = out@;
        push_u32_be(out, msg.len() as u32);
        let ghost mid = out@;
        let mut j: usize = 0;
        while j < covered.len()
            invariant
                j <= covered@.len(),
                msg@.len() <= u32::MAX,
                covered@ == be_bytes(HIDE) + msg@,
                out@ == mid + covered@.subrange(0, j as int),
                mid == before + be_bytes(msg@.len() as u32),
            decreases covered@.len() - j,
        {
            out.push(covered[j]);
            assert(covered@.subrange(0, j + 1) =~= covered@.subrange(0, j as int).push(covered@[j as int]));
            j += 1;
        }
        push_u32_be(out, crc);
        assert(covered@.subrange(0, covered@.len() as int) =~= covered@);
        assert(out@ =~= before + hidden_record(msg@));
        Ok(())
    }
}

} // verus!
