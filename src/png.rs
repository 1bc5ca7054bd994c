//! A PNG chunk stream: the signature, then chunks from `IHDR` up to `IEND`.

use vstd::prelude::*;
use vstd::string::StringSliceAdditionalSpecFns;
use vstd::utf8::{decode_utf8, valid_utf8};

use crate::bytes::push_u32_be;
use crate::chunk::{
    hidden_record, parse_chunk, payload, payload_in, record_bytes, PngChunk, HIDE, IEND, IHDR,
};
use crate::error::PngError;

verus! {

/// The first eight bytes, `89 50 4E 47 0D 0A 1A 0A`, read as a big-endian integer.
pub const PNG_HEADER: u64 = 0x89504E470D0A1A0A;

/// The eight bytes every PNG stream starts with.
pub open spec fn png_signature() -> Seq<u8> {
    seq![0x89u8, 0x50u8, 0x4Eu8, 0x47u8, 0x0Du8, 0x0Au8, 0x1Au8, 0x0Au8]
}

/// Whether `data` starts with the PNG signature.
pub open spec fn signature_ok(data: Seq<u8>) -> bool {
    data.len() >= 8 && data.subrange(0, 8) == png_signature()
}

/// `pre` followed by the chunks of `r`, or the error of `r`.
pub open spec fn prepend(pre: Seq<PngChunk>, r: Result<Seq<PngChunk>, PngError>) -> Result<Seq<PngChunk>, PngError> {
    match r {
        Ok(cs) => Ok(pre + cs),
        Err(e) => Err(e),
    }
}

/// Prepending in two steps is prepending the two parts at once.
pub proof fn lemma_prepend_twice(a: Seq<PngChunk>, b: Seq<PngChunk>, r: Result<Seq<PngChunk>, PngError>)
    ensures
        prepend(a, prepend(b, r)) == prepend(a + b, r),
{
    if let Ok(cs) = r {
        assert(a + (b + cs) =~= (a + b) + cs);
    }
}

/// The chunks from `pos` up to and including the first `IEND` chunk, or why they cannot be read.
pub open spec fn parse_from(data: Seq<u8>, pos: int) -> Result<Seq<PngChunk>, PngError>
    decreases data.len() - pos,
{
    match parse_chunk(data, pos) {
        Err(e) => Err(e),
        Ok((c, next)) => {
            if c.data_type == IEND {
                Ok(seq![c])
            } else if next <= pos || next > data.len() {
                Err(PngError::Truncated)
            } else {
                prepend(seq![c], parse_from(data, next))
            }
        },
    }
}

/// The chunk directory of a whole PNG stream, or why it is rejected.
pub open spec fn parse_png(data: Seq<u8>) -> Result<Seq<PngChunk>, PngError> {
    if !signature_ok(data) {
        Err(PngError::BadSignature)
    } else {
        match parse_chunk(data, 8) {
            Err(e) => Err(e),
            Ok((c, _)) => {
                if c.data_type != IHDR {
                    Err(PngError::MissingHeader)
                } else {
                    parse_from(data, 8)
                }
            },
        }
    }
}

/// The chunks `cs` written out in order, with a hidden-message chunk holding `msg`
/// written just before each `IEND` chunk.
pub open spec fn write_chunks(data: Seq<u8>, cs: Seq<PngChunk>, msg: Seq<u8>) -> Seq<u8>
    decreases cs.len(),
{
    if cs.len() == 0 {
        seq![]
    } else {
        let c = cs.last();
        write_chunks(data, cs.drop_last(), msg)
            + (if c.data_type == IEND { hidden_record(msg) } else { seq![] })
            + record_bytes(data, c)
    }
}

/// The stream that injecting `msg` into the stream `data` with directory `cs` produces.
pub open spec fn injected_bytes(data: Seq<u8>, cs: Seq<PngChunk>, msg: Seq<u8>) -> Seq<u8> {
    png_signature() + write_chunks(data, cs, msg)
}

/// The index of the first chunk at or after `i` whose type is `t`.
pub open spec fn first_from(cs: Seq<PngChunk>, t: u32, i: int) -> Option<int>
    decreases cs.len() - i,
{
    if i < 0 || i >= cs.len() {
        None
    } else if cs[i].data_type == t {
        Some(i)
    } else {
        first_from(cs, t, i + 1)
    }
}

/// The hidden message of the stream `data` with directory `cs`: the text of the first
/// hidden-message chunk, or why there is none.
pub open spec fn extract_spec(data: Seq<u8>, cs: Seq<PngChunk>) -> Result<Seq<char>, PngError> {
    match first_from(cs, HIDE, 0) {
        None => Err(PngError::NotFound),
        Some(i) => {
            let p = payload(data, cs[i]);
            if valid_utf8(p) {
                Ok(decode_utf8(p))
            } else {
                Err(PngError::Encoding)
            }
        },
    }
}

/// Relies on String::from_utf8: it succeeds exactly on valid UTF-8, and the string then
/// holds the characters that the bytes encode.
#[verifier::external_body]
fn utf8_to_string(b: Vec<u8>) -> (r: Option<String>)
    ensures
        r is Some <==> valid_utf8(b@),
        r is Some ==> r->Some_0@ == decode_utf8(b@),
{
    String::from_utf8(b).ok()
}

/// Whether `data` starts with the PNG signature.
fn has_signature(data: &[u8]) -> (r: bool)
    ensures
        r == signature_ok(data@),
{
    if data.len() < 8 {
        return false;
    }
    let r = data[0] == 0x89 && data[1] == 0x50 && data[2] == 0x4E && data[3] == 0x47
        && data[4] == 0x0D && data[5] == 0x0A && data[6] == 0x1A && data[7] == 0x0A;
    assert(r ==> data@.subrange(0, 8) =~= png_signature());
    assert(data@.subrange(0, 8) == png_signature() ==> data@.subrange(0, 8)[0] == 0x89
        && data@.subrange(0, 8)[1] == 0x50 && data@.subrange(0, 8)[2] == 0x4E
        && data@.subrange(0, 8)[3] == 0x47 && data@.subrange(0, 8)[4] == 0x0D
        && data@.subrange(0, 8)[5] == 0x0A && data@.subrange(0, 8)[6] == 0x1A
        && data@.subrange(0, 8)[7] == 0x0A);
    r
}

/// A parsed PNG stream: its bytes and the directory of its chunks.
pub struct PngFile {
    data: Vec<u8>,
    header: u64,
    chunks: Vec<PngChunk>,
}

impl PngFile {
    /// The bytes of the stream.
    pub closed spec fn source(&self) -> Seq<u8> {
        self.data@
    }

    /// The chunk directory, in stream order.
    pub closed spec fn directory(&self) -> Seq<PngChunk> {
        self.chunks@
    }

    /// The signature, read as a big-endian integer.
    pub closed spec fn signature(&self) -> u64 {
        self.header
    }

    /// The directory is the one the bytes hold, and each chunk's data lies within them.
    pub open spec fn wf(&self) -> bool {
        &&& parse_png(self.source()) == Ok::<Seq<PngChunk>, PngError>(self.directory())
        &&& forall|i: int| 0 <= i < self.directory().len() ==> payload_in(self.source(), #[trigger] self.directory()[i])
        &&& self.signature() == PNG_HEADER
    }

    /// Checks the signature and reads the chunk directory of `data`, from the `IHDR`
    /// chunk up to and including the first `IEND` chunk.
    pub fn new(data: Vec<u8>) -> (r: Result<PngFile, PngError>)
        ensures
            match parse_png(data@) {
                Ok(cs) => r is Ok && r->Ok_0.wf() && r->Ok_0.source() == data@
                    && r->Ok_0.directory() == cs,
                Err(e) => r is Err && r->Err_0 == e,
            },
    {
        if !has_signature(data.as_slice()) {
            return Err(PngError::BadSignature);
        }
        let mut chunk = PngChunk::new();
        let mut pos: usize = match chunk.read_no_data(data.as_slice(), 8) {
            Ok(p) => p,
            Err(e) => return Err(e),
        };
        if !chunk.is_type(IHDR) {
            return Err(PngError::MissingHeader);
        }
        let mut chunks: Vec<PngChunk> = Vec::new();
        chunks.push(chunk);
        assert(chunks@ =~= seq![chunk]);
        assert(parse_chunk(data@, 8) == Ok::<(PngChunk, int), PngError>((chunk, pos as int)));
        assert(parse_from(data@, 8) == prepend(seq![chunk], parse_from(data@, pos as int)));
        while !chunk.is_type(IEND)
            invariant
                pos <= data@.len(),
                chunks@.len() >= 1,
                chunks@.last() == chunk,
                signature_ok(data@),
                parse_png(data@) == parse_from(data@, 8),
                forall|i: int| 0 <= i < chunks@.len() ==> payload_in(data@, #[trigger] chunks@[i]),
                chunk.data_type != IEND ==> parse_from(data@, 8) == prepend(chunks@, parse_from(data@, pos as int)),
                chunk.data_type == IEND ==> parse_from(data@, 8) == Ok::<Seq<PngChunk>, PngError>(chunks@),
            decreases data@.len() - pos,
        {
            let ghost old_chunks = chunks@;
            let next = match chunk.read_no_data(data.as_slice(), pos) {
                Ok(n) => n,
                Err(e) => return Err(e),
            };
            chunks.push(chunk);
            assert(parse_chunk(data@, pos as int) == Ok::<(PngChunk, int), PngError>((chunk, next as int)));
            assert(chunk.data_type != IEND ==> parse_from(data@, pos as int) == prepend(seq![chunk], parse_from(data@, next as int)));
            assert(chunks@ == old_chunks.push(chunk));
            proof {
                assert(old_chunks + seq![chunk] =~= chunks@);
                if chunk.data_type != IEND {
                    lemma_prepend_twice(old_chunks, seq![chunk], parse_from(data@, next as int));
                } else {
                    assert(old_chunks + seq![chunk] =~= chunks@);
                }
            }
            pos = next;
        }
        Ok(PngFile { data, header: PNG_HEADER, chunks })
    }

    /// The signature, read as a big-endian integer.
    pub fn header(&self) -> (r: u64)
        ensures
            r == self.signature(),
    {
        self.header
    }

    /// The chunk directory, in stream order.
    pub fn chunks(&self) -> (r: &Vec<PngChunk>)
        ensures
            r@ == self.directory(),
    {
        &self.chunks
    }

    /// The stream with a hidden-message chunk holding the UTF-8 bytes of `message`
    /// written just before the `IEND` chunk; every other chunk is copied unchanged.
    pub fn inject(&self, message: &str) -> (r: Result<Vec<u8>, PngError>)
        requires
            self.wf(),
        ensures
            message.spec_bytes().len() <= u32::MAX ==> r is Ok
                && r->Ok_0@ == injected_bytes(self.source(), self.directory(), message.spec_bytes()),
            message.spec_bytes().len() > u32::MAX ==> r == Err::<Vec<u8>, PngError>(PngError::TooLarge),
    {
        if message.as_bytes().len() > 0xFFFF_FFFF {
            return Err(PngError::TooLarge);
        }
        let ghost msg = message.spec_bytes();
        let ghost cs = self.chunks@;
        let mut out: Vec<u8> = Vec::new();
        push_u32_be(&mut out, 0x89504E47);
        push_u32_be(&mut out, 0x0D0A1A0A);
        assert(out@ =~= png_signature() + write_chunks(self.data@, cs.take(0), msg));
        let mut i: usize = 0;
        while i < self.chunks.len()
            invariant
                self.wf(),
                cs == self.chunks@,
                msg == message.spec_bytes(),
                msg.len() <= u32::MAX,
                i <= cs.len(),
                out@ == png_signature() + write_chunks(self.data@, cs.take(i as int), msg),
            decreases cs.len() - i,
        {
            let c = self.chunks[i];
            let ghost before = out@;
            if c.is_type(IEND) {
                match PngChunk::write_custom(&mut out, message) {
                    Ok(()) => {},
                    Err(e) => return Err(e),
                }
            }
            let ghost mid = out@;
            assert(payload_in(self.data@, cs[i as int]));
            match c.write_to_file(self.data.as_slice(), &mut out) {
                Ok(()) => {},
                Err(e) => return Err(e),
            }
            assert(cs.take(i + 1).drop_last() =~= cs.take(i as int));
            assert(out@ =~= png_signature() + write_chunks(self.data@, cs.take(i + 1), msg));
            i += 1;
        }
        assert(cs.take(cs.len() as int) =~= cs);
        Ok(out)
    }

    /// The text of the first hidden-message chunk.
    pub fn extract(&self) -> (r: Result<String, PngError>)
        requires
            self.wf(),
        ensures
            match extract_spec(self.source(), self.directory()) {
                Ok(s) => r is Ok && r->Ok_0@ == s,
                Err(e) => r is Err && r->Err_0 == e,
            },
    {
        let mut i: usize = 0;
        while i < self.chunks.len()
            invariant
                self.wf(),
                i <= self.chunks@.len(),
                first_from(self.chunks@, HIDE, 0) == first_from(self.chunks@, HIDE, i as int),
            decreases self.chunks@.len() - i,
        {
            let c = self.chunks[i];
            if c.is_type(HIDE) {
                assert(payload_in(self.data@, self.chunks@[i as int]));
                let bytes = match c.read_data(self.data.as_slice()) {
                    Ok(b) => b,
                    Err(e) => return Err(e),
                };
                return match utf8_to_string(bytes) {
                    Some(s) => Ok(s),
                    None => Err(PngError::Encoding),
                };
            }
            i += 1;
        }
        Err(PngError::NotFound)
    }
}

} // verus!
