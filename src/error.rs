//! Why an operation on a chunk stream failed.

use vstd::prelude::*;

verus! {

/// The ways in which reading, rewriting or searching a chunk stream fails.
#[derive(Debug, Clone, Copy, PartialEq, Eq, Structural)]
pub enum PngError {
    /// The first eight bytes are not the PNG signature, or there are fewer of them.
    BadSignature,
    /// The first chunk is not an `IHDR` chunk.
    MissingHeader,
    /// A chunk's stored CRC differs from the CRC of its type and data.
    Checksum,
    /// The bytes end inside a chunk, or before the `IEND` chunk.
    Truncated,
    /// The hidden message is not valid UTF-8.
    Encoding,
    /// No hidden-message chunk is present.
    NotFound,
    /// A payload is too long for the 32-bit length field.
    TooLarge,
}

} // verus!
