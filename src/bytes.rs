//! Big-endian 32-bit integers as they stand in the chunk stream.

use vstd::prelude::*;

verus! {

/// The value of the four bytes of `s` that start at `i`, most significant first.
pub open spec fn be32(s: Seq<u8>, i: int) -> u32 {
    (s[i] as int * 16777216 + s[i + 1] as int * 65536 + s[i + 2] as int * 256 + s[i + 3] as int) as u32
}

/// The four bytes of `v`, most significant first.
pub open spec fn be_bytes(v: u32) -> Seq<u8> {
    seq![(v / 16777216) as u8, ((v / 65536) % 256) as u8, ((v / 256) % 256) as u8, (v % 256) as u8]
}

/// Reading back the bytes of a value gives the value.
pub proof fn lemma_be32_of_bytes(v: u32)
    ensures
        be_bytes(v).len() == 4,
        be32(be_bytes(v), 0) == v,
{
    let a = v / 16777216;
    let b = (v / 65536) % 256;
    let c = (v / 256) % 256;
    let d = v % 256;
    assert(a as int * 16777216 + b as int * 65536 + c as int * 256 + d as int == v as int)
        by (nonlinear_arith)
        requires
            a == v / 16777216,
            b == (v / 65536) % 256,
            c == (v / 256) % 256,
            d == v % 256,
    ;
}

/// Four bytes are the bytes of the value they hold.
pub proof fn lemma_bytes_of_be32(s: Seq<u8>, i: int)
    requires
        0 <= i,
        i + 4 <= s.len(),
    ensures
        be_bytes(be32(s, i)) == s.subrange(i, i + 4),
{
    let a = s[i];
    let b = s[i + 1];
    let c = s[i + 2];
    let d = s[i + 3];
    let v = be32(s, i);
    assert(v as int == a as int * 16777216 + b as int * 65536 + c as int * 256 + d as int)
        by (nonlinear_arith)
        requires
            v == (a as int * 16777216 + b as int * 65536 + c as int * 256 + d as int) as u32,
            a <= 255, b <= 255, c <= 255, d <= 255,
    ;
    assert(v / 16777216 == a && (v / 65536) % 256 == b && (v / 256) % 256 == c && v % 256 == d)
        by (nonlinear_arith)
        requires
            v as int == a as int * 16777216 + b as int * 65536 + c as int * 256 + d as int,
            a <= 255, b <= 255, c <= 255, d <= 255,
    ;
    assert(be_bytes(v) =~= s.subrange(i, i + 4));
}

/// Reads the big-endian value of `data[i..i + 4]`.
pub fn read_u32_be(data: &[u8], i: usize) -> (r: u32)
    requires
        i + 4 <= data@.len(),
    ensures
        r == be32(data@, i as int),
{
    let a = data[i] as u32;
    let b = data[i + 1] as u32;
    let c = data[i + 2] as u32;
    let d = data[i + 3] as u32;
    assert(a * 16777216 + b * 65536 + c * 256 + d <= 0xFFFF_FFFF) by (nonlinear_arith)
        requires a <= 255, b <= 255, c <= 255, d <= 255;
    a * 16777216 + b * 65536 + c * 256 + d
}

/// Appends the four big-endian bytes of `v` to `out`.
pub fn push_u32_be(out: &mut Vec<u8>, v: u32)
    ensures
        final(out)@ == old(out)@ + be_bytes(v),
{
    out.push((v / 16777216) as u8);
    out.push(((v / 65536) % 256) as u8);
    out.push(((v / 256) % 256) as u8);
    out.push((v % 256) as u8);
    assert(final(out)@ =~= old(out)@ + be_bytes(v));
}

} // verus!
