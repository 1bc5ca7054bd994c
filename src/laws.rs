//! What holds of the chunk stream across operations: reading back what `inject` wrote,
//! where the hidden message lands, and when a stream is rejected.

use vstd::prelude::*;
use vstd::utf8::{encode_utf8, encode_utf8_decode_utf8, encode_utf8_valid_utf8};

use crate::bytes::{be32, be_bytes, lemma_be32_of_bytes, lemma_bytes_of_be32};
use crate::chunk::{
    chunk_crc, crc32_of, hidden_record, parse_chunk, payload, record_bytes, PngChunk, HIDE, IEND,
    IHDR,
};
use crate::error::PngError;
use crate::png::{
    extract_spec, first_from, injected_bytes, parse_from, parse_png, png_signature, prepend,
    signature_ok, write_chunks,
};

verus! {

/// The entry of a hidden-message chunk holding `msg` that starts at offset `at`.
pub open spec fn hidden_chunk(at: int, msg: Seq<u8>) -> PngChunk {
    PngChunk {
        data_len: msg.len() as u32,
        data_type: HIDE,
        data_ptr: (at + 8) as u64,
        crc32: chunk_crc(HIDE, msg),
    }
}

/// The entry `c` with its data offset moved by `by` bytes.
pub open spec fn moved(c: PngChunk, by: int) -> PngChunk {
    PngChunk { data_ptr: (c.data_ptr + by) as u64, ..c }
}

/// The directory of a stream with directory `cs` after `msg` was injected into it.
pub open spec fn injected_directory(cs: Seq<PngChunk>, msg: Seq<u8>) -> Seq<PngChunk> {
    let last = cs.last();
    cs.drop_last() + seq![hidden_chunk(last.data_ptr - 8, msg), moved(last, 12 + msg.len() as int)]
}

proof fn lemma_be32_sub(d: Seq<u8>, p: int)
    requires
        0 <= p,
        p + 4 <= d.len(),
    ensures
        be32(d, p) == be32(d.subrange(p, p + 4), 0),
{
}

/// A chunk that was read occupies the bytes of its record, and its CRC is the CRC of
/// its type and data.
proof fn lemma_chunk_bytes(d: Seq<u8>, p: int)
    requires
        0 <= p,
        d.len() <= u64::MAX,
        parse_chunk(d, p) is Ok,
    ensures
        ({
            let (c, next) = parse_chunk(d, p)->Ok_0;
            &&& next == p + 12 + c.data_len
            &&& next <= d.len()
            &&& c.data_ptr == p + 8
            &&& payload(d, c).len() == c.data_len
            &&& d.subrange(p, next) == record_bytes(d, c)
            &&& d.subrange(p + 4, c.data_ptr + c.data_len) == be_bytes(c.data_type) + payload(d, c)
            &&& c.crc32 == chunk_crc(c.data_type, payload(d, c))
        }),
{
    let (c, next) = parse_chunk(d, p)->Ok_0;
    let end = p + 8 + c.data_len;
    lemma_bytes_of_be32(d, p);
    lemma_bytes_of_be32(d, p + 4);
    lemma_bytes_of_be32(d, end);
    assert(d.subrange(p, next) =~= d.subrange(p, p + 4) + d.subrange(p + 4, p + 8)
        + d.subrange(p + 8, end) + d.subrange(end, end + 4));
    assert(d.subrange(p + 4, end) =~= d.subrange(p + 4, p + 8) + d.subrange(p + 8, end));
    assert(payload(d, c) == d.subrange(p + 8, end));
    assert(d.subrange(p, next) == record_bytes(d, c));
    assert(d.subrange(p + 4, end) == be_bytes(c.data_type) + payload(d, c));
    assert(crc32_of(d.subrange(p + 4, end)) == c.crc32);
}

/// Bytes that hold a record with a matching CRC read back as that record.
proof fn lemma_read_record(d: Seq<u8>, p: int, ty: u32, pl: Seq<u8>)
    requires
        0 <= p,
        d.len() <= u64::MAX,
        pl.len() <= u32::MAX,
        p + 12 + pl.len() <= d.len(),
        d.subrange(p, p + 12 + pl.len()) == be_bytes(pl.len() as u32) + be_bytes(ty) + pl
            + be_bytes(chunk_crc(ty, pl)),
    ensures
        parse_chunk(d, p) == Ok::<(PngChunk, int), PngError>(
            (
                PngChunk {
                    data_len: pl.len() as u32,
                    data_type: ty,
                    data_ptr: (p + 8) as u64,
                    crc32: chunk_crc(ty, pl),
                },
                p + 12 + pl.len(),
            ),
        ),
{
    let s = d.subrange(p, p + 12 + pl.len());
    let end = p + 8 + pl.len();
    lemma_be32_of_bytes(pl.len() as u32);
    lemma_be32_of_bytes(ty);
    lemma_be32_of_bytes(chunk_crc(ty, pl));
    assert(d.subrange(p, p + 4) =~= be_bytes(pl.len() as u32)) by {
        assert forall|i: int| 0 <= i < 4 implies #[trigger] d.subrange(p, p + 4)[i] == be_bytes(pl.len() as u32)[i] by {
            assert(s[i] == d[p + i]);
        }
    }
    assert(d.subrange(p + 4, p + 8) =~= be_bytes(ty)) by {
        assert forall|i: int| 0 <= i < 4 implies #[trigger] d.subrange(p + 4, p + 8)[i] == be_bytes(ty)[i] by {
            assert(s[4 + i] == d[p + 4 + i]);
        }
    }
    assert(d.subrange(end, end + 4) =~= be_bytes(chunk_crc(ty, pl))) by {
        assert forall|i: int| 0 <= i < 4 implies #[trigger] d.subrange(end, end + 4)[i] == be_bytes(chunk_crc(ty, pl))[i] by {
            assert(s[8 + pl.len() + i] == d[end + i]);
        }
    }
    assert(d.subrange(p + 4, end) =~= be_bytes(ty) + pl) by {
        assert forall|i: int| 0 <= i < 4 + pl.len() implies #[trigger] d.subrange(p + 4, end)[i] == (be_bytes(ty) + pl)[i] by {
            assert(s[4 + i] == d[p + 4 + i]);
        }
    }
    lemma_be32_sub(d, p);
    lemma_be32_sub(d, p + 4);
    lemma_be32_sub(d, end);
}

/// Writing out a chunk that is not `IEND` in front of others puts its record in front.
proof fn lemma_write_front(d: Seq<u8>, c: PngChunk, xs: Seq<PngChunk>, msg: Seq<u8>)
    requires
        c.data_type != IEND,
    ensures
        write_chunks(d, seq![c] + xs, msg) == record_bytes(d, c) + write_chunks(d, xs, msg),
    decreases xs.len(),
{
    if xs.len() == 0 {
        assert(seq![c] + xs =~= seq![c]);
        assert(seq![c].drop_last() =~= Seq::<PngChunk>::empty());
        assert(write_chunks(d, Seq::<PngChunk>::empty(), msg) == Seq::<u8>::empty());
        assert(write_chunks(d, seq![c], msg) == write_chunks(d, Seq::<PngChunk>::empty(), msg)
            + Seq::<u8>::empty() + record_bytes(d, c));
        assert(Seq::<u8>::empty() + Seq::<u8>::empty() + record_bytes(d, c) =~= record_bytes(d, c));
        assert(record_bytes(d, c) + Seq::<u8>::empty() =~= record_bytes(d, c));
    } else {
        assert((seq![c] + xs).drop_last() =~= seq![c] + xs.drop_last());
        assert((seq![c] + xs).last() == xs.last());
        lemma_write_front(d, c, xs.drop_last(), msg);
        let piece = (if xs.last().data_type == IEND { hidden_record(msg) } else { seq![] })
            + record_bytes(d, xs.last());
        assert(write_chunks(d, seq![c] + xs, msg) =~= write_chunks(d, seq![c] + xs.drop_last(), msg) + piece);
        assert(write_chunks(d, xs, msg) =~= write_chunks(d, xs.drop_last(), msg) + piece);
    }
}

/// The shape of a directory that was read from `p` on: it ends with its one `IEND`
/// chunk, and the records before that lie one after another from `p`.
proof fn lemma_directory_shape(d: Seq<u8>, p: int, cs: Seq<PngChunk>, msg: Seq<u8>)
    requires
        0 <= p,
        d.len() <= u64::MAX,
        parse_from(d, p) == Ok::<Seq<PngChunk>, PngError>(cs),
    ensures
        cs.len() >= 1,
        cs.last().data_type == IEND,
        forall|k: int| 0 <= k < cs.len() - 1 ==> (#[trigger] cs[k]).data_type != IEND,
        cs[0].data_ptr == p + 8,
        forall|k: int| 0 <= k < cs.len() ==> (#[trigger] cs[k]).data_ptr >= p + 8,
        forall|k: int| 0 <= k < cs.len() ==> (#[trigger] cs[k]).data_ptr + cs[k].data_len + 4 <= d.len(),
        p <= cs.last().data_ptr - 8,
        parse_chunk(d, cs.last().data_ptr - 8) is Ok,
        parse_chunk(d, cs.last().data_ptr - 8)->Ok_0.0 == cs.last(),
        d.subrange(p, cs.last().data_ptr - 8) == write_chunks(d, cs.drop_last(), msg),
    decreases d.len() - p,
{
    let (c, next) = parse_chunk(d, p)->Ok_0;
    lemma_chunk_bytes(d, p);
    if c.data_type == IEND {
        assert(cs == seq![c]);
        assert(cs.drop_last() =~= Seq::<PngChunk>::empty());
        assert(d.subrange(p, p) =~= Seq::<u8>::empty());
    } else {
        let rest = parse_from(d, next)->Ok_0;
        assert(parse_from(d, next) is Ok);
        assert(cs == seq![c] + rest);
        lemma_directory_shape(d, next, rest, msg);
        assert(cs.last() == rest.last());
        assert(cs.drop_last() =~= seq![c] + rest.drop_last());
        lemma_write_front(d, c, rest.drop_last(), msg);
        let q = cs.last().data_ptr - 8;
        assert(d.subrange(p, q) =~= d.subrange(p, next) + d.subrange(next, q));
        assert forall|k: int| 0 <= k < cs.len() - 1 implies (#[trigger] cs[k]).data_type != IEND by {
            if k > 0 {
                assert(cs[k] == rest[k - 1]);
            }
        }
        assert forall|k: int| 0 <= k < cs.len() implies (#[trigger] cs[k]).data_ptr >= p + 8
            && cs[k].data_ptr + cs[k].data_len + 4 <= d.len() by {
            if k > 0 {
                assert(cs[k] == rest[k - 1]);
            }
        }
    }
}

/// The case of `lemma_read_injected` where the record at `p` is the `IEND` record.
#[verifier::rlimit(50)]
proof fn lemma_read_last(f: Seq<u8>, o: Seq<u8>, p: int, cs: Seq<PngChunk>, msg: Seq<u8>)
    requires
        0 <= p,
        f.len() <= u64::MAX,
        o.len() <= u64::MAX,
        msg.len() <= u32::MAX,
        parse_from(f, p) == Ok::<Seq<PngChunk>, PngError>(cs),
        parse_chunk(f, p)->Ok_0.0.data_type == IEND,
        p <= cs.last().data_ptr - 8,
        o.len() >= cs.last().data_ptr - 8 + hidden_record(msg).len() + record_bytes(f, cs.last()).len(),
        o.subrange(cs.last().data_ptr - 8, cs.last().data_ptr - 8 + hidden_record(msg).len()
            + record_bytes(f, cs.last()).len()) == hidden_record(msg) + record_bytes(f, cs.last()),
    ensures
        parse_from(o, p) == Ok::<Seq<PngChunk>, PngError>(injected_directory(cs, msg)),
{
    let (c, next) = parse_chunk(f, p)->Ok_0;
    lemma_chunk_bytes(f, p);
    let q = cs.last().data_ptr - 8;
    let h = hidden_record(msg);
    let r = record_bytes(f, cs.last());
        assert(cs == seq![c]);
        assert(q == p);
        let hl = h.len() as int;
        assert(hl == 12 + msg.len());
        assert(o.subrange(p, p + hl) =~= h) by {
            assert forall|i: int| 0 <= i < hl implies #[trigger] o.subrange(p, p + hl)[i] == h[i] by {
                assert(o.subrange(q, q + hl + r.len())[i] == o[p + i]);
            }
        }
        lemma_read_record(o, p, HIDE, msg);
        let pl = payload(f, c);
        assert(r == be_bytes(pl.len() as u32) + be_bytes(IEND) + pl + be_bytes(chunk_crc(IEND, pl)));
        assert(o.subrange(p + hl, p + hl + r.len()) =~= r) by {
            assert forall|i: int| 0 <= i < r.len() implies #[trigger] o.subrange(p + hl, p + hl + r.len())[i] == r[i] by {
                assert(o.subrange(q, q + hl + r.len())[hl + i] == o[p + hl + i]);
            }
        }
        lemma_read_record(o, p + hl, IEND, pl);
        let hc = hidden_chunk(q, msg);
        let ec = moved(c, 12 + msg.len() as int);
        assert(parse_from(o, p + hl) == Ok::<Seq<PngChunk>, PngError>(seq![ec]));
        assert(parse_from(o, p) == prepend(seq![hc], parse_from(o, p + hl)));
        assert(cs.drop_last() =~= Seq::<PngChunk>::empty());
        assert(injected_directory(cs, msg) =~= seq![hc, ec]);
        assert(seq![hc] + seq![ec] =~= seq![hc, ec]);
}

/// Reading the stream `o`, which holds from `p` on what `f` holds from `p` on, except
/// that a hidden-message record stands before the `IEND` record.
#[verifier::rlimit(50)]
proof fn lemma_read_injected(f: Seq<u8>, o: Seq<u8>, p: int, cs: Seq<PngChunk>, msg: Seq<u8>)
    requires
        0 <= p,
        f.len() <= u64::MAX,
        o.len() <= u64::MAX,
        msg.len() <= u32::MAX,
        parse_from(f, p) == Ok::<Seq<PngChunk>, PngError>(cs),
        p <= cs.last().data_ptr - 8,
        o.len() >= cs.last().data_ptr - 8 + hidden_record(msg).len() + record_bytes(f, cs.last()).len(),
        o.subrange(p, cs.last().data_ptr - 8) == f.subrange(p, cs.last().data_ptr - 8),
        o.subrange(cs.last().data_ptr - 8, cs.last().data_ptr - 8 + hidden_record(msg).len()
            + record_bytes(f, cs.last()).len()) == hidden_record(msg) + record_bytes(f, cs.last()),
    ensures
        parse_from(o, p) == Ok::<Seq<PngChunk>, PngError>(injected_directory(cs, msg)),
    decreases f.len() - p,
{
    let (c, next) = parse_chunk(f, p)->Ok_0;
    lemma_chunk_bytes(f, p);
    lemma_directory_shape(f, p, cs, msg);
    let q = cs.last().data_ptr - 8;
    let h = hidden_record(msg);
    let r = record_bytes(f, cs.last());
    if c.data_type == IEND {
        lemma_read_last(f, o, p, cs, msg);
    } else {
        let rest = parse_from(f, next)->Ok_0;
        assert(cs == seq![c] + rest);
        lemma_directory_shape(f, next, rest, msg);
        assert(cs.last() == rest.last());
        let rec = record_bytes(f, c);
        assert(o.subrange(p, next) =~= rec) by {
            assert forall|i: int| 0 <= i < next - p implies #[trigger] o.subrange(p, next)[i] == rec[i] by {
                assert(o.subrange(p, q)[i] == o[p + i]);
                assert(f.subrange(p, q)[i] == f[p + i]);
                assert(f.subrange(p, next)[i] == f[p + i]);
            }
        }
        lemma_read_record(o, p, c.data_type, payload(f, c));
        assert(parse_chunk(o, p) == Ok::<(PngChunk, int), PngError>((c, next)));
        assert(o.subrange(next, q) =~= f.subrange(next, q)) by {
            assert forall|i: int| 0 <= i < q - next implies #[trigger] o.subrange(next, q)[i] == f.subrange(next, q)[i] by {
                assert(o.subrange(p, q)[next - p + i] == o[next + i]);
                assert(f.subrange(p, q)[next - p + i] == f[next + i]);
            }
        }
        lemma_read_injected(f, o, next, rest, msg);
        assert(parse_from(o, p) == prepend(seq![c], parse_from(o, next)));
        assert(cs.drop_last() =~= seq![c] + rest.drop_last());
        assert(injected_directory(cs, msg) =~= seq![c] + injected_directory(rest, msg));
    }
}

/// Where the pieces of the injected stream lie.
#[verifier::rlimit(50)]
proof fn lemma_injected_layout(f: Seq<u8>, cs: Seq<PngChunk>, msg: Seq<u8>)
    requires
        parse_png(f) == Ok::<Seq<PngChunk>, PngError>(cs),
        msg.len() <= u32::MAX,
        f.len() + 12 + msg.len() <= u64::MAX,
    ensures
        ({
            let o = injected_bytes(f, cs, msg);
            let q = cs.last().data_ptr - 8;
            let hr = hidden_record(msg) + record_bytes(f, cs.last());
            &&& 8 <= q
            &&& o.len() == q + hr.len()
            &&& o.len() <= u64::MAX
            &&& signature_ok(o)
            &&& o.subrange(8, q) == f.subrange(8, q)
            &&& o.subrange(q, q + hr.len()) == hr
        }),
{
    let o = injected_bytes(f, cs, msg);
    lemma_directory_shape(f, 8, cs, msg);
    let last = cs.last();
    let q = last.data_ptr - 8;
    lemma_chunk_bytes(f, q);
    let w = write_chunks(f, cs.drop_last(), msg);
    let h = hidden_record(msg);
    let r = record_bytes(f, last);
    assert(write_chunks(f, cs, msg) == w + h + r);
    assert(o =~= png_signature() + w + (h + r));
    assert(w.len() == q - 8);
    assert(o.subrange(0, 8) =~= png_signature());
    assert(o.subrange(8, q) =~= w);
    assert(o.subrange(q, q + h.len() + r.len()) =~= h + r);
}

/// Injecting `msg` into a well-formed stream gives a well-formed stream whose directory
/// is the old one with the hidden-message chunk inserted just before the `IEND` chunk;
/// every other chunk keeps its entry, and only the `IEND` chunk's data offset moves, by
/// the length of the inserted record.
#[verifier::rlimit(80)]
pub proof fn law_inject_directory(f: Seq<u8>, cs: Seq<PngChunk>, msg: Seq<u8>)
    requires
        parse_png(f) == Ok::<Seq<PngChunk>, PngError>(cs),
        msg.len() <= u32::MAX,
        f.len() + 12 + msg.len() <= u64::MAX,
    ensures
        parse_png(injected_bytes(f, cs, msg)) == Ok::<Seq<PngChunk>, PngError>(injected_directory(cs, msg)),
{
    let o = injected_bytes(f, cs, msg);
    lemma_injected_layout(f, cs, msg);
    lemma_directory_shape(f, 8, cs, msg);
    lemma_read_injected(f, o, 8, cs, msg);
    let cs2 = injected_directory(cs, msg);
    let c0 = parse_chunk(f, 8)->Ok_0.0;
    assert(cs[0] == c0);
    assert(cs.len() >= 2) by {
        assert(cs.last().data_type == IEND);
    }
    assert(cs2[0] == c0);
    assert(parse_chunk(o, 8) is Ok) by {
        assert(parse_from(o, 8) is Ok);
    }
    assert(parse_chunk(o, 8)->Ok_0.0 == cs2[0]) by {
        assert(parse_from(o, 8) is Ok);
    }
}

/// Injecting an empty message and then removing the inserted chunk gives back the old
/// directory, except that the `IEND` chunk's data offset has moved by the twelve bytes
/// of the inserted record.
pub proof fn law_round_trip(f: Seq<u8>, cs: Seq<PngChunk>)
    requires
        parse_png(f) == Ok::<Seq<PngChunk>, PngError>(cs),
        f.len() + 12 <= u64::MAX,
    ensures
        parse_png(injected_bytes(f, cs, seq![])) is Ok,
        parse_png(injected_bytes(f, cs, seq![]))->Ok_0.len() == cs.len() + 1,
        parse_png(injected_bytes(f, cs, seq![]))->Ok_0.remove(cs.len() - 1)
            == cs.update(cs.len() - 1, moved(cs.last(), 12)),
{
    law_inject_directory(f, cs, seq![]);
    lemma_directory_shape(f, 8, cs, seq![]);
    let cs2 = injected_directory(cs, seq![]);
    assert(cs2.remove(cs.len() - 1) =~= cs.update(cs.len() - 1, moved(cs.last(), 12)));
}

/// The injected chunk stands right after every chunk of the old stream but the last,
/// and right before the `IEND` chunk, however many chunks the stream has.
pub proof fn law_insertion_position(f: Seq<u8>, cs: Seq<PngChunk>, msg: Seq<u8>)
    requires
        parse_png(f) == Ok::<Seq<PngChunk>, PngError>(cs),
        msg.len() <= u32::MAX,
        f.len() + 12 + msg.len() <= u64::MAX,
    ensures
        ({
            let cs2 = parse_png(injected_bytes(f, cs, msg))->Ok_0;
            &&& parse_png(injected_bytes(f, cs, msg)) is Ok
            &&& cs2.len() == cs.len() + 1
            &&& forall|k: int| 0 <= k < cs.len() - 1 ==> cs2[k] == cs[k]
            &&& cs2[cs.len() - 1].data_type == HIDE
            &&& cs2[cs.len() - 1].data_len == msg.len()
            &&& cs2[cs.len() as int].data_type == IEND
            &&& cs2[cs.len() as int].data_len == cs.last().data_len
            &&& cs2[cs.len() as int].crc32 == cs.last().crc32
        }),
{
    law_inject_directory(f, cs, msg);
    lemma_directory_shape(f, 8, cs, msg);
}

/// Searching from `i` finds `j` when the chunks from `i` up to `j` are of other types.
proof fn lemma_first_found(cs: Seq<PngChunk>, t: u32, i: int, j: int)
    requires
        0 <= i <= j < cs.len(),
        cs[j].data_type == t,
        forall|k: int| i <= k < j ==> (#[trigger] cs[k]).data_type != t,
    ensures
        first_from(cs, t, i) == Some(j),
    decreases j - i,
{
    if i < j {
        lemma_first_found(cs, t, i + 1, j);
    }
}

/// Searching from `i` finds nothing when no chunk from `i` on is of type `t`.
proof fn lemma_first_absent(cs: Seq<PngChunk>, t: u32, i: int)
    requires
        0 <= i,
        forall|k: int| i <= k < cs.len() ==> (#[trigger] cs[k]).data_type != t,
    ensures
        first_from(cs, t, i) is None,
    decreases cs.len() - i,
{
    if i < cs.len() {
        lemma_first_absent(cs, t, i + 1);
    }
}

/// The data of the inserted chunk in the injected stream is the message.
#[verifier::rlimit(50)]
proof fn lemma_hidden_payload(f: Seq<u8>, cs: Seq<PngChunk>, msg: Seq<u8>)
    requires
        parse_png(f) == Ok::<Seq<PngChunk>, PngError>(cs),
        msg.len() <= u32::MAX,
        f.len() + 12 + msg.len() <= u64::MAX,
    ensures
        cs.len() >= 1,
        payload(injected_bytes(f, cs, msg), injected_directory(cs, msg)[cs.len() - 1]) == msg,
{
    let o = injected_bytes(f, cs, msg);
    lemma_injected_layout(f, cs, msg);
    lemma_directory_shape(f, 8, cs, msg);
    let cs2 = injected_directory(cs, msg);
    let n = cs.len() as int;
    let q = cs.last().data_ptr - 8;
    let hr = hidden_record(msg) + record_bytes(f, cs.last());
    assert(cs2[n - 1] == hidden_chunk(q, msg));
    assert(payload(o, cs2[n - 1]) =~= msg) by {
        assert forall|i: int| 0 <= i < msg.len() implies #[trigger] payload(o, cs2[n - 1])[i] == msg[i] by {
            assert(o.subrange(q, q + hr.len())[8 + i] == o[q + 8 + i]);
            assert(hr[8 + i] == msg[i]);
        }
    }
}

/// Extracting from a stream into which the text `s` was injected gives `s` back,
/// when the stream held no hidden-message chunk before.
pub proof fn law_extract_finds_injected(f: Seq<u8>, cs: Seq<PngChunk>, s: Seq<char>)
    requires
        parse_png(f) == Ok::<Seq<PngChunk>, PngError>(cs),
        forall|k: int| 0 <= k < cs.len() ==> (#[trigger] cs[k]).data_type != HIDE,
        encode_utf8(s).len() <= u32::MAX,
        f.len() + 12 + encode_utf8(s).len() <= u64::MAX,
    ensures
        parse_png(injected_bytes(f, cs, encode_utf8(s))) is Ok,
        extract_spec(injected_bytes(f, cs, encode_utf8(s)), parse_png(injected_bytes(f, cs, encode_utf8(s)))->Ok_0)
            == Ok::<Seq<char>, PngError>(s),
{
    let msg = encode_utf8(s);
    let o = injected_bytes(f, cs, msg);
    law_inject_directory(f, cs, msg);
    lemma_injected_layout(f, cs, msg);
    lemma_directory_shape(f, 8, cs, msg);
    let cs2 = injected_directory(cs, msg);
    let n = cs.len() as int;
    assert forall|k: int| 0 <= k < n - 1 implies (#[trigger] cs2[k]).data_type != HIDE by {
        assert(cs2[k] == cs[k]);
    }
    lemma_first_found(cs2, HIDE, 0, n - 1);
    lemma_hidden_payload(f, cs, msg);
    encode_utf8_valid_utf8(s);
    encode_utf8_decode_utf8(s);
}

/// Extracting from a stream without a hidden-message chunk fails with `NotFound`.
pub proof fn law_extract_absent(f: Seq<u8>, cs: Seq<PngChunk>)
    requires
        forall|k: int| 0 <= k < cs.len() ==> (#[trigger] cs[k]).data_type != HIDE,
    ensures
        extract_spec(f, cs) == Err::<Seq<char>, PngError>(PngError::NotFound),
{
    lemma_first_absent(cs, HIDE, 0);
}

/// A stream that is shorter than eight bytes, or whose first eight bytes differ from the
/// signature, is rejected with `BadSignature` before any chunk is read.
pub proof fn law_signature_enforced(f: Seq<u8>)
    requires
        f.len() < 8 || f.subrange(0, 8) != png_signature(),
    ensures
        parse_png(f) == Err::<Seq<PngChunk>, PngError>(PngError::BadSignature),
{
}

/// Altering one of the first eight bytes of a well-formed stream, or cutting it short
/// inside them, makes it rejected with `BadSignature`.
pub proof fn law_signature_altered(f: Seq<u8>, i: int, b: u8, len: int)
    requires
        parse_png(f) is Ok,
        0 <= i < 8,
        b != f[i],
        0 <= len < 8,
    ensures
        parse_png(f.update(i, b)) == Err::<Seq<PngChunk>, PngError>(PngError::BadSignature),
        parse_png(f.subrange(0, len)) == Err::<Seq<PngChunk>, PngError>(PngError::BadSignature),
{
    assert(f.update(i, b).subrange(0, 8)[i] != f.subrange(0, 8)[i]);
}

/// A chunk whose type or data was altered so that its CRC no longer matches fails.
#[verifier::rlimit(50)]
proof fn lemma_altered_here(f: Seq<u8>, p: int, j: int, b: u8)
    requires
        0 <= p,
        f.len() <= u64::MAX,
        parse_chunk(f, p) is Ok,
        p + 4 <= j < p + 8 + parse_chunk(f, p)->Ok_0.0.data_len,
        crc32_of(f.update(j, b).subrange(p + 4, p + 8 + parse_chunk(f, p)->Ok_0.0.data_len))
            != parse_chunk(f, p)->Ok_0.0.crc32,
    ensures
        parse_chunk(f.update(j, b), p) == Err::<(PngChunk, int), PngError>(PngError::Checksum),
{
    let g = f.update(j, b);
    let c = parse_chunk(f, p)->Ok_0.0;
    let end = p + 8 + c.data_len;
    assert(g[p] == f[p] && g[p + 1] == f[p + 1] && g[p + 2] == f[p + 2] && g[p + 3] == f[p + 3]);
    assert(g[end] == f[end] && g[end + 1] == f[end + 1] && g[end + 2] == f[end + 2] && g[end + 3] == f[end + 3]);
    assert(be32(g, p) == be32(f, p));
    assert(be32(g, end) == be32(f, end));
}

/// A chunk none of whose bytes was altered reads as before.
#[verifier::rlimit(50)]
proof fn lemma_unaltered_here(f: Seq<u8>, p: int, j: int, b: u8)
    requires
        0 <= p,
        f.len() <= u64::MAX,
        parse_chunk(f, p) is Ok,
        parse_chunk(f, p)->Ok_0.1 <= j < f.len(),
    ensures
        parse_chunk(f.update(j, b), p) == parse_chunk(f, p),
{
    let g = f.update(j, b);
    let (c, next) = parse_chunk(f, p)->Ok_0;
    lemma_chunk_bytes(f, p);
    assert(g.subrange(p, next) =~= f.subrange(p, next));
    lemma_read_record(g, p, c.data_type, payload(f, c));
}

/// Reading from `p` fails with `Checksum` once a byte of the type or data of chunk `k`
/// is altered so that their CRC differs from the stored one.
#[verifier::rlimit(50)]
proof fn lemma_altered_from(f: Seq<u8>, p: int, cs: Seq<PngChunk>, k: int, j: int, b: u8)
    requires
        0 <= p,
        f.len() <= u64::MAX,
        parse_from(f, p) == Ok::<Seq<PngChunk>, PngError>(cs),
        0 <= k < cs.len(),
        cs[k].data_ptr - 4 <= j < cs[k].data_ptr + cs[k].data_len,
        crc32_of(f.update(j, b).subrange(cs[k].data_ptr - 4, cs[k].data_ptr + cs[k].data_len))
            != cs[k].crc32,
    ensures
        parse_from(f.update(j, b), p) == Err::<Seq<PngChunk>, PngError>(PngError::Checksum),
        k == 0 ==> parse_chunk(f.update(j, b), p) == Err::<(PngChunk, int), PngError>(PngError::Checksum),
        k > 0 ==> parse_chunk(f.update(j, b), p) == parse_chunk(f, p),
    decreases f.len() - p,
{
    let (c, next) = parse_chunk(f, p)->Ok_0;
    let g = f.update(j, b);
    assert(cs[0] == c);
    if k == 0 {
        lemma_altered_here(f, p, j, b);
        assert(parse_from(g, p) == Err::<Seq<PngChunk>, PngError>(PngError::Checksum));
    } else {
        let rest = parse_from(f, next)->Ok_0;
        assert(c.data_type != IEND && cs == seq![c] + rest) by {
            lemma_directory_shape(f, p, cs, seq![]);
        }
        assert(next <= j < f.len()) by {
            lemma_directory_shape(f, next, rest, seq![]);
            assert(cs[k] == rest[k - 1]);
        }
        assert(next > p && next <= f.len()) by {
            lemma_chunk_bytes(f, p);
        }
        lemma_unaltered_here(f, p, j, b);
        assert(cs[k] == rest[k - 1]);
        lemma_altered_from(f, next, rest, k - 1, j, b);
        assert(parse_from(g, p) == prepend(seq![c], parse_from(g, next)));
    }
}

/// Altering one byte of the type or data of a chunk of a well-formed stream makes the
/// stream rejected with `Checksum`, whenever the CRC of the altered type and data
/// differs from the stored CRC of that chunk.
#[verifier::rlimit(50)]
pub proof fn law_checksum_enforced(f: Seq<u8>, cs: Seq<PngChunk>, k: int, j: int, b: u8)
    requires
        parse_png(f) == Ok::<Seq<PngChunk>, PngError>(cs),
        f.len() <= u64::MAX,
        0 <= k < cs.len(),
        cs[k].data_ptr - 4 <= j < cs[k].data_ptr + cs[k].data_len,
        crc32_of(f.update(j, b).subrange(cs[k].data_ptr - 4, cs[k].data_ptr + cs[k].data_len))
            != cs[k].crc32,
    ensures
        parse_png(f.update(j, b)) == Err::<Seq<PngChunk>, PngError>(PngError::Checksum),
{
    let g = f.update(j, b);
    assert(12 <= j < f.len()) by {
        lemma_directory_shape(f, 8, cs, seq![]);
    }
    lemma_altered_from(f, 8, cs, k, j, b);
    assert(g.subrange(0, 8) =~= f.subrange(0, 8));
    assert(signature_ok(g));
    if k > 0 {
        assert(parse_chunk(f, 8)->Ok_0.0.data_type == IHDR);
        assert(parse_chunk(g, 8)->Ok_0.0.data_type == IHDR);
    }
}

} // verus!
