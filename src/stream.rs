//! Whole streams: a byte sequence cut into blocks of a fixed size, each
//! compressed on its own, and the decoding of such a stream block by block
//! until no bit is left.
use vstd::prelude::*;
use crate::bits::{bytes_bits, pad_len, zeros};
use crate::codec::{block_bits, compress_block, has_every_byte, CompressError};
use crate::decode::{decode_block, decompress_block, DecodeError};
use crate::input::Reader;
use crate::output::Writer;
use crate::roundtrip::lemma_block_round_trip;

verus! {

/// The first block of `b` for blocks of `size` bytes.
pub open spec fn first_chunk(b: Seq<u8>, size: nat) -> Seq<u8> {
    b.take(if size < b.len() { size as int } else { b.len() as int })
}

/// The bits of a compressed block followed by its padding.
pub open spec fn padded_block_bits(b: Seq<u8>) -> Seq<bool> {
    block_bits(b) + zeros(pad_len(block_bits(b).len()))
}

/// The bits of `b` compressed in blocks of `size` bytes.
pub open spec fn stream_bits(b: Seq<u8>, size: nat) -> Seq<bool>
    decreases b.len(),
{
    if b.len() == 0 || size == 0 {
        Seq::empty()
    } else {
        let c = first_chunk(b, size);
        padded_block_bits(c) + stream_bits(b.skip(c.len() as int), size)
    }
}

/// Whether no block of `b`, for blocks of `size` bytes, holds all 256 byte
/// values.
pub open spec fn chunks_fit(b: Seq<u8>, size: nat) -> bool
    decreases b.len(),
{
    if b.len() == 0 || size == 0 {
        true
    } else {
        let c = first_chunk(b, size);
        !has_every_byte(c) && chunks_fit(b.skip(c.len() as int), size)
    }
}

/// Decoding the blocks of `s` from `pos` on until no bit is left.
pub open spec fn decode_stream(s: Seq<bool>, pos: int) -> Result<Seq<u8>, DecodeError>
    decreases s.len() - pos,
{
    match decode_block(s, pos) {
        Err(e) => Err(e),
        Ok(None) => Ok(Seq::empty()),
        // a decoded block always ends past its start, within the stream
        Ok(Some((o, q))) => if pos < q <= s.len() {
            match decode_stream(s, q) {
                Err(e) => Err(e),
                Ok(r) => Ok(o + r),
            }
        } else {
            Err(DecodeError::InconsistentBody)
        },
    }
}

/// Compresses `data` in blocks of `block_size` bytes (the last may be
/// shorter). Fails, with nothing returned, when a block holds all 256
/// byte values.
pub fn compress(data: &[u8], block_size: usize) -> (r: Result<Vec<u8>, CompressError>)
    requires
        block_size >= 1,
    ensures
        chunks_fit(data@, block_size as nat) ==> r is Ok && bytes_bits(r->Ok_0@) == stream_bits(
            data@,
            block_size as nat,
        ),
        !chunks_fit(data@, block_size as nat) ==> r == Err::<Vec<u8>, CompressError>(
            CompressError::TooManyDistinctBytes,
        ),
{
    let mut writer = Writer::new();
    let mut i: usize = 0;
    let ghost size = block_size as nat;
    proof {
        writer.lemma_layout();
        assert(data@.skip(0) =~= data@);
    }
    while i < data.len()
        invariant
            writer.wf(),
            writer.pending() == 0,
            i <= data@.len(),
            size == block_size,
            size >= 1,
            writer.bits() + stream_bits(data@.skip(i as int), size) == stream_bits(data@, size),
            chunks_fit(data@, size) == chunks_fit(data@.skip(i as int), size),
        decreases data@.len() - i,
    {
        let end = if block_size < data.len() - i {
            i + block_size
        } else {
            data.len()
        };
        let block = vstd::slice::slice_subrange(data, i, end);
        let ghost rest = data@.skip(i as int);
        proof {
            lemma_stream_step(data@, i as int, end as int, size);
            writer.lemma_layout();
        }
        let ghost before = writer.bits();
        match compress_block(block, &mut writer) {
            Ok(()) => {},
            Err(e) => {
                return Err(e);
            },
        }
        proof {
            lemma_append_block(before, block_bits(block@), stream_bits(data@.skip(end as int), size));
        }
        i = end;
    }
    proof {
        assert(data@.skip(i as int) =~= Seq::<u8>::empty());
        assert(writer.bits() =~= stream_bits(data@, size));
        writer.lemma_layout();
    }
    let bytes = writer.take_bytes();
    proof {
        writer.lemma_layout();
        assert(bytes_bits(Seq::<u8>::empty()) =~= Seq::<bool>::empty());
        assert(writer.bits() =~= Seq::<bool>::empty());
        assert(bytes_bits(bytes@) =~= stream_bits(data@, size));
    }
    Ok(bytes)
}

proof fn lemma_stream_step(data: Seq<u8>, i: int, end: int, size: nat)
    requires
        0 <= i < end <= data.len(),
        size >= 1,
        end == if size < data.len() - i { i + size } else { data.len() as int },
    ensures
        data.subrange(i, end) == first_chunk(data.skip(i), size),
        stream_bits(data.skip(i), size) == padded_block_bits(data.subrange(i, end)) + stream_bits(
            data.skip(end),
            size,
        ),
        chunks_fit(data.skip(i), size) == (!has_every_byte(data.subrange(i, end)) && chunks_fit(
            data.skip(end),
            size,
        )),
{
    let rest = data.skip(i);
    assert(data.subrange(i, end) =~= first_chunk(rest, size));
    assert(rest.skip(end - i) =~= data.skip(end));
}

/// Appending a block and its padding at a byte boundary.
proof fn lemma_append_block(before: Seq<bool>, blk: Seq<bool>, tail: Seq<bool>)
    requires
        before.len() % 8 == 0,
    ensures
        (before + blk + zeros(pad_len(before.len() + blk.len()))) + tail == before + ((blk + zeros(
            pad_len(blk.len()),
        )) + tail),
{
    assert(pad_len(before.len() + blk.len()) == pad_len(blk.len()));
    assert((before + blk + zeros(pad_len(before.len() + blk.len()))) + tail =~= before + ((blk + zeros(
        pad_len(blk.len()),
    )) + tail));
}

/// Decompresses a stream of blocks until no bit is left.
pub fn decompress(data: Vec<u8>) -> (r: Result<Vec<u8>, DecodeError>)
    ensures
        match decode_stream(bytes_bits(data@), 0) {
            Ok(b) => r is Ok && r->Ok_0@ == b,
            Err(e) => r == Err::<Vec<u8>, DecodeError>(e),
        },
{
    let ghost d = data@;
    let mut reader = Reader::new(data);
    let ghost s = reader.stream();
    let mut out: Vec<u8> = Vec::new();
    proof {
        reader.lemma_layout();
    }
    loop
        invariant
            reader.wf(),
            reader.stream() == s,
            s == bytes_bits(d),
            d == data@,
            reader.pos() <= s.len(),
            match decode_stream(s, 0) {
                Ok(b) => match decode_stream(s, reader.pos() as int) {
                    Ok(c) => b == out@ + c,
                    Err(_) => false,
                },
                Err(e) => decode_stream(s, reader.pos() as int) == Err::<Seq<u8>, DecodeError>(e),
            },
        decreases s.len() - reader.pos(),
    {
        let ghost pos = reader.pos() as int;
        let ghost before = out@;
        match decompress_block(&mut reader, &mut out) {
            Ok(None) => {
                assert(decode_stream(s, pos) == Ok::<Seq<u8>, DecodeError>(Seq::empty()));
                assert(out@ =~= out@ + Seq::<u8>::empty());
                return Ok(out);
            },
            Ok(Some(_)) => {
                proof {
                    reader.lemma_layout();
                    lemma_decode_block_advances(s, pos);
                    let (o, q) = decode_block(s, pos)->Ok_0->Some_0;
                    match decode_stream(s, q) {
                        Ok(c) => {
                            assert(before + (o + c) =~= out@ + c);
                        },
                        Err(_) => {},
                    }
                }
            },
            Err(e) => {
                assert(decode_stream(s, pos) == Err::<Seq<u8>, DecodeError>(e));
                return Err(e);
            },
        }
    }
}

proof fn lemma_round_trip_from(prefix: Seq<bool>, b: Seq<u8>, size: nat)
    requires
        size >= 1,
        prefix.len() % 8 == 0,
        chunks_fit(b, size),
        b.len() <= u64::MAX,
    ensures
        decode_stream(prefix + stream_bits(b, size), prefix.len() as int) == Ok::<Seq<u8>, DecodeError>(b),
    decreases b.len(),
{
    let s = prefix + stream_bits(b, size);
    let pos = prefix.len() as int;
    if b.len() == 0 {
        assert(s =~= prefix);
        assert(b =~= Seq::<u8>::empty());
    } else {
        let c = first_chunk(b, size);
        let rest = b.skip(c.len() as int);
        let blk = block_bits(c);
        let pb = padded_block_bits(c);
        assert(!has_every_byte(c) && chunks_fit(rest, size));
        assert(s =~= (prefix + pb) + stream_bits(rest, size));
        assert(s.subrange(pos, pos + blk.len()) =~= blk);
        lemma_block_round_trip(s, pos, c);
        lemma_round_trip_from(prefix + pb, rest, size);
        assert(c + rest =~= b);
    }
}

/// Round trip of a stream: for every byte sequence and every block size of
/// at least one byte, decoding the stream that compressing in blocks of
/// that size gives yields the sequence back. It holds for every sequence
/// whose blocks each have at most 255 distinct byte values; a block with
/// all 256 is refused by the compressor.
pub proof fn lemma_round_trip(b: Seq<u8>, size: nat)
    requires
        size >= 1,
        chunks_fit(b, size),
        b.len() <= u64::MAX,
    ensures
        decode_stream(stream_bits(b, size), 0) == Ok::<Seq<u8>, DecodeError>(b),
{
    lemma_round_trip_from(Seq::empty(), b, size);
    assert(Seq::<bool>::empty() + stream_bits(b, size) =~= stream_bits(b, size));
}

/// A decoded block ends after the position where it started.
pub proof fn lemma_decode_block_advances(s: Seq<bool>, pos: int)
    requires
        decode_block(s, pos) matches Ok(Some(_)),
    ensures
        pos < decode_block(s, pos)->Ok_0->Some_0.1,
{
    lemma_parse_entries_advances(s, pos + 8, crate::decode::byte_at(s, pos) as nat);
    let p = crate::decode::parse_entries(s, pos + 8, crate::decode::byte_at(s, pos) as nat)->Some_0.1;
    let n = crate::decode::count_at(s, p) as nat;
    lemma_decode_body_advances(s, p + 64, decode_block_table(s, pos), n);
}

spec fn decode_block_table(s: Seq<bool>, pos: int) -> Seq<(u8, Seq<bool>)> {
    crate::decode::parse_entries(s, pos + 8, crate::decode::byte_at(s, pos) as nat)->Some_0.0
}

proof fn lemma_parse_entries_advances(s: Seq<bool>, pos: int, k: nat)
    requires
        crate::decode::parse_entries(s, pos, k) is Some,
    ensures
        pos <= crate::decode::parse_entries(s, pos, k)->Some_0.1,
    decreases k,
{
    if k > 0 {
        lemma_parse_entries_advances(s, pos, (k - 1) as nat);
    }
}

proof fn lemma_decode_body_advances(s: Seq<bool>, pos: int, t: Seq<(u8, Seq<bool>)>, n: nat)
    requires
        crate::decode::decode_body(s, pos, t, n) is Some,
    ensures
        pos <= crate::decode::decode_body(s, pos, t, n)->Some_0.1,
    decreases n,
{
    if n > 0 {
        lemma_decode_body_advances(s, pos, t, (n - 1) as nat);
        let p = crate::decode::decode_body(s, pos, t, (n - 1) as nat)->Some_0.1;
        lemma_decode_symbol_advances(s, p, t, 1);
    }
}

proof fn lemma_decode_symbol_advances(s: Seq<bool>, pos: int, t: Seq<(u8, Seq<bool>)>, k: nat)
    requires
        k >= 1,
        crate::decode::decode_symbol_from(s, pos, t, k) is Some,
    ensures
        pos < crate::decode::decode_symbol_from(s, pos, t, k)->Some_0.1,
    decreases 256 - k,
{
    if k <= 255 && pos + k <= s.len() {
        if crate::decode::match_code(t, s.subrange(pos, pos + k)) is None {
            lemma_decode_symbol_advances(s, pos, t, k + 1);
        }
    }
}

} // verus!
