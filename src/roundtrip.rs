//! Decoding undoes encoding: the bits that `compress_block` writes for a
//! block decode, through `decode_block`, to that block.
use vstd::prelude::*;
use crate::bits::{
    byte_bits, bytes_bits, pad_len, zeros, lemma_byte_from_bits, lemma_bytes_bits_index, lemma_bytes_bits_len,
};
use crate::codec::{
    block_bits, body_bits, count, counts, entries_bits, entry_bits, header_bits, le_bytes, lookup,
    has_every_byte, lemma_lookup, lemma_table_full,
};
use crate::decode::{
    byte_at, count_at, decode_block, decode_body, decode_symbol_from, match_code, parse_entries,
    u64_from_le, DecodeError,
};
use crate::huffman::{
    code_table, codes_bounded, is_prefix, lemma_code_table, prefix_free, sorted_by_byte,
};

verus! {

spec fn has_entry(t: Seq<(u8, Seq<bool>)>, x: u8) -> bool {
    exists|i: int| 0 <= i < t.len() && #[trigger] t[i].0 == x
}

/// A window of a window is a window.
proof fn lemma_window(s: Seq<bool>, pos: int, x: Seq<bool>, a: int, b: int)
    requires
        0 <= pos,
        pos + x.len() <= s.len(),
        s.subrange(pos, pos + x.len()) == x,
        0 <= a <= b <= x.len(),
    ensures
        s.subrange(pos + a, pos + b) == x.subrange(a, b),
{
    assert forall|k: int| 0 <= k < b - a implies s.subrange(pos + a, pos + b)[k] == x.subrange(a, b)[k] by {
        assert(s.subrange(pos, pos + x.len())[a + k] == x[a + k]);
    }
    assert(s.subrange(pos + a, pos + b) =~= x.subrange(a, b));
}

proof fn lemma_byte_at(s: Seq<bool>, pos: int, b: u8)
    requires
        0 <= pos,
        pos + 8 <= s.len(),
        s.subrange(pos, pos + 8) == byte_bits(b),
    ensures
        byte_at(s, pos) == b,
{
    lemma_byte_from_bits(b);
}

proof fn lemma_entries(s: Seq<bool>, pos: int, t: Seq<(u8, Seq<bool>)>)
    requires
        0 <= pos,
        pos + entries_bits(t).len() <= s.len(),
        s.subrange(pos, pos + entries_bits(t).len()) == entries_bits(t),
        codes_bounded(t),
    ensures
        parse_entries(s, pos, t.len()) == Some((t, pos + entries_bits(t).len())),
    decreases t.len(),
{
    if t.len() == 0 {
        assert(t =~= Seq::<(u8, Seq<bool>)>::empty());
    } else {
        let r = t.drop_last();
        let e = t.last();
        let x = entries_bits(t);
        let rx = entries_bits(r);
        let ex = entry_bits(e);
        let rl = rx.len() as int;
        assert(x == rx + ex);
        lemma_window(s, pos, x, 0, rx.len() as int);
        assert(x.subrange(0, rx.len() as int) =~= rx);
        assert(codes_bounded(r));
        lemma_entries(s, pos, r);
        let p = pos + rx.len();
        let l = e.1.len() as int;
        assert(1 <= l <= 255);
        lemma_window(s, pos, x, rx.len() as int, rl + 8);
        assert(x.subrange(rx.len() as int, rl + 8) =~= byte_bits(e.0));
        lemma_byte_at(s, p, e.0);
        lemma_window(s, pos, x, rl + 8, rl + 16);
        assert(x.subrange(rl + 8, rl + 16) =~= byte_bits(l as u8));
        lemma_byte_at(s, p + 8, l as u8);
        lemma_window(s, pos, x, rl + 16, rl + 16 + l);
        assert(x.subrange(rl + 16, rl + 16 + l) =~= e.1);
        assert(r.push(e) =~= t);
    }
}

proof fn lemma_count(s: Seq<bool>, pos: int, n: u64)
    requires
        0 <= pos,
        pos + 64 <= s.len(),
        s.subrange(pos, pos + 64) == bytes_bits(le_bytes(n)),
    ensures
        count_at(s, pos) == n,
{
    let x = bytes_bits(le_bytes(n));
    lemma_bytes_bits_len(le_bytes(n));
    assert forall|i: int| 0 <= i < 8 implies #[trigger] byte_at(s, pos + 8 * i) == le_bytes(n)[i] by {
        lemma_window(s, pos, x, 8 * i, 8 * i + 8);
        assert forall|j: int| 0 <= j < 8 implies x.subrange(8 * i, 8 * i + 8)[j] == byte_bits(le_bytes(n)[i])[j] by {
            lemma_bytes_bits_index(le_bytes(n), i, j);
        }
        assert(x.subrange(8 * i, 8 * i + 8) =~= byte_bits(le_bytes(n)[i]));
        lemma_byte_at(s, pos + 8 * i, le_bytes(n)[i]);
    }
    assert(byte_at(s, pos + 8 * 0) == le_bytes(n)[0]);
    assert(pos + 8 * 0 == pos);
    assert(byte_at(s, pos) == le_bytes(n)[0]);
    assert(byte_at(s, pos + 8) == le_bytes(n)[1]);
    assert(byte_at(s, pos + 16) == le_bytes(n)[2]);
    assert(byte_at(s, pos + 24) == le_bytes(n)[3]);
    assert(byte_at(s, pos + 32) == le_bytes(n)[4]);
    assert(byte_at(s, pos + 40) == le_bytes(n)[5]);
    assert(byte_at(s, pos + 48) == le_bytes(n)[6]);
    assert(byte_at(s, pos + 56) == le_bytes(n)[7]);
    assert(u64_from_le(
        (n >> 0u64) as u8,
        (n >> 8u64) as u8,
        (n >> 16u64) as u8,
        (n >> 24u64) as u8,
        (n >> 32u64) as u8,
        (n >> 40u64) as u8,
        (n >> 48u64) as u8,
        (n >> 56u64) as u8,
    ) == n) by (bit_vector);
}

/// With no entry for `c`, nothing matches; with exactly one, its byte does.
proof fn lemma_match_code(t: Seq<(u8, Seq<bool>)>, c: Seq<bool>)
    ensures
        (forall|j: int| 0 <= j < t.len() ==> #[trigger] t[j].1 != c) ==> match_code(t, c) is None,
        forall|i: int|
            0 <= i < t.len() && t[i].1 == c && (forall|j: int| 0 <= j < t.len() && j != i ==> #[trigger] t[j].1 != c)
                ==> match_code(t, c) == Some(#[trigger] t[i].0),
    decreases t.len(),
{
    if t.len() > 0 {
        let r = t.drop_first();
        lemma_match_code(r, c);
        assert forall|j: int| 0 <= j < r.len() implies #[trigger] r[j] == t[j + 1] by {}
        assert forall|i: int|
            0 <= i < t.len() && t[i].1 == c && (forall|j: int| 0 <= j < t.len() && j != i ==> #[trigger] t[j].1 != c)
                implies match_code(t, c) == Some(#[trigger] t[i].0) by {
            if i > 0 {
                assert(r[i - 1] == t[i]);
                assert forall|j: int| 0 <= j < r.len() && j != i - 1 implies #[trigger] r[j].1 != c by {
                    assert(r[j] == t[j + 1]);
                }
            }
        }
        if forall|j: int| 0 <= j < t.len() ==> #[trigger] t[j].1 != c {
            assert forall|j: int| 0 <= j < r.len() implies #[trigger] r[j].1 != c by {
                assert(r[j] == t[j + 1]);
            }
        }
    }
}

/// The bits of an entry's code, read from a prefix-free table, decode to
/// that entry's byte and nothing shorter matches.
proof fn lemma_decode_symbol(s: Seq<bool>, q: int, t: Seq<(u8, Seq<bool>)>, i: int, k: nat)
    requires
        prefix_free(t),
        codes_bounded(t),
        0 <= i < t.len(),
        0 <= q,
        q + t[i].1.len() <= s.len(),
        s.subrange(q, q + t[i].1.len()) == t[i].1,
        1 <= k <= t[i].1.len(),
    ensures
        decode_symbol_from(s, q, t, k) == Some((t[i].0, q + t[i].1.len())),
    decreases t[i].1.len() - k,
{
    let c = t[i].1;
    let cand = s.subrange(q, q + k);
    lemma_window(s, q, c, 0, k as int);
    lemma_match_code(t, cand);
    if k < c.len() {
        assert forall|j: int| 0 <= j < t.len() implies #[trigger] t[j].1 != cand by {
            if t[j].1 == cand {
                assert(is_prefix(t[j].1, t[i].1));
                assert(j != i);
            }
        }
        lemma_decode_symbol(s, q, t, i, k + 1);
    } else {
        assert(cand =~= c);
        assert forall|j: int| 0 <= j < t.len() && j != i implies #[trigger] t[j].1 != cand by {
            if t[j].1 == cand {
                assert(is_prefix(t[j].1, t[i].1));
            }
        }
    }
}

proof fn lemma_body(s: Seq<bool>, pos: int, t: Seq<(u8, Seq<bool>)>, b: Seq<u8>)
    requires
        prefix_free(t),
        codes_bounded(t),
        sorted_by_byte(t),
        forall|k: int| 0 <= k < b.len() ==> #[trigger] has_entry(t, b[k]),
        0 <= pos,
        pos + body_bits(t, b).len() <= s.len(),
        s.subrange(pos, pos + body_bits(t, b).len()) == body_bits(t, b),
    ensures
        decode_body(s, pos, t, b.len()) == Some((b, pos + body_bits(t, b).len())),
    decreases b.len(),
{
    if b.len() == 0 {
        assert(b =~= Seq::<u8>::empty());
    } else {
        let r = b.drop_last();
        let x = body_bits(t, b);
        let rx = body_bits(t, r);
        let c = lookup(t, b.last());
        assert(x == rx + c);
        lemma_window(s, pos, x, 0, rx.len() as int);
        assert(x.subrange(0, rx.len() as int) =~= rx);
        assert forall|k: int| 0 <= k < r.len() implies #[trigger] has_entry(t, r[k]) by {
            assert(r[k] == b[k]);
        }
        assert(has_entry(t, b[b.len() - 1]));
        lemma_body(s, pos, t, r);
        let i = choose|i: int| 0 <= i < t.len() && #[trigger] t[i].0 == b[b.len() - 1];
        lemma_lookup(t, i);
        lemma_window(s, pos, x, rx.len() as int, x.len() as int);
        assert(x.subrange(rx.len() as int, x.len() as int) =~= c);
        lemma_decode_symbol(s, pos + rx.len(), t, i, 1);
        assert(r.push(b.last()) =~= b);
    }
}

/// Every byte of a block has an entry in the block's code table.
proof fn lemma_block_entries(b: Seq<u8>)
    requires
        b.len() <= u64::MAX,
    ensures
        forall|k: int| 0 <= k < b.len() ==> #[trigger] has_entry(code_table(counts(b)), b[k]),
{
    let f = counts(b);
    lemma_code_table(f);
    assert forall|k: int| 0 <= k < b.len() implies #[trigger] has_entry(code_table(f), b[k]) by {
        crate::codec::lemma_count_pos(b, k);
        crate::codec::lemma_count_le(b, b[k]);
        assert(f[b[k] as int] > 0);
    }
}

/// A block's header reads back as its code table.
proof fn lemma_header(s: Seq<bool>, pos: int, b: Seq<u8>)
    requires
        !has_every_byte(b),
        b.len() <= u64::MAX,
        0 <= pos,
        pos + header_bits(code_table(counts(b))).len() <= s.len(),
        s.subrange(pos, pos + header_bits(code_table(counts(b))).len()) == header_bits(code_table(counts(b))),
    ensures
        pos + 8 <= s.len(),
        byte_at(s, pos) == code_table(counts(b)).len(),
        parse_entries(s, pos + 8, code_table(counts(b)).len()) == Some(
            (code_table(counts(b)), pos + header_bits(code_table(counts(b))).len()),
        ),
{
    let t = code_table(counts(b));
    lemma_table_full(b);
    lemma_code_table(counts(b));
    let hx = header_bits(t);
    let ex = entries_bits(t);
    let el = ex.len() as int;
    lemma_window(s, pos, hx, 0, 8);
    assert(hx.subrange(0, 8) =~= byte_bits(t.len() as u8));
    lemma_byte_at(s, pos, t.len() as u8);
    lemma_window(s, pos, hx, 8, 8 + el);
    assert(hx.subrange(8, 8 + el) =~= ex);
    lemma_entries(s, pos + 8, t);
}

/// A block's codes decode to the block.
proof fn lemma_block_body(s: Seq<bool>, pos: int, b: Seq<u8>)
    requires
        b.len() <= u64::MAX,
        0 <= pos,
        pos + body_bits(code_table(counts(b)), b).len() <= s.len(),
        s.subrange(pos, pos + body_bits(code_table(counts(b)), b).len()) == body_bits(code_table(counts(b)), b),
    ensures
        decode_body(s, pos, code_table(counts(b)), b.len()) == Some(
            (b, pos + body_bits(code_table(counts(b)), b).len()),
        ),
{
    lemma_code_table(counts(b));
    lemma_block_entries(b);
    lemma_body(s, pos, code_table(counts(b)), b);
}

/// Padding depends only on the position within a byte.
proof fn lemma_pad_shift(pos: nat, n: nat)
    requires
        pos % 8 == 0,
    ensures
        pad_len(pos + n) == pad_len(n),
{
    assert((pos + n) % 8 == n % 8);
}

/// How `decode_block` succeeds, assembled from its steps.
proof fn lemma_decode_block_steps(
    s: Seq<bool>,
    pos: int,
    t: Seq<(u8, Seq<bool>)>,
    p: int,
    o: Seq<u8>,
    q: int,
)
    requires
        0 <= pos < s.len(),
        pos + 8 <= s.len(),
        byte_at(s, pos) == t.len(),
        parse_entries(s, pos + 8, t.len()) == Some((t, p)),
        p + 64 <= s.len(),
        count_at(s, p) == o.len(),
        decode_body(s, p + 64, t, o.len()) == Some((o, q)),
    ensures
        decode_block(s, pos) == Ok::<Option<(Seq<u8>, int)>, DecodeError>(
            Some((o, q + pad_len(q as nat))),
        ),
{
}

/// Round trip of one block. Where the bits of a compressed block (header,
/// count, codes) stand at a byte boundary of a stream, followed by its
/// padding, decoding there gives back the block and moves past the padding.
/// A block qualifies when some byte value is missing from it and its
/// length fits the 64-bit count.
pub proof fn lemma_block_round_trip(s: Seq<bool>, pos: int, b: Seq<u8>)
    requires
        !has_every_byte(b),
        b.len() <= u64::MAX,
        0 <= pos,
        pos % 8 == 0,
        pos + block_bits(b).len() + pad_len(block_bits(b).len()) <= s.len(),
        s.subrange(pos, pos + block_bits(b).len()) == block_bits(b),
    ensures
        decode_block(s, pos) == Ok::<Option<(Seq<u8>, int)>, DecodeError>(
            Some((b, pos + block_bits(b).len() + pad_len(block_bits(b).len()))),
        ),
{
    let t = code_table(counts(b));
    let hx = header_bits(t);
    let cx = bytes_bits(le_bytes(b.len() as u64));
    let bx = body_bits(t, b);
    let x = block_bits(b);
    let hl = hx.len() as int;
    lemma_bytes_bits_len(le_bytes(b.len() as u64));
    assert(x == hx + cx + bx);
    lemma_window(s, pos, x, 0, hl);
    assert(x.subrange(0, hl) =~= hx);
    lemma_header(s, pos, b);
    let p = pos + hl;
    lemma_window(s, pos, x, hl, hl + 64);
    assert(x.subrange(hl, hl + 64) =~= cx);
    lemma_count(s, p, b.len() as u64);
    lemma_window(s, pos, x, hl + 64, x.len() as int);
    assert(x.subrange(hl + 64, x.len() as int) =~= bx);
    lemma_block_body(s, p + 64, b);
    let q = pos + x.len();
    lemma_decode_block_steps(s, pos, t, p, b, q);
    lemma_pad_shift(pos as nat, x.len());
}

proof fn lemma_count_repeat(x: u8, n: nat, y: u8)
    ensures
        count(Seq::new(n, |i: int| x), y) == if y == x {
            n
        } else {
            0
        },
    decreases n,
{
    if n > 0 {
        assert(Seq::new(n, |i: int| x).drop_last() =~= Seq::new((n - 1) as nat, |i: int| x));
        lemma_count_repeat(x, (n - 1) as nat, y);
    }
}

/// A block of one byte value repeated `n >= 1` times has a one-entry code
/// table whose code is not empty, and decodes back to the `n` copies.
pub proof fn lemma_single_symbol(x: u8, n: nat)
    requires
        1 <= n <= u64::MAX,
    ensures
        code_table(counts(Seq::new(n, |i: int| x))).len() == 1,
        code_table(counts(Seq::new(n, |i: int| x)))[0].0 == x,
        code_table(counts(Seq::new(n, |i: int| x)))[0].1.len() >= 1,
        decode_block(
            block_bits(Seq::new(n, |i: int| x)) + zeros(pad_len(block_bits(Seq::new(n, |i: int| x)).len())),
            0,
        ) == Ok::<Option<(Seq<u8>, int)>, DecodeError>(
            Some(
                (
                    Seq::new(n, |i: int| x),
                    (block_bits(Seq::new(n, |i: int| x)).len() + pad_len(
                        block_bits(Seq::new(n, |i: int| x)).len(),
                    )) as int,
                ),
            ),
        ),
{
    let b = Seq::new(n, |i: int| x);
    let f = counts(b);
    let t = code_table(f);
    lemma_code_table(f);
    assert forall|y: u8| f[y as int] > 0 <==> y == x by {
        lemma_count_repeat(x, n, y);
    }
    assert forall|i: int| 0 <= i < t.len() implies #[trigger] t[i].0 == x by {
        assert(exists|j: int| 0 <= j < t.len() && #[trigger] t[j].0 == t[i].0);
        assert(f[t[i].0 as int] > 0);
    }
    if t.len() >= 2 {
        assert(t[0].0 < t[1].0);
    }
    assert(f[x as int] > 0);
    assert(exists|j: int| 0 <= j < t.len() && #[trigger] t[j].0 == x);
    let other: u8 = if x == 0 {
        1
    } else {
        0
    };
    lemma_count_repeat(x, n, other);
    assert(count(b, other) == 0);
    let s = block_bits(b) + zeros(pad_len(block_bits(b).len()));
    assert(s.subrange(0, block_bits(b).len() as int) =~= block_bits(b));
    lemma_block_round_trip(s, 0, b);
}

/// An empty block is a header with no entries and a count of zero, and it
/// decodes to no bytes.
pub proof fn lemma_empty_block()
    ensures
        code_table(counts(Seq::<u8>::empty())).len() == 0,
        block_bits(Seq::<u8>::empty()) == byte_bits(0) + bytes_bits(le_bytes(0)),
        decode_block(block_bits(Seq::<u8>::empty()), 0) == Ok::<Option<(Seq<u8>, int)>, DecodeError>(
            Some((Seq::<u8>::empty(), 72)),
        ),
{
    let b = Seq::<u8>::empty();
    let f = counts(b);
    let t = code_table(f);
    lemma_code_table(f);
    assert(count(b, 0) == 0);
    if t.len() > 0 {
        assert(exists|j: int| 0 <= j < t.len() && #[trigger] t[j].0 == t[0].0);
        assert(f[t[0].0 as int] == 0);
    }
    assert(entries_bits(t) =~= Seq::<bool>::empty());
    assert(body_bits(t, b) =~= Seq::<bool>::empty());
    assert(block_bits(b) =~= byte_bits(0) + bytes_bits(le_bytes(0)));
    lemma_bytes_bits_len(le_bytes(0));
    let s = block_bits(b);
    assert(s.subrange(0, s.len() as int) =~= s);
    assert(pad_len(72) == 0);
    lemma_block_round_trip(s, 0, b);
}

} // verus!
