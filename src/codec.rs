//! The block format and its encoder. A block is its code table (a one-byte entry count,
//! then for each entry the byte value, the code length and the code padded
//! to whole bytes), its symbol count as eight little-endian bytes, and the
//! codes of its bytes in order. Each block ends on a byte boundary.
use vstd::prelude::*;
use crate::bits::{byte_bits, bytes_bits, pad_len, zeros, bit_at, lemma_bytes_bits_push};
use crate::huffman::{
    code_table, codes_bounded, covers, encode, prefix_free, sorted_by_byte, table_view, total,
    total_upto, Symbol,
};
use crate::output::Writer;

verus! {

/// How many times `b` occurs in `s`.
pub open spec fn count(s: Seq<u8>, b: u8) -> nat
    decreases s.len(),
{
    if s.len() == 0 {
        0
    } else {
        count(s.drop_last(), b) + if s.last() == b {
            1nat
        } else {
            0nat
        }
    }
}

/// The frequency table of `s`, indexed by byte value.
pub open spec fn counts(s: Seq<u8>) -> Seq<u64> {
    Seq::new(256, |b: int| count(s, b as u8) as u64)
}

/// The code of `b` in a table: that of its last entry for `b`.
pub open spec fn lookup(t: Seq<(u8, Seq<bool>)>, b: u8) -> Seq<bool>
    decreases t.len(),
{
    if t.len() == 0 {
        Seq::empty()
    } else if t.last().0 == b {
        t.last().1
    } else {
        lookup(t.drop_last(), b)
    }
}

/// One header entry: byte value, code length, code padded to whole bytes.
pub open spec fn entry_bits(e: (u8, Seq<bool>)) -> Seq<bool> {
    byte_bits(e.0) + byte_bits(e.1.len() as u8) + e.1 + zeros(pad_len(e.1.len()))
}

pub open spec fn entries_bits(t: Seq<(u8, Seq<bool>)>) -> Seq<bool>
    decreases t.len(),
{
    if t.len() == 0 {
        Seq::empty()
    } else {
        entries_bits(t.drop_last()) + entry_bits(t.last())
    }
}

/// The header of a block with code table `t`.
pub open spec fn header_bits(t: Seq<(u8, Seq<bool>)>) -> Seq<bool> {
    byte_bits(t.len() as u8) + entries_bits(t)
}

/// The eight bytes of `n`, least significant first.
pub open spec fn le_bytes(n: u64) -> Seq<u8> {
    Seq::new(8, |i: int| (n >> ((8 * i) as u64)) as u8)
}

/// The codes of the bytes of `s`, in order.
pub open spec fn body_bits(t: Seq<(u8, Seq<bool>)>, s: Seq<u8>) -> Seq<bool>
    decreases s.len(),
{
    if s.len() == 0 {
        Seq::empty()
    } else {
        body_bits(t, s.drop_last()) + lookup(t, s.last())
    }
}

/// The bits of a compressed block, before the padding that ends it on a
/// byte boundary.
pub open spec fn block_bits(s: Seq<u8>) -> Seq<bool> {
    let t = code_table(counts(s));
    header_bits(t) + bytes_bits(le_bytes(s.len() as u64)) + body_bits(t, s)
}

/// Whether every one of the 256 byte values occurs in `s`.
pub open spec fn has_every_byte(s: Seq<u8>) -> bool {
    forall|b: u8| #[trigger] count(s, b) > 0
}

spec fn table_has(t: Seq<(u8, Seq<bool>)>, b: u8) -> bool {
    exists|j: int| 0 <= j < t.len() && #[trigger] t[j].0 == b
}

proof fn lemma_sorted_lower(t: Seq<(u8, Seq<bool>)>, i: int)
    requires
        sorted_by_byte(t),
        0 <= i < t.len(),
    ensures
        t[i].0 >= i,
    decreases i,
{
    if i > 0 {
        lemma_sorted_lower(t, i - 1);
        assert(t[i - 1].0 < t[i].0);
    }
}

proof fn lemma_sorted_upper(t: Seq<(u8, Seq<bool>)>, i: int)
    requires
        sorted_by_byte(t),
        0 <= i < t.len(),
    ensures
        t[i].0 + (t.len() - 1 - i) <= 255,
    decreases t.len() - i,
{
    if i < t.len() - 1 {
        lemma_sorted_upper(t, i + 1);
        assert(t[i].0 < t[i + 1].0);
    }
}

proof fn lemma_sorted_all(t: Seq<(u8, Seq<bool>)>, i: int)
    requires
        sorted_by_byte(t),
        forall|b: u8| #[trigger] table_has(t, b),
        0 <= i <= 255,
    ensures
        i < t.len(),
        t[i].0 == i,
    decreases i,
{
    assert(table_has(t, i as u8));
    let j = choose|j: int| 0 <= j < t.len() && #[trigger] t[j].0 == i as u8;
    if i == 0 {
        if j > 0 {
            assert(t[0].0 < t[j].0);
        }
    } else {
        lemma_sorted_all(t, i - 1);
        if j <= i - 1 {
            if j < i - 1 {
                assert(t[j].0 < t[i - 1].0);
            }
        }
        assert(t[i].0 > t[i - 1].0);
        if j > i {
            assert(t[i].0 < t[j].0);
        }
    }
}

/// A block's code table has more than 255 entries exactly when every byte
/// value occurs in it.
pub proof fn lemma_table_full(s: Seq<u8>)
    requires
        s.len() <= u64::MAX,
    ensures
        code_table(counts(s)).len() > 255 <==> has_every_byte(s),
{
    let f = counts(s);
    let t = code_table(f);
    crate::huffman::lemma_code_table(f);
    assert forall|b: u8| count(s, b) <= s.len() by {
        lemma_count_le(s, b);
    }
    if has_every_byte(s) {
        assert forall|b: u8| #[trigger] table_has(t, b) by {
            assert(f[b as int] > 0);
        }
        lemma_sorted_all(t, 255);
    }
    if t.len() > 255 {
        assert forall|b: u8| #[trigger] count(s, b) > 0 by {
            lemma_sorted_lower(t, b as int);
            lemma_sorted_upper(t, b as int);
            assert(exists|j: int| 0 <= j < t.len() && #[trigger] t[j].0 == b);
            assert(f[b as int] > 0);
        }
    }
}

/// Why a block cannot be compressed.
#[derive(Clone, Copy, Debug, PartialEq, Eq)]
pub enum CompressError {
    /// All 256 byte values occur, one more than the header's entry count holds.
    TooManyDistinctBytes,
}

proof fn lemma_total_update(f: Seq<u64>, x: int, k: nat)
    requires
        k <= f.len(),
        0 <= x < f.len(),
        f[x] < u64::MAX,
    ensures
        total_upto(f.update(x, (f[x] + 1) as u64), k) == total_upto(f, k) + if x < k {
            1int
        } else {
            0int
        },
    decreases k,
{
    if k > 0 {
        lemma_total_update(f, x, (k - 1) as nat);
    }
}

/// The frequency table of a block: entry `b` counts the bytes equal to `b`.
pub fn frequencies(block: &[u8]) -> (r: Vec<u64>)
    ensures
        r@ == counts(block@),
        total(r@) == block@.len(),
{
    let mut r: Vec<u64> = vec![0u64; 256];
    let mut i: usize = 0;
    proof {
        assert(total_upto(r@, 256) == 0) by {
            assert forall|k: nat| k <= 256 implies total_upto(r@, k) == 0 by {
                lemma_total_zero(r@, k);
            }
        }
        assert(r@ =~= counts(block@.subrange(0, 0)));
    }
    while i < block.len()
        invariant
            i <= block@.len(),
            r@ == counts(block@.subrange(0, i as int)),
            total(r@) == i,
        decreases block@.len() - i,
    {
        let b = block[i];
        let ghost prev = r@;
        proof {
            lemma_count_le(block@.subrange(0, i as int), b);
            assert(prev[b as int] <= i);
            assert(i < u64::MAX);
            lemma_total_update(prev, b as int, 256);
        }
        r.set(b as usize, r[b as usize] + 1);
        proof {
            let s = block@.subrange(0, i + 1);
            assert(s.drop_last() =~= block@.subrange(0, i as int));
            assert(r@ =~= counts(s));
        }
        i = i + 1;
    }
    assert(block@.subrange(0, block@.len() as int) =~= block@);
    r
}

proof fn lemma_total_zero(f: Seq<u64>, k: nat)
    requires
        k <= f.len(),
        forall|i: int| 0 <= i < f.len() ==> f[i] == 0,
    ensures
        total_upto(f, k) == 0,
    decreases k,
{
    if k > 0 {
        lemma_total_zero(f, (k - 1) as nat);
    }
}

pub proof fn lemma_count_le(s: Seq<u8>, b: u8)
    ensures
        count(s, b) <= s.len(),
    decreases s.len(),
{
    if s.len() > 0 {
        lemma_count_le(s.drop_last(), b);
    }
}

/// The bits of `byte`, most significant first.
fn byte_to_bits(byte: u8) -> (r: Vec<bool>)
    ensures
        r@ == byte_bits(byte),
{
    let mut bits: Vec<bool> = Vec::new();
    let mut i: u8 = 0;
    while i < 8
        invariant
            i <= 8,
            bits@.len() == i,
            forall|j: int| 0 <= j < i ==> bits@[j] == byte_bits(byte)[j],
        decreases 8 - i,
    {
        let bit = (byte << i) & 128u8 != 0;
        assert(bit == bit_at(byte, (7 - i) as u8)) by (bit_vector)
            requires
                i < 8,
                bit == ((byte << i) & 128u8 != 0),
        ;
        bits.push(bit);
        i = i + 1;
    }
    assert(bits@ =~= byte_bits(byte));
    bits
}

/// Writes the eight bits of `byte`, most significant first.
fn write_byte(writer: &mut Writer, byte: u8)
    requires
        old(writer).wf(),
    ensures
        final(writer).wf(),
        final(writer).bits() == old(writer).bits() + byte_bits(byte),
{
    let bits = byte_to_bits(byte);
    writer.write_bits(bits.as_slice());
}

/// Writes the bits of a code.
fn write_symbol(writer: &mut Writer, sym: &Symbol)
    requires
        old(writer).wf(),
    ensures
        final(writer).wf(),
        final(writer).bits() == old(writer).bits() + sym.data@,
{
    writer.write_bits(sym.data.as_slice());
}

/// Writes `n` zero bits.
fn write_zeros(writer: &mut Writer, n: usize)
    requires
        old(writer).wf(),
    ensures
        final(writer).wf(),
        final(writer).bits() == old(writer).bits() + zeros(n as nat),
{
    let bits: Vec<bool> = vec![false; n];
    assert(bits@ =~= zeros(n as nat));
    writer.write_bits(bits.as_slice());
}

/// Writes the header of a block whose code table is `sym_table`.
fn write_header(writer: &mut Writer, sym_table: &Vec<(u8, Symbol)>)
    requires
        old(writer).wf(),
        sym_table@.len() <= 255,
        codes_bounded(table_view(sym_table@)),
    ensures
        final(writer).wf(),
        final(writer).bits() == old(writer).bits() + header_bits(table_view(sym_table@)),
{
    let ghost t = table_view(sym_table@);
    write_byte(writer, sym_table.len() as u8);
    let mut i: usize = 0;
    assert(entries_bits(t.take(0)) =~= Seq::<bool>::empty());
    assert(writer.bits() =~= old(writer).bits() + byte_bits(t.len() as u8) + entries_bits(t.take(0)));
    while i < sym_table.len()
        invariant
            writer.wf(),
            i <= sym_table@.len(),
            t == table_view(sym_table@),
            codes_bounded(t),
            writer.bits() == old(writer).bits() + byte_bits(t.len() as u8) + entries_bits(t.take(i as int)),
        decreases sym_table@.len() - i,
    {
        let entry = &sym_table[i];
        let ghost before = writer.bits();
        assert(t[i as int] == (entry.0, entry.1.data@));
        let len = entry.1.data.len();
        assert(1 <= t[i as int].1.len() <= 255);
        write_byte(writer, entry.0);
        write_byte(writer, len as u8);
        write_symbol(writer, &entry.1);
        write_zeros(writer, (8 - len % 8) % 8);
        proof {
            assert(t.take(i + 1).drop_last() =~= t.take(i as int));
            assert(writer.bits() =~= before + entry_bits(t[i as int]));
            assert(writer.bits() =~= old(writer).bits() + byte_bits(t.len() as u8) + entries_bits(t.take(i + 1)));
        }
        i = i + 1;
    }
    assert(t.take(t.len() as int) =~= t);
    assert(writer.bits() =~= old(writer).bits() + header_bits(t));
}

/// In a table sorted by byte value, the code of an entry's byte is that entry's code.
pub proof fn lemma_lookup(t: Seq<(u8, Seq<bool>)>, i: int)
    requires
        sorted_by_byte(t),
        0 <= i < t.len(),
    ensures
        lookup(t, t[i].0) == t[i].1,
    decreases t.len(),
{
    let last = t.len() - 1;
    if i != last {
        assert(t[i].0 < t[last].0);
        assert(sorted_by_byte(t.drop_last()));
        lemma_lookup(t.drop_last(), i);
    }
}

pub proof fn lemma_count_pos(s: Seq<u8>, k: int)
    requires
        0 <= k < s.len(),
    ensures
        count(s, s[k]) > 0,
    decreases s.len(),
{
    if k < s.len() - 1 {
        lemma_count_pos(s.drop_last(), k);
    }
}

/// Compresses one block: its code table, its length and its codes, then
/// zero bits up to the next byte boundary. A block holding every one of the
/// 256 byte values is refused and nothing is written.
pub fn compress_block(block: &[u8], output_stream: &mut Writer) -> (r: Result<(), CompressError>)
    requires
        old(output_stream).wf(),
    ensures
        final(output_stream).wf(),
        has_every_byte(block@) ==> r == Err::<(), CompressError>(
            CompressError::TooManyDistinctBytes,
        ) && *final(output_stream) == *old(output_stream),
        !has_every_byte(block@) ==> {
            &&& r is Ok
            &&& final(output_stream).pending() == 0
            &&& final(output_stream).bits() == old(output_stream).bits() + block_bits(block@) + zeros(
                pad_len(old(output_stream).bits().len() + block_bits(block@).len()),
            )
        },
{
    let n = block.len() as u64;
    proof {
        lemma_table_full(block@);
    }
    let freq = frequencies(block);
    let sym_table = encode(&freq);
    let ghost t = table_view(sym_table@);
    if sym_table.len() > 255 {
        return Err(CompressError::TooManyDistinctBytes);
    }
    let ghost start = output_stream.bits();
    write_header(output_stream, &sym_table);
    let mut i: usize = 0;
    assert(bytes_bits(le_bytes(n).take(0)) =~= Seq::<bool>::empty());
    while i < 8
        invariant
            output_stream.wf(),
            i <= 8,
            output_stream.bits() == start + header_bits(t) + bytes_bits(le_bytes(n).take(i as int)),
        decreases 8 - i,
    {
        let byte = #[verifier::truncate] ((n >> (8 * i as u64)) as u8);
        proof {
            assert(le_bytes(n).take(i + 1) =~= le_bytes(n).take(i as int).push(byte));
            lemma_bytes_bits_push(le_bytes(n).take(i as int), byte);
        }
        write_byte(output_stream, byte);
        i = i + 1;
    }
    assert(le_bytes(n).take(8) =~= le_bytes(n));
    let mut slot: Vec<usize> = vec![0usize; 256];
    let mut j: usize = 0;
    while j < sym_table.len()
        invariant
            j <= sym_table@.len(),
            t == table_view(sym_table@),
            sorted_by_byte(t),
            slot@.len() == 256,
            forall|k: int|
                0 <= k < j ==> #[trigger] slot@[t[k].0 as int] < sym_table@.len() && t[slot@[t[k].0 as int] as int].0 == t[k].0,
        decreases sym_table@.len() - j,
    {
        assert(t[j as int].0 == sym_table@[j as int].0);
        slot.set(sym_table[j].0 as usize, j);
        proof {
            assert forall|k: int| 0 <= k < j + 1 implies #[trigger] slot@[t[k].0 as int] < sym_table@.len()
                && t[slot@[t[k].0 as int] as int].0 == t[k].0 by {
                if k < j {
                    assert(t[k].0 < t[j as int].0);
                }
            }
        }
        j = j + 1;
    }
    let ghost before_body = output_stream.bits();
    let mut k: usize = 0;
    assert(body_bits(t, block@.take(0)) =~= Seq::<bool>::empty());
    while k < block.len()
        invariant
            output_stream.wf(),
            k <= block@.len(),
            t == table_view(sym_table@),
            sorted_by_byte(t),
            covers(t, counts(block@)),
            slot@.len() == 256,
            forall|m: int|
                0 <= m < t.len() ==> #[trigger] slot@[t[m].0 as int] < sym_table@.len() && t[slot@[t[m].0 as int] as int].0 == t[m].0,
            output_stream.bits() == before_body + body_bits(t, block@.take(k as int)),
        decreases block@.len() - k,
    {
        let x = block[k];
        proof {
            lemma_count_pos(block@, k as int);
            lemma_count_le(block@, x);
            assert(counts(block@)[x as int] > 0);
            let m = choose|m: int| 0 <= m < t.len() && #[trigger] t[m].0 == x;
            assert(slot@[t[m].0 as int] < sym_table@.len());
        }
        let idx = slot[x as usize];
        proof {
            lemma_lookup(t, idx as int);
            assert(block@.take(k + 1).drop_last() =~= block@.take(k as int));
        }
        write_symbol(output_stream, &sym_table[idx].1);
        k = k + 1;
    }
    assert(block@.take(block@.len() as int) =~= block@);
    output_stream.flush();
    Ok(())
}

} // verus!
