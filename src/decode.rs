//! Decoding of the block format: the header is read back into a code table,
//! then the body is read bit by bit, each run of bits that matches a code
//! giving that code's byte, until the declared number of bytes is reached.
use vstd::prelude::*;
use crate::bits::{byte_from, pad_len};
use crate::huffman::{table_view, Symbol};
use crate::input::Reader;

verus! {

/// Why a block cannot be decompressed.
#[derive(Clone, Copy, Debug, PartialEq, Eq, Structural)]
pub enum DecodeError {
    /// The bits ran out inside the header or the symbol count.
    MalformedStream,
    /// The body does not decode to the declared number of symbols: the bits
    /// ran out, or 255 bits matched no code.
    InconsistentBody,
}

/// The byte at bits `pos .. pos + 8` of `s`.
pub open spec fn byte_at(s: Seq<bool>, pos: int) -> u8 {
    byte_from(s.subrange(pos, pos + 8))
}

/// Reads `k` header entries from `pos`: the entries and the position after
/// them, or `None` when the bits run out.
pub open spec fn parse_entries(s: Seq<bool>, pos: int, k: nat) -> Option<(Seq<(u8, Seq<bool>)>, int)>
    decreases k,
{
    if k == 0 {
        Some((Seq::empty(), pos))
    } else {
        match parse_entries(s, pos, (k - 1) as nat) {
            None => None,
            Some((t, p)) => {
                if p + 16 > s.len() {
                    None
                } else {
                    let l = byte_at(s, p + 8) as nat;
                    let end = p + 16 + l + pad_len(l);
                    if end > s.len() {
                        None
                    } else {
                        Some((t.push((byte_at(s, p), s.subrange(p + 16, p + 16 + l))), end))
                    }
                }
            },
        }
    }
}

/// The byte of the first entry whose code is `c`.
pub open spec fn match_code(t: Seq<(u8, Seq<bool>)>, c: Seq<bool>) -> Option<u8>
    decreases t.len(),
{
    if t.len() == 0 {
        None
    } else if t[0].1 == c {
        Some(t[0].0)
    } else {
        match_code(t.drop_first(), c)
    }
}

/// Reads one code from `pos`, trying the candidates of `k` to 255 bits in
/// turn: the byte of the first that matches and the position after it.
pub open spec fn decode_symbol_from(s: Seq<bool>, pos: int, t: Seq<(u8, Seq<bool>)>, k: nat) -> Option<(u8, int)>
    decreases 256 - k,
{
    if k > 255 || pos + k > s.len() {
        None
    } else {
        match match_code(t, s.subrange(pos, pos + k)) {
            Some(b) => Some((b, pos + k)),
            None => decode_symbol_from(s, pos, t, k + 1),
        }
    }
}

/// Reads `n` codes from `pos`: the decoded bytes and the position after them.
pub open spec fn decode_body(s: Seq<bool>, pos: int, t: Seq<(u8, Seq<bool>)>, n: nat) -> Option<(Seq<u8>, int)>
    decreases n,
{
    if n == 0 {
        Some((Seq::empty(), pos))
    } else {
        match decode_body(s, pos, t, (n - 1) as nat) {
            None => None,
            Some((o, p)) => match decode_symbol_from(s, p, t, 1) {
                None => None,
                Some((b, q)) => Some((o.push(b), q)),
            },
        }
    }
}

/// The number whose little-endian bytes are `b0 .. b7`.
pub open spec fn u64_from_le(b0: u8, b1: u8, b2: u8, b3: u8, b4: u8, b5: u8, b6: u8, b7: u8) -> u64 {
    (b0 as u64) | ((b1 as u64) << 8u64) | ((b2 as u64) << 16u64) | ((b3 as u64) << 24u64) | ((b4 as u64)
        << 32u64) | ((b5 as u64) << 40u64) | ((b6 as u64) << 48u64) | ((b7 as u64) << 56u64)
}

/// The symbol count stored at `pos`.
pub open spec fn count_at(s: Seq<bool>, pos: int) -> u64 {
    u64_from_le(
        byte_at(s, pos),
        byte_at(s, pos + 8),
        byte_at(s, pos + 16),
        byte_at(s, pos + 24),
        byte_at(s, pos + 32),
        byte_at(s, pos + 40),
        byte_at(s, pos + 48),
        byte_at(s, pos + 56),
    )
}

/// Decoding the block that starts at bit `pos` of `s`: `Ok(None)` when no
/// bit is left, else the decoded bytes and the position after the block's
/// padding, or why it failed.
pub open spec fn decode_block(s: Seq<bool>, pos: int) -> Result<Option<(Seq<u8>, int)>, DecodeError> {
    if pos >= s.len() {
        Ok(None)
    } else if pos + 8 > s.len() {
        Err(DecodeError::MalformedStream)
    } else {
        match parse_entries(s, pos + 8, byte_at(s, pos) as nat) {
            None => Err(DecodeError::MalformedStream),
            Some((t, p)) => if p + 64 > s.len() {
                Err(DecodeError::MalformedStream)
            } else {
                match decode_body(s, p + 64, t, count_at(s, p) as nat) {
                    None => Err(DecodeError::InconsistentBody),
                    Some((o, q)) => Ok(Some((o, q + pad_len(q as nat)))),
                }
            },
        }
    }
}

/// The next byte; running out of bits is a malformed stream.
fn read_byte(reader: &mut Reader) -> (r: Result<u8, DecodeError>)
    requires
        old(reader).wf(),
    ensures
        final(reader).wf(),
        final(reader).stream() == old(reader).stream(),
        old(reader).pos() + 8 <= old(reader).stream().len() ==> r == Ok::<u8, DecodeError>(
            byte_at(old(reader).stream(), old(reader).pos() as int),
        ) && final(reader).pos() == old(reader).pos() + 8,
        old(reader).pos() + 8 > old(reader).stream().len() ==> r == Err::<u8, DecodeError>(
            DecodeError::MalformedStream,
        ),
{
    match reader.read_byte() {
        Some(b) => Ok(b),
        None => Err(DecodeError::MalformedStream),
    }
}

/// Reads a block's code table.
fn read_header(reader: &mut Reader) -> (r: Result<Vec<(u8, Symbol)>, DecodeError>)
    requires
        old(reader).wf(),
    ensures
        final(reader).wf(),
        final(reader).stream() == old(reader).stream(),
        ({
            let s = old(reader).stream();
            let pos = old(reader).pos() as int;
            if pos + 8 > s.len() {
                r == Err::<Vec<(u8, Symbol)>, DecodeError>(DecodeError::MalformedStream)
            } else {
                match parse_entries(s, pos + 8, byte_at(s, pos) as nat) {
                    None => r == Err::<Vec<(u8, Symbol)>, DecodeError>(DecodeError::MalformedStream),
                    Some((t, p)) => r is Ok && table_view(r->Ok_0@) == t && final(reader).pos() == p,
                }
            }
        }),
{
    let ghost s = reader.stream();
    let ghost pos = reader.pos() as int;
    let entries_cnt = match read_byte(reader) {
        Ok(b) => b,
        Err(e) => {
            return Err(e);
        },
    };
    let mut res: Vec<(u8, Symbol)> = Vec::new();
    let mut i: u8 = 0;
    assert(table_view(res@) =~= Seq::<(u8, Seq<bool>)>::empty());
    while i < entries_cnt
        invariant
            reader.wf(),
            reader.stream() == s,
            s == old(reader).stream(),
            pos == old(reader).pos(),
            pos + 8 <= s.len(),
            entries_cnt == byte_at(s, pos),
            i <= entries_cnt,
            parse_entries(s, pos + 8, i as nat) == Some((table_view(res@), reader.pos() as int)),
        decreases entries_cnt - i,
    {
        proof {
            reader.lemma_layout();
        }
        let p = Ghost(reader.pos() as int);
        let data = match read_byte(reader) {
            Ok(b) => b,
            Err(e) => {
                proof {
                    lemma_parse_entries_fail(s, pos + 8, i as nat, p@, 0);
                }
                return Err(e);
            },
        };
        let sym_len = match read_byte(reader) {
            Ok(b) => b,
            Err(e) => {
                proof {
                    lemma_parse_entries_fail(s, pos + 8, i as nat, p@, 0);
                }
                return Err(e);
            },
        };
        let len = sym_len as usize;
        let mut sym_data: Vec<bool> = vec![false; len];
        let n = reader.read_bits(sym_data.as_mut_slice());
        proof {
            reader.lemma_layout();
        }
        if n != len {
            proof {
                lemma_parse_entries_fail(s, pos + 8, i as nat, p@, len as nat);
            }
            return Err(DecodeError::MalformedStream);
        }
        let pad = (8 - len % 8) % 8;
        let mut padding: Vec<bool> = vec![false; pad];
        let m = reader.read_bits(padding.as_mut_slice());
        if m != pad {
            proof {
                lemma_parse_entries_fail(s, pos + 8, i as nat, p@, len as nat);
            }
            return Err(DecodeError::MalformedStream);
        }
        let ghost prev = res@;
        assert(sym_data@ =~= s.subrange(p@ + 16, p@ + 16 + len));
        res.push((data, Symbol::from(sym_data)));
        assert(table_view(res@) =~= table_view(prev).push((data, s.subrange(p@ + 16, p@ + 16 + len))));
        i = i + 1;
    }
    Ok(res)
}

/// Reads the eight-byte little-endian symbol count.
fn read_count(reader: &mut Reader) -> (r: Result<u64, DecodeError>)
    requires
        old(reader).wf(),
    ensures
        final(reader).wf(),
        final(reader).stream() == old(reader).stream(),
        old(reader).pos() + 64 <= old(reader).stream().len() ==> r == Ok::<u64, DecodeError>(
            count_at(old(reader).stream(), old(reader).pos() as int),
        ) && final(reader).pos() == old(reader).pos() + 64,
        old(reader).pos() + 64 > old(reader).stream().len() ==> r == Err::<u64, DecodeError>(
            DecodeError::MalformedStream,
        ),
{
    let ghost s = reader.stream();
    let ghost pos = reader.pos() as int;
    let mut bytes: Vec<u8> = Vec::new();
    while bytes.len() < 8
        invariant
            reader.wf(),
            reader.stream() == s,
            s == old(reader).stream(),
            pos == old(reader).pos(),
            bytes@.len() <= 8,
            reader.pos() == pos + 8 * bytes@.len(),
            forall|j: int| 0 <= j < bytes@.len() ==> #[trigger] bytes@[j] == byte_at(s, pos + 8 * j),
        decreases 8 - bytes@.len(),
    {
        match read_byte(reader) {
            Ok(b) => bytes.push(b),
            Err(e) => {
                return Err(e);
            },
        }
    }
    proof {
        reader.lemma_layout();
    }
    Ok(
        (bytes[0] as u64) | ((bytes[1] as u64) << 8u64) | ((bytes[2] as u64) << 16u64) | ((
        bytes[3] as u64) << 24u64) | ((bytes[4] as u64) << 32u64) | ((bytes[5] as u64) << 40u64)
            | ((bytes[6] as u64) << 48u64) | ((bytes[7] as u64) << 56u64),
    )
}

/// Whether two bit sequences are equal.
fn bits_equal(a: &Vec<bool>, b: &Vec<bool>) -> (r: bool)
    ensures
        r == (a@ == b@),
{
    if a.len() != b.len() {
        return false;
    }
    let mut i: usize = 0;
    while i < a.len()
        invariant
            a@.len() == b@.len(),
            i <= a@.len(),
            forall|j: int| 0 <= j < i ==> a@[j] == b@[j],
        decreases a@.len() - i,
    {
        if a[i] != b[i] {
            return false;
        }
        i = i + 1;
    }
    assert(a@ =~= b@);
    true
}

/// The entries of a code-to-byte lookup table, as (byte, code) pairs.
pub open spec fn inverse_view(m: Seq<(Vec<bool>, u8)>) -> Seq<(u8, Seq<bool>)> {
    m.map_values(|e: (Vec<bool>, u8)| (e.1, e.0@))
}

/// The decoding direction of a code table: each code with its byte value,
/// in the table's order.
fn build_sym_hashmap(header: &Vec<(u8, Symbol)>) -> (r: Vec<(Vec<bool>, u8)>)
    ensures
        inverse_view(r@) == table_view(header@),
{
    let mut map: Vec<(Vec<bool>, u8)> = Vec::new();
    let mut i: usize = 0;
    while i < header.len()
        invariant
            i <= header@.len(),
            inverse_view(map@) == table_view(header@).take(i as int),
        decreases header@.len() - i,
    {
        let code = &header[i].1.data;
        let mut key: Vec<bool> = Vec::new();
        let mut k: usize = 0;
        while k < code.len()
            invariant
                k <= code@.len(),
                key@ == code@.take(k as int),
            decreases code@.len() - k,
        {
            key.push(code[k]);
            k = k + 1;
            assert(key@ =~= code@.take(k as int));
        }
        assert(key@ =~= code@);
        let ghost prev = map@;
        map.push((key, header[i].0));
        assert(inverse_view(map@) =~= table_view(header@).take(i + 1)) by {
            assert(inverse_view(map@) =~= inverse_view(prev).push((header@[i as int].0, code@)));
        }
        i = i + 1;
    }
    assert(table_view(header@).take(header@.len() as int) =~= table_view(header@));
    map
}

/// The byte of the first entry of `map` whose code is `candidate`.
fn match_code_exec(map: &Vec<(Vec<bool>, u8)>, candidate: &Vec<bool>) -> (r: Option<u8>)
    ensures
        r == match_code(inverse_view(map@), candidate@),
{
    let ghost t = inverse_view(map@);
    let mut i: usize = 0;
    assert(t.skip(0) =~= t);
    while i < map.len()
        invariant
            t == inverse_view(map@),
            i <= map@.len(),
            match_code(t, candidate@) == match_code(t.skip(i as int), candidate@),
        decreases map@.len() - i,
    {
        assert(t.skip(i as int)[0] == t[i as int]);
        assert(t.skip(i as int).drop_first() =~= t.skip(i + 1));
        if bits_equal(&map[i].0, candidate) {
            return Some(map[i].1);
        }
        i = i + 1;
    }
    None
}

/// Decodes one symbol of a block's body.
fn decode_symbol(reader: &mut Reader, table: &Vec<(Vec<bool>, u8)>) -> (r: Result<u8, DecodeError>)
    requires
        old(reader).wf(),
    ensures
        final(reader).wf(),
        final(reader).stream() == old(reader).stream(),
        match decode_symbol_from(old(reader).stream(), old(reader).pos() as int, inverse_view(table@), 1) {
            None => r == Err::<u8, DecodeError>(DecodeError::InconsistentBody),
            Some((b, q)) => r == Ok::<u8, DecodeError>(b) && final(reader).pos() == q,
        },
{
    let ghost s = reader.stream();
    let ghost pos = reader.pos() as int;
    let ghost t = inverse_view(table@);
    let mut candidate: Vec<bool> = Vec::new();
    proof {
        reader.lemma_layout();
    }
    assert(candidate@ =~= s.subrange(pos, pos));
    loop
        invariant
            reader.wf(),
            reader.stream() == s,
            s == old(reader).stream(),
            pos == old(reader).pos(),
            t == inverse_view(table@),
            candidate@.len() <= 254,
            reader.pos() == pos + candidate@.len(),
            candidate@ == s.subrange(pos, pos + candidate@.len()),
            decode_symbol_from(s, pos, t, 1) == decode_symbol_from(s, pos, t, (candidate@.len() + 1) as nat),
        decreases 255 - candidate@.len(),
    {
        proof {
            reader.lemma_layout();
        }
        match reader.read_bit() {
            None => {
                return Err(DecodeError::InconsistentBody);
            },
            Some(bit) => {
                candidate.push(bit);
            },
        }
        assert(candidate@ =~= s.subrange(pos, pos + candidate@.len()));
        match match_code_exec(table, &candidate) {
            Some(b) => {
                return Ok(b);
            },
            None => {
                if candidate.len() >= 255 {
                    return Err(DecodeError::InconsistentBody);
                }
            },
        }
    }
}

proof fn lemma_decode_body_none(s: Seq<bool>, pos: int, t: Seq<(u8, Seq<bool>)>, k: nat, j: nat)
    requires
        decode_body(s, pos, t, k) is None,
        k <= j,
    ensures
        decode_body(s, pos, t, j) is None,
    decreases j - k,
{
    if k < j {
        lemma_decode_body_none(s, pos, t, k, (j - 1) as nat);
    }
}

/// Decompresses the block at the reader's position and appends its bytes to
/// `output_stream`: `Ok(None)` when no bit is left, `Ok(Some(n))` for a
/// block of `n` bytes, which leaves the reader after the block's padding.
/// On an error nothing is appended.
pub fn decompress_block(input_reader: &mut Reader, output_stream: &mut Vec<u8>) -> (r: Result<Option<u64>, DecodeError>)
    requires
        old(input_reader).wf(),
    ensures
        final(input_reader).wf(),
        final(input_reader).stream() == old(input_reader).stream(),
        match decode_block(old(input_reader).stream(), old(input_reader).pos() as int) {
            Ok(None) => r == Ok::<Option<u64>, DecodeError>(None) && final(output_stream)@ == old(output_stream)@
                && final(input_reader).pos() == old(input_reader).pos(),
            Ok(Some((o, q))) => r == Ok::<Option<u64>, DecodeError>(Some(o.len() as u64))
                && final(output_stream)@ == old(output_stream)@ + o && final(input_reader).pos() == q,
            Err(e) => r == Err::<Option<u64>, DecodeError>(e) && final(output_stream)@ == old(output_stream)@,
        },
{
    let ghost s = input_reader.stream();
    let ghost pos = input_reader.pos() as int;
    if input_reader.is_at_end() {
        return Ok(None);
    }
    let header = match read_header(input_reader) {
        Ok(h) => h,
        Err(e) => {
            return Err(e);
        },
    };
    let ghost t = table_view(header@);
    let ghost p = input_reader.pos() as int;
    let total_symbols_count = match read_count(input_reader) {
        Ok(n) => n,
        Err(e) => {
            return Err(e);
        },
    };
    let hash_map = build_sym_hashmap(&header);
    let mut decoded: Vec<u8> = Vec::new();
    let mut read_symbols_count: u64 = 0;
    assert(decoded@ =~= Seq::<u8>::empty());
    while read_symbols_count < total_symbols_count
        invariant
            input_reader.wf(),
            input_reader.stream() == s,
            s == old(input_reader).stream(),
            pos == old(input_reader).pos(),
            output_stream@ == old(output_stream)@,
            pos + 8 <= s.len(),
            parse_entries(s, pos + 8, byte_at(s, pos) as nat) == Some((t, p)),
            total_symbols_count == count_at(s, p),
            t == table_view(header@),
            t == inverse_view(hash_map@),
            p + 64 <= s.len(),
            read_symbols_count <= total_symbols_count,
            decoded@.len() == read_symbols_count,
            decode_body(s, p + 64, t, read_symbols_count as nat) == Some(
                (decoded@, input_reader.pos() as int),
            ),
        decreases total_symbols_count - read_symbols_count,
    {
        match decode_symbol(input_reader, &hash_map) {
            Ok(b) => {
                decoded.push(b);
            },
            Err(e) => {
                proof {
                    lemma_decode_body_none(s, p + 64, t, (read_symbols_count + 1) as nat, total_symbols_count as nat);
                }
                return Err(e);
            },
        }
        read_symbols_count = read_symbols_count + 1;
    }
    input_reader.align();
    output_stream.append(&mut decoded);
    Ok(Some(read_symbols_count))
}

/// When the entry after the first `k` does not fit, the header is malformed.
proof fn lemma_parse_entries_fail(s: Seq<bool>, pos: int, k: nat, p: int, l: nat)
    requires
        parse_entries(s, pos, k) is Some,
        parse_entries(s, pos, k)->Some_0.1 == p,
        p + 16 > s.len() || (l == byte_at(s, p + 8) && p + 16 + l + pad_len(l) > s.len()),
    ensures
        forall|j: nat| j > k ==> #[trigger] parse_entries(s, pos, j) is None,
{
    assert(parse_entries(s, pos, k + 1) is None);
    assert forall|j: nat| j > k implies #[trigger] parse_entries(s, pos, j) is None by {
        lemma_parse_entries_none(s, pos, k + 1, j);
    }
}

proof fn lemma_parse_entries_none(s: Seq<bool>, pos: int, k: nat, j: nat)
    requires
        parse_entries(s, pos, k) is None,
        k <= j,
    ensures
        parse_entries(s, pos, j) is None,
    decreases j - k,
{
    if k < j {
        lemma_parse_entries_none(s, pos, k, (j - 1) as nat);
    }
}

} // verus!
