//! The bit-level model shared by the writer, the reader and the block format:
//! bytes are read and written most significant bit first.
use vstd::prelude::*;

verus! {

/// Bit `k` of `v`, counting from the least significant bit.
pub open spec fn bit_at(v: u8, k: u8) -> bool {
    (v >> k) & 1u8 == 1u8
}

/// The `n` low-order bits of `v` (with `n <= 8`), most significant first.
pub open spec fn low_bits(v: u8, n: nat) -> Seq<bool> {
    Seq::new(n, |j: int| bit_at(v, (n - 1 - j) as u8))
}

/// The eight bits of a byte, most significant first.
pub open spec fn byte_bits(b: u8) -> Seq<bool> {
    low_bits(b, 8)
}

/// The bits of a byte sequence, each byte most significant bit first.
pub open spec fn bytes_bits(s: Seq<u8>) -> Seq<bool>
    decreases s.len(),
{
    if s.len() == 0 {
        Seq::empty()
    } else {
        bytes_bits(s.drop_last()) + byte_bits(s.last())
    }
}

/// `n` zero bits.
pub open spec fn zeros(n: nat) -> Seq<bool> {
    Seq::new(n, |j: int| false)
}

/// How many zero bits bring a run of `n` bits to a whole number of bytes.
pub open spec fn pad_len(n: nat) -> nat {
    ((8 - n % 8) % 8) as nat
}

/// The byte whose bits, most significant first, are `s` (of length 8).
pub open spec fn byte_from(s: Seq<bool>) -> u8 {
    choose|b: u8| byte_bits(b) == s
}

/// Distinct bytes have distinct bits.
pub proof fn lemma_byte_bits_injective(a: u8, b: u8)
    requires
        byte_bits(a) == byte_bits(b),
    ensures
        a == b,
{
    assert(byte_bits(a)[7] == bit_at(a, 0u8));
    assert(byte_bits(b)[7] == bit_at(b, 0u8));
    assert(byte_bits(a)[6] == bit_at(a, 1u8));
    assert(byte_bits(b)[6] == bit_at(b, 1u8));
    assert(byte_bits(a)[5] == bit_at(a, 2u8));
    assert(byte_bits(b)[5] == bit_at(b, 2u8));
    assert(byte_bits(a)[4] == bit_at(a, 3u8));
    assert(byte_bits(b)[4] == bit_at(b, 3u8));
    assert(byte_bits(a)[3] == bit_at(a, 4u8));
    assert(byte_bits(b)[3] == bit_at(b, 4u8));
    assert(byte_bits(a)[2] == bit_at(a, 5u8));
    assert(byte_bits(b)[2] == bit_at(b, 5u8));
    assert(byte_bits(a)[1] == bit_at(a, 6u8));
    assert(byte_bits(b)[1] == bit_at(b, 6u8));
    assert(byte_bits(a)[0] == bit_at(a, 7u8));
    assert(byte_bits(b)[0] == bit_at(b, 7u8));
    assert(a == b) by (bit_vector)
        requires
            ((a >> 0u8) & 1u8 == 1u8) == ((b >> 0u8) & 1u8 == 1u8),
            ((a >> 1u8) & 1u8 == 1u8) == ((b >> 1u8) & 1u8 == 1u8),
            ((a >> 2u8) & 1u8 == 1u8) == ((b >> 2u8) & 1u8 == 1u8),
            ((a >> 3u8) & 1u8 == 1u8) == ((b >> 3u8) & 1u8 == 1u8),
            ((a >> 4u8) & 1u8 == 1u8) == ((b >> 4u8) & 1u8 == 1u8),
            ((a >> 5u8) & 1u8 == 1u8) == ((b >> 5u8) & 1u8 == 1u8),
            ((a >> 6u8) & 1u8 == 1u8) == ((b >> 6u8) & 1u8 == 1u8),
            ((a >> 7u8) & 1u8 == 1u8) == ((b >> 7u8) & 1u8 == 1u8),
    ;
}

/// Reading back the bits of a byte gives the byte.
pub proof fn lemma_byte_from_bits(b: u8)
    ensures
        byte_from(byte_bits(b)) == b,
{
    let c = byte_from(byte_bits(b));
    assert(byte_bits(c) == byte_bits(b));
    lemma_byte_bits_injective(c, b);
}

pub proof fn lemma_bytes_bits_len(s: Seq<u8>)
    ensures
        bytes_bits(s).len() == 8 * s.len(),
    decreases s.len(),
{
    if s.len() > 0 {
        lemma_bytes_bits_len(s.drop_last());
    }
}

pub proof fn lemma_bytes_bits_push(s: Seq<u8>, b: u8)
    ensures
        bytes_bits(s.push(b)) == bytes_bits(s) + byte_bits(b),
{
    assert(s.push(b).drop_last() =~= s);
}

/// Bit `8 * i + j` of a byte sequence is bit `j` of its byte `i`.
pub proof fn lemma_bytes_bits_index(s: Seq<u8>, i: int, j: int)
    requires
        0 <= i < s.len(),
        0 <= j < 8,
    ensures
        bytes_bits(s).len() == 8 * s.len(),
        bytes_bits(s)[8 * i + j] == bit_at(s[i], (7 - j) as u8),
    decreases s.len(),
{
    lemma_bytes_bits_len(s);
    lemma_bytes_bits_len(s.drop_last());
    if i < s.len() - 1 {
        lemma_bytes_bits_index(s.drop_last(), i, j);
    }
}

/// Shifting a bit in at the low end appends it to the low-order bits.
pub proof fn lemma_low_bits_shift_in(v: u8, n: nat, bit: bool)
    requires
        n < 8,
    ensures
        low_bits(((v << 1u8) | if bit { 1u8 } else { 0u8 }) as u8, n + 1) == low_bits(v, n).push(bit),
{
    let b: u8 = if bit { 1u8 } else { 0u8 };
    let w: u8 = ((v << 1u8) | b) as u8;
    assert forall|j: int| 0 <= j < n + 1 implies #[trigger] low_bits(w, n + 1)[j] == low_bits(v, n).push(bit)[j] by {
        let k: u8 = (n - j) as u8;
        if j < n {
            assert(((((v << 1u8) | b) as u8) >> k) & 1u8 == (v >> ((k - 1) as u8)) & 1u8) by (bit_vector)
                requires 1 <= k <= 7, b <= 1;
        } else {
            assert(((((v << 1u8) | b) as u8) >> 0u8) & 1u8 == b) by (bit_vector)
                requires b <= 1;
        }
    }
    assert(low_bits(w, n + 1) =~= low_bits(v, n).push(bit));
}

/// Left-aligning `n` buffered bits in a byte pads them with zeros.
pub proof fn lemma_low_bits_left_align(v: u8, n: nat)
    requires
        0 < n < 8,
    ensures
        byte_bits((v << ((8 - n) as u8)) as u8) == low_bits(v, n) + zeros((8 - n) as nat),
{
    let s: u8 = (8 - n) as u8;
    let w: u8 = (v << s) as u8;
    assert forall|j: int| 0 <= j < 8 implies #[trigger] byte_bits(w)[j] == (low_bits(v, n) + zeros((8 - n) as nat))[j] by {
        let k: u8 = (7 - j) as u8;
        let m: u8 = n as u8;
        if j < n {
            assert((((v << s) as u8) >> k) & 1u8 == (v >> ((k - s) as u8)) & 1u8) by (bit_vector)
                requires 1 <= s <= 7, s <= k, k <= 7;
        } else {
            assert((((v << s) as u8) >> k) & 1u8 == 0u8) by (bit_vector)
                requires 1 <= s <= 7, k < s;
        }
    }
    assert(byte_bits(w) =~= low_bits(v, n) + zeros((8 - n) as nat));
}

} // verus!
