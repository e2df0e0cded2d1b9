//! A bit reader over a byte sequence, most significant bit first.
use vstd::prelude::*;
use crate::bits::{
    byte_bits, byte_from, bytes_bits, low_bits, pad_len, lemma_bytes_bits_index,
    lemma_bytes_bits_len, lemma_byte_bits_injective, lemma_low_bits_shift_in,
};

verus! {

/// Hands out the bits of a byte sequence one at a time.
pub struct Reader {
    bytes: Vec<u8>,
    byte_pos: usize,
    bit_pos: u8,
}

impl Reader {
    /// All bits of the underlying bytes.
    pub closed spec fn stream(&self) -> Seq<bool> {
        bytes_bits(self.bytes@)
    }

    /// How many bits have been consumed.
    pub closed spec fn pos(&self) -> nat {
        8 * self.byte_pos as nat + self.bit_pos as nat
    }

    pub closed spec fn wf(&self) -> bool {
        &&& self.bit_pos < 8
        &&& (self.byte_pos < self.bytes@.len() || (self.byte_pos == self.bytes@.len()
            && self.bit_pos == 0))
    }

    pub proof fn lemma_layout(&self)
        requires
            self.wf(),
        ensures
            self.pos() <= self.stream().len(),
            self.stream().len() % 8 == 0,
    {
        lemma_bytes_bits_len(self.bytes@);
    }

    pub fn new(bytes: Vec<u8>) -> (r: Reader)
        ensures
            r.wf(),
            r.stream() == bytes_bits(bytes@),
            r.pos() == 0,
    {
        Reader { bytes, byte_pos: 0, bit_pos: 0 }
    }

    /// The next bit, or `None` once every bit has been read.
    pub fn read_bit(&mut self) -> (r: Option<bool>)
        requires
            old(self).wf(),
        ensures
            final(self).wf(),
            final(self).stream() == old(self).stream(),
            old(self).pos() < old(self).stream().len() ==> r == Some(old(self).stream()[old(self).pos() as int])
                && final(self).pos() == old(self).pos() + 1,
            old(self).pos() >= old(self).stream().len() ==> r.is_none() && final(self).pos() == old(self).pos(),
    {
        proof {
            lemma_bytes_bits_len(self.bytes@);
        }
        if self.byte_pos >= self.bytes.len() {
            return None;
        }
        let byte = self.bytes[self.byte_pos];
        let bit = (byte >> (7 - self.bit_pos)) & 1u8 == 1u8;
        proof {
            lemma_bytes_bits_index(self.bytes@, self.byte_pos as int, self.bit_pos as int);
        }
        if self.bit_pos == 7 {
            self.byte_pos = self.byte_pos + 1;
            self.bit_pos = 0;
        } else {
            self.bit_pos = self.bit_pos + 1;
        }
        Some(bit)
    }

    /// Fills `bits` from the front with as many of the next bits as there
    /// are, at most its length, and returns how many were read; the rest of
    /// `bits` is left as it was.
    pub fn read_bits(&mut self, bits: &mut [bool]) -> (n: usize)
        requires
            old(self).wf(),
        ensures
            final(self).wf(),
            final(self).stream() == old(self).stream(),
            n == if old(bits)@.len() <= old(self).stream().len() - old(self).pos() {
                old(bits)@.len() as int
            } else {
                old(self).stream().len() - old(self).pos()
            },
            final(self).pos() == old(self).pos() + n,
            final(bits)@.len() == old(bits)@.len(),
            final(bits)@.subrange(0, n as int) == old(self).stream().subrange(
                old(self).pos() as int,
                old(self).pos() + n,
            ),
            final(bits)@.subrange(n as int, old(bits)@.len() as int) == old(bits)@.subrange(
                n as int,
                old(bits)@.len() as int,
            ),
    {
        proof {
            self.lemma_layout();
        }
        let mut n: usize = 0;
        while n < bits.len()
            invariant
                self.wf(),
                self.stream() == old(self).stream(),
                n <= bits@.len(),
                bits@.len() == old(bits)@.len(),
                self.pos() == old(self).pos() + n,
                self.pos() <= self.stream().len(),
                bits@.subrange(0, n as int) == old(self).stream().subrange(
                    old(self).pos() as int,
                    old(self).pos() + n,
                ),
                bits@.subrange(n as int, bits@.len() as int) == old(bits)@.subrange(
                    n as int,
                    old(bits)@.len() as int,
                ),
            decreases bits@.len() - n,
        {
            let prev = Ghost(bits@);
            match self.read_bit() {
                None => {
                    return n;
                },
                Some(b) => {
                    bits[n] = b;
                    proof {
                        self.lemma_layout();
                        assert(bits@.subrange(0, n + 1) =~= old(self).stream().subrange(
                            old(self).pos() as int,
                            old(self).pos() + n + 1,
                        )) by {
                            assert(bits@.subrange(0, n as int) =~= prev@.subrange(0, n as int));
                        }
                        assert(bits@.subrange(n + 1, bits@.len() as int) =~= old(bits)@.subrange(
                            n + 1,
                            old(bits)@.len() as int,
                        )) by {
                            assert(prev@.subrange(n as int, bits@.len() as int)[0] == old(bits)@[n as int]);
                            assert forall|k: int| n + 1 <= k < bits@.len() implies bits@[k] == old(bits)@[k] by {
                                assert(prev@.subrange(n as int, bits@.len() as int)[k - n] == old(bits)@.subrange(n as int, old(bits)@.len() as int)[k - n]);
                            }
                        }
                    }
                    n = n + 1;
                },
            }
        }
        n
    }

    /// The next eight bits as a byte, or `None`, consuming nothing, when
    /// fewer than eight are left.
    pub fn read_byte(&mut self) -> (r: Option<u8>)
        requires
            old(self).wf(),
        ensures
            final(self).wf(),
            final(self).stream() == old(self).stream(),
            old(self).pos() + 8 <= old(self).stream().len() ==> r == Some(
                byte_from(old(self).stream().subrange(old(self).pos() as int, old(self).pos() + 8int)),
            ) && final(self).pos() == old(self).pos() + 8,
            old(self).pos() + 8 > old(self).stream().len() ==> r.is_none() && final(self).pos()
                == old(self).pos(),
    {
        proof {
            self.lemma_layout();
            lemma_bytes_bits_len(self.bytes@);
        }
        let left = self.bytes.len() - self.byte_pos;
        if !(left >= 2 || (left == 1 && self.bit_pos == 0)) {
            return None;
        }
        let ghost start = self.pos();
        let ghost s = self.stream();
        let mut byte: u8 = 0;
        let mut i: u8 = 0;
        assert(low_bits(0, 0) =~= s.subrange(start as int, start as int));
        while i < 8
            invariant
                self.wf(),
                self.stream() == s,
                start + 8 <= s.len(),
                i <= 8,
                self.pos() == start + i,
                low_bits(byte, i as nat) == s.subrange(start as int, start + i),
            decreases 8 - i,
        {
            let b = self.read_bit();
            match b {
                Some(bit) => {
                    proof {
                        lemma_low_bits_shift_in(byte, i as nat, bit);
                        assert(s.subrange(start as int, start + i + 1) =~= s.subrange(
                            start as int,
                            start + i,
                        ).push(bit));
                    }
                    byte = (byte << 1u8) | if bit { 1u8 } else { 0u8 };
                },
                None => {},
            }
            i = i + 1;
        }
        proof {
            let sub = s.subrange(start as int, start + 8int);
            assert(byte_bits(byte) == sub);
            lemma_byte_bits_injective(byte, byte_from(sub));
        }
        Some(byte)
    }

    /// Skips what is left of a partly read byte.
    pub fn align(&mut self)
        requires
            old(self).wf(),
        ensures
            final(self).wf(),
            final(self).stream() == old(self).stream(),
            final(self).pos() == old(self).pos() + pad_len(old(self).pos()),
            final(self).pos() % 8 == 0,
    {
        if self.bit_pos > 0 && self.byte_pos < self.bytes.len() {
            self.byte_pos = self.byte_pos + 1;
            self.bit_pos = 0;
        }
    }

    /// Whether every bit has been read.
    pub fn is_at_end(&self) -> (r: bool)
        requires
            self.wf(),
        ensures
            r == (self.pos() >= self.stream().len()),
    {
        proof {
            self.lemma_layout();
            lemma_bytes_bits_len(self.bytes@);
        }
        self.byte_pos >= self.bytes.len()
    }
}

} // verus!
