//! A bit writer that packs bits into bytes, most significant bit first.
use vstd::prelude::*;
use crate::bits::{
    byte_bits, bytes_bits, low_bits, pad_len, zeros, lemma_bytes_bits_len, lemma_bytes_bits_push,
    lemma_low_bits_shift_in, lemma_low_bits_left_align,
};

verus! {

/// Accumulates bits and emits each completed group of eight as a byte.
pub struct Writer {
    bytes: Vec<u8>,
    buffer: u8,
    buffer_len: u8,
}

impl Writer {
    /// Every bit written so far, whether emitted as a byte or still buffered.
    pub closed spec fn bits(&self) -> Seq<bool> {
        bytes_bits(self.bytes@) + low_bits(self.buffer, self.buffer_len as nat)
    }

    /// The completed bytes.
    pub closed spec fn output(&self) -> Seq<u8> {
        self.bytes@
    }

    /// How many bits wait in the buffer for their byte to fill up.
    pub closed spec fn pending(&self) -> nat {
        self.buffer_len as nat
    }

    pub closed spec fn wf(&self) -> bool {
        self.buffer_len < 8
    }

    /// The written bits are the bits of the completed bytes followed by the pending ones.
    pub proof fn lemma_layout(&self)
        requires
            self.wf(),
        ensures
            self.pending() < 8,
            self.bits().len() == 8 * self.output().len() + self.pending(),
            self.bits().subrange(0, 8 * self.output().len() as int) == bytes_bits(self.output()),
            self.pending() == 0 ==> self.bits() == bytes_bits(self.output()),
    {
        lemma_bytes_bits_len(self.bytes@);
        let b = bytes_bits(self.bytes@);
        assert(self.bits().subrange(0, 8 * self.output().len() as int) =~= b);
        if self.buffer_len == 0 {
            assert(self.bits() =~= b);
        }
    }

    pub fn new() -> (w: Writer)
        ensures
            w.wf(),
            w.bits() == Seq::<bool>::empty(),
            w.output() == Seq::<u8>::empty(),
            w.pending() == 0,
    {
        let w = Writer { bytes: Vec::new(), buffer: 0, buffer_len: 0 };
        assert(w.bits() =~= Seq::<bool>::empty());
        w
    }

    /// Appends `bits` in order; each byte that fills up is emitted at once.
    pub fn write_bits(&mut self, bits: &[bool])
        requires
            old(self).wf(),
        ensures
            final(self).wf(),
            final(self).bits() == old(self).bits() + bits@,
    {
        let mut i: usize = 0;
        while i < bits.len()
            invariant
                self.wf(),
                i <= bits@.len(),
                self.bits() == old(self).bits() + bits@.subrange(0, i as int),
            decreases bits@.len() - i,
        {
            let bit = bits[i];
            proof {
                lemma_low_bits_shift_in(self.buffer, self.buffer_len as nat, bit);
                assert(bits@.subrange(0, i + 1) =~= bits@.subrange(0, i as int).push(bit));
            }
            let prev = Ghost(self.bits());
            self.buffer = (self.buffer << 1u8) | if bit { 1u8 } else { 0u8 };
            self.buffer_len = self.buffer_len + 1;
            assert(self.bits() =~= prev@.push(bit));
            if self.buffer_len == 8 {
                let byte = self.buffer;
                let before = Ghost(self.bytes@);
                self.bytes.push(byte);
                self.buffer = 0;
                self.buffer_len = 0;
                proof {
                    lemma_bytes_bits_push(before@, byte);
                    assert(low_bits(0, 0) =~= Seq::<bool>::empty());
                    assert(self.bits() =~= prev@.push(bit));
                }
            }
            i = i + 1;
        }
        assert(bits@.subrange(0, bits@.len() as int) =~= bits@);
    }

    /// Emits a partly filled byte, its remaining low-order bits set to zero;
    /// with nothing buffered it does nothing.
    pub fn flush(&mut self)
        requires
            old(self).wf(),
        ensures
            final(self).wf(),
            final(self).pending() == 0,
            final(self).bits() == old(self).bits() + zeros(pad_len(old(self).bits().len())),
            final(self).bits().len() % 8 == 0,
            final(self).bits() == bytes_bits(final(self).output()),
    {
        proof {
            self.lemma_layout();
        }
        if self.buffer_len > 0 {
            let pad: u8 = 8 - self.buffer_len;
            let byte: u8 = self.buffer << pad;
            proof {
                lemma_low_bits_left_align(self.buffer, self.buffer_len as nat);
                lemma_bytes_bits_push(self.bytes@, byte);
            }
            self.bytes.push(byte);
            self.buffer = 0;
            self.buffer_len = 0;
        }
        proof {
            self.lemma_layout();
            assert(old(self).bits().len() % 8 == old(self).pending());
            if old(self).pending() == 0 {
                assert(zeros(pad_len(old(self).bits().len())) =~= Seq::<bool>::empty());
            }
            assert(self.bits() =~= old(self).bits() + zeros(pad_len(old(self).bits().len())));
        }
    }

    /// Hands over the completed bytes, keeping the pending bits.
    pub fn take_bytes(&mut self) -> (r: Vec<u8>)
        requires
            old(self).wf(),
        ensures
            final(self).wf(),
            r@ == old(self).output(),
            final(self).output() == Seq::<u8>::empty(),
            final(self).pending() == old(self).pending(),
            old(self).bits() == bytes_bits(r@) + final(self).bits(),
    {
        let r = self.bytes.split_off(0);
        proof {
            assert(r@ =~= old(self).bytes@);
            assert(self.bytes@ =~= Seq::<u8>::empty());
            assert(bytes_bits(self.bytes@) =~= Seq::<bool>::empty());
            assert(old(self).bits() =~= bytes_bits(r@) + self.bits());
        }
        r
    }

    /// The completed bytes.
    pub fn bytes(&self) -> (r: &[u8])
        ensures
            r@ == self.output(),
    {
        self.bytes.as_slice()
    }
}

} // verus!
