//! Writing individual bits, most significant bit first, to a growing
//! sequence of bytes.

use vstd::prelude::*;
use vstd::string::StringSliceAdditionalSpecFns;
use crate::bitstream::{
    stream_bits, byte_bits, low_bits, value_bits, word_bit, zero_bits, pad_len,
    lemma_stream_bits_push, lemma_stream_bits_prefix, law_stream_bits_injective,
};
use crate::icao::{ascii_to_icao6, codes_bits, field_codes, icao_field_bits, icao_field_chars};

verus! {

/// Why a write could not be completed.
#[derive(Debug, Clone, Copy, PartialEq, Eq)]
pub enum WriteError {
    /// The sink accepted no more bytes.
    WriteZero,
}

/// Writes individual bits to a byte sink.
///
/// Bits are accumulated MSB-first into an internal byte buffer that is
/// handed to the sink each time a full byte has been assembled. Call
/// [`flush`](Self::flush) after the last write to emit a remaining partial
/// byte, padded with zero bits on the right.
#[derive(Debug)]
pub struct BitWriter {
    out: Vec<u8>,
    buffer: u8,
    bits_filled: u8,
}

proof fn lemma_shift_bit_in(b: u8, x: u8, n: u8, i: u8)
    by (bit_vector)
    requires
        n < 8,
        b >> n == 0u8,
        x <= 1,
        i <= n,
    ensures
        ((b << 1u8) | x) >> ((n + 1) as u8) == 0u8,
        i < n ==> (((b << 1u8) | x) >> ((n - i) as u8)) & 1u8 == (b >> ((n - 1 - i) as u8)) & 1u8,
        i == n ==> (((b << 1u8) | x) >> ((n - i) as u8)) & 1u8 == x,
{
}

proof fn lemma_zero_byte_shift(n: u8)
    by (bit_vector)
    ensures
        0u8 >> n == 0u8,
{
}

proof fn lemma_zero_word_bit(j: u64)
    by (bit_vector)
    requires
        j < 64,
    ensures
        (0u64 >> j) & 1u64 == 0u64,
{
}

proof fn lemma_pad_byte(b: u8, n: u8, k: u8)
    by (bit_vector)
    requires
        0 < n < 8,
        b >> n == 0u8,
        k < 8,
    ensures
        k < n ==> ((b << ((8 - n) as u8)) >> ((7 - k) as u8)) & 1u8 == (b >> ((n - 1 - k) as u8))
            & 1u8,
        k >= n ==> ((b << ((8 - n) as u8)) >> ((7 - k) as u8)) & 1u8 == 0u8,
{
}

proof fn lemma_word_bit_is_low(v: u64, k: u64)
    by (bit_vector)
    requires
        k < 64,
    ensures
        (v >> k) & 1u64 <= 1,
        (((v >> k) & 1u64) as u8 == 1u8) == ((v >> k) & 1u64 == 1u64),
{
}

impl BitWriter {
    /// The bytes handed to the sink so far.
    pub closed spec fn output(&self) -> Seq<u8> {
        self.out@
    }

    /// The bits written but not yet handed to the sink.
    pub closed spec fn pending(&self) -> Seq<bool> {
        low_bits(self.buffer, self.bits_filled as nat)
    }

    /// Every bit written so far, in order.
    pub open spec fn bits(&self) -> Seq<bool> {
        stream_bits(self.output()) + self.pending()
    }

    /// The writer's internal state is consistent.
    pub closed spec fn wf(&self) -> bool {
        &&& self.bits_filled < 8
        &&& self.buffer >> self.bits_filled == 0u8
    }

    /// Fewer than eight written bits are ever held back from the sink.
    pub proof fn lemma_pending_short(&self)
        requires
            self.wf(),
        ensures
            self.pending().len() < 8,
    {
    }

    /// The sink holds the written bits in whole bytes, and the fewer than
    /// eight bits that follow them are the pending ones.
    pub proof fn lemma_output_of_bits(&self)
        requires
            self.wf(),
        ensures
            self.output().len() == self.bits().len() / 8,
            stream_bits(self.output()) == self.bits().subrange(0, 8 * self.output().len() as int),
            self.pending() == self.bits().subrange(
                8 * self.output().len() as int,
                self.bits().len() as int,
            ),
    {
        let o = self.output().len() as int;
        let p = self.pending().len() as int;
        assert(self.bits().len() == 8 * o + p);
        assert((8 * o + p) / 8 == o) by (nonlinear_arith)
            requires
                0 <= p < 8,
        ;
        assert(stream_bits(self.output()) =~= self.bits().subrange(0, 8 * o));
        assert(self.pending() =~= self.bits().subrange(8 * o, self.bits().len() as int));
    }

    /// Bytes reach the sink as soon as they are complete, and never change:
    /// when one writer's bits begin another's, its sink holds the first
    /// bytes of the other's sink.
    pub proof fn law_output_grows(a: BitWriter, b: BitWriter)
        requires
            a.wf(),
            b.wf(),
            a.bits().is_prefix_of(b.bits()),
        ensures
            a.output().is_prefix_of(b.output()),
    {
        a.lemma_output_of_bits();
        b.lemma_output_of_bits();
        let na = a.output().len() as int;
        let la = a.bits().len() as int;
        let lb = b.bits().len() as int;
        assert(la / 8 <= lb / 8) by (nonlinear_arith)
            requires
                0 <= la <= lb,
        ;
        assert(8 * na <= la) by (nonlinear_arith)
            requires
                na == la / 8,
                0 <= la,
        ;
        let nb = b.output().len() as int;
        assert(na <= nb);
        lemma_stream_bits_prefix(b.output(), na);
        assert(stream_bits(b.output()).subrange(0, 8 * na) =~= b.bits().subrange(0, 8 * na));
        assert(b.bits().subrange(0, 8 * na) =~= a.bits().subrange(0, 8 * na));
        assert(stream_bits(a.output()) =~= a.bits().subrange(0, 8 * na));
        law_stream_bits_injective(b.output().subrange(0, na), a.output());
    }

    /// Wraps a byte sink for bit-level access.
    pub fn new(out: Vec<u8>) -> (r: Self)
        ensures
            r.wf(),
            r.output() == out@,
            r.pending() == Seq::<bool>::empty(),
    {
        proof {
            lemma_zero_byte_shift(0);
        }
        BitWriter { out, buffer: 0, bits_filled: 0 }
    }

    /// Appends one bit.
    fn push_bit(&mut self, bit: u8)
        requires
            old(self).wf(),
            bit <= 1,
        ensures
            final(self).wf(),
            final(self).bits() == old(self).bits().push(bit == 1u8),
            final(self).output().len() >= old(self).output().len(),
    {
        let ghost b0 = self.buffer;
        let ghost n0 = self.bits_filled;
        let ghost p0 = self.pending();
        proof {
            assert forall|i: int| 0 <= i <= n0 implies (#[trigger] low_bits(
                ((b0 << 1u8) | bit),
                (n0 + 1) as nat,
            )[i]) == p0.push(bit == 1u8)[i] by {
                lemma_shift_bit_in(b0, bit, n0, i as u8);
            }
            lemma_shift_bit_in(b0, bit, n0, 0);
            assert(low_bits(((b0 << 1u8) | bit), (n0 + 1) as nat) =~= p0.push(bit == 1u8));
        }
        self.buffer = (self.buffer << 1) | bit;
        self.bits_filled = self.bits_filled + 1;
        if self.bits_filled == 8 {
            let full = self.buffer;
            proof {
                lemma_stream_bits_push(self.out@, full);
                assert(byte_bits(full) =~= low_bits(full, 8));
            }
            self.out.push(full);
            self.buffer = 0;
            self.bits_filled = 0;
            proof {
                lemma_zero_byte_shift(0);
            }
            proof {
                assert(self.pending() =~= Seq::<bool>::empty());
            }
        }
        proof {
            assert(self.bits() =~= old(self).bits().push(bit == 1u8));
        }
    }

    /// Writes the lowest `count` bits of `value`, MSB-first.
    ///
    /// Full bytes are handed to the sink as soon as they are complete; the
    /// remaining bits stay buffered until the next call or until
    /// [`flush`](Self::flush).
    pub fn write_bits(&mut self, value: u64, count: usize) -> (r: Result<(), WriteError>)
        requires
            old(self).wf(),
            count <= 64,
        ensures
            final(self).wf(),
            r is Ok,
            final(self).bits() == old(self).bits() + value_bits(value, count as nat),
    {
        let mut k: usize = count;
        while k > 0
            invariant
                self.wf(),
                k <= count <= 64,
                self.bits() == old(self).bits() + value_bits(value, count as nat).subrange(
                    0,
                    count - k,
                ),
            decreases k,
        {
            k = k - 1;
            let bit = ((value >> (k as u64)) & 1) as u8;
            proof {
                lemma_word_bit_is_low(value, k as u64);
            }
            self.push_bit(bit);
            proof {
                let vb = value_bits(value, count as nat);
                assert(vb.subrange(0, count - k) =~= vb.subrange(0, count - k - 1).push(
                    word_bit(value, k as int),
                ));
            }
        }
        proof {
            let vb = value_bits(value, count as nat);
            assert(vb.subrange(0, count as int) =~= vb);
        }
        Ok(())
    }

    /// Hands a buffered partial byte to the sink, padding the remaining bits
    /// with zeros on the right. Does nothing when already byte-aligned.
    pub fn flush(&mut self) -> (r: Result<(), WriteError>)
        requires
            old(self).wf(),
        ensures
            final(self).wf(),
            r is Ok,
            final(self).bits() == old(self).bits() + zero_bits(pad_len(old(self).bits().len())),
            final(self).pending() == Seq::<bool>::empty(),
            old(self).pending().len() == 0 ==> final(self).output() == old(self).output(),
            old(self).pending().len() > 0 ==> {
                &&& final(self).output().len() == old(self).output().len() + 1
                &&& final(self).output().subrange(0, old(self).output().len() as int) == old(
                    self,
                ).output()
                &&& byte_bits(final(self).output().last()) == old(self).pending() + zero_bits(
                    (8 - old(self).pending().len()) as nat,
                )
            },
    {
        if self.bits_filled > 0 {
            let ghost b0 = self.buffer;
            let ghost n0 = self.bits_filled;
            let padded = self.buffer << (8 - self.bits_filled);
            proof {
                assert forall|k: int| 0 <= k < 8 implies #[trigger] byte_bits(padded)[k] == (
                low_bits(b0, n0 as nat) + zero_bits((8 - n0) as nat))[k] by {
                    lemma_pad_byte(b0, n0, k as u8);
                }
                assert(byte_bits(padded) =~= low_bits(b0, n0 as nat) + zero_bits((8 - n0) as nat));
                lemma_stream_bits_push(self.out@, padded);
                let len0 = old(self).bits().len() as int;
                let out0 = old(self).output().len() as int;
                assert(len0 == 8 * out0 + n0);
                assert(len0 % 8 == n0) by (nonlinear_arith)
                    requires
                        len0 == 8 * out0 + n0,
                        n0 < 8,
                ;
            }
            self.out.push(padded);
            self.buffer = 0;
            self.bits_filled = 0;
            proof {
                lemma_zero_byte_shift(0);
            }
            proof {
                assert(self.pending() =~= Seq::<bool>::empty());
                assert(self.bits() =~= old(self).bits() + zero_bits(
                    pad_len(old(self).bits().len()),
                ));
                assert(self.output().subrange(0, old(self).output().len() as int) =~= old(
                    self,
                ).output());
            }
        } else {
            proof {
                assert(self.pending() =~= Seq::<bool>::empty());
                let len0 = old(self).bits().len() as int;
                let out0 = old(self).output().len() as int;
                assert(len0 == 8 * out0);
                assert(len0 % 8 == 0) by (nonlinear_arith)
                    requires
                        len0 == 8 * out0,
                ;
                assert(self.bits() =~= old(self).bits() + zero_bits(
                    pad_len(old(self).bits().len()),
                ));
            }
        }
        Ok(())
    }

    /// Writes a fixed-length ASTERIX string field in the ICAO 6-bit code.
    ///
    /// Writes exactly `byte_len * 8` bits: the field holds
    /// `byte_len * 8 / 6` characters, each written as a six-bit code; the
    /// bytes of `s` are padded with spaces (code 0) when shorter and cut
    /// when longer. Leftover bits are written as zeros.
    pub fn write_string(&mut self, s: &str, byte_len: usize) -> (r: Result<(), WriteError>)
        requires
            old(self).wf(),
            byte_len <= usize::MAX / 8,
        ensures
            final(self).wf(),
            r is Ok,
            final(self).bits() == old(self).bits() + icao_field_bits(
                s.spec_bytes(),
                byte_len as nat,
            ),
            final(self).bits().len() == old(self).bits().len() + 8 * byte_len,
    {
        proof {
            crate::roundtrip::law_icao_field_len(s.spec_bytes(), byte_len as nat);
        }
        let total_bits = byte_len * 8;
        let char_count = total_bits / 6;
        let remainder_bits = total_bits % 6;
        let bytes = s.as_bytes();
        let ghost codes = field_codes(s.spec_bytes(), icao_field_chars(byte_len as nat));
        let mut i: usize = 0;
        while i < char_count
            invariant
                self.wf(),
                bytes@ == s.spec_bytes(),
                char_count == icao_field_chars(byte_len as nat),
                codes == field_codes(s.spec_bytes(), char_count as nat),
                i <= char_count,
                self.bits() == old(self).bits() + codes_bits(codes.subrange(0, i as int)),
            decreases char_count - i,
        {
            let code = if i < bytes.len() {
                ascii_to_icao6(bytes[i])
            } else {
                0
            };
            let _ = self.write_bits(code as u64, 6);
            proof {
                assert(codes.subrange(0, i + 1).drop_last() =~= codes.subrange(0, i as int));
                assert(codes.subrange(0, i + 1).last() == code);
            }
            i = i + 1;
        }
        proof {
            assert(codes.subrange(0, char_count as int) =~= codes);
        }
        if remainder_bits > 0 {
            let _ = self.write_bits(0, remainder_bits);
            proof {
                assert(value_bits(0, remainder_bits as nat) =~= zero_bits(remainder_bits as nat))
                    by {
                    assert forall|t: int| 0 <= t < remainder_bits implies #[trigger] value_bits(
                        0,
                        remainder_bits as nat,
                    )[t] == false by {
                        lemma_zero_word_bit((remainder_bits - 1 - t) as u64);
                    }
                }
            }
        } else {
            proof {
                assert(zero_bits(0) =~= Seq::<bool>::empty());
            }
        }
        proof {
            assert(self.bits() =~= old(self).bits() + icao_field_bits(
                s.spec_bytes(),
                byte_len as nat,
            ));
        }
        Ok(())
    }

    /// Byte-level write: hands all of `buf` to the sink and returns its
    /// length. Only meaningful at a byte boundary.
    pub fn write(&mut self, buf: &[u8]) -> (r: Result<usize, WriteError>)
        requires
            old(self).wf(),
            old(self).pending().len() == 0,
        ensures
            final(self).wf(),
            r == Ok::<usize, WriteError>(buf@.len() as usize),
            final(self).output() == old(self).output() + buf@,
            final(self).pending() == Seq::<bool>::empty(),
    {
        let mut i: usize = 0;
        while i < buf.len()
            invariant
                self.wf(),
                self.bits_filled == 0,
                i <= buf@.len(),
                self.output() == old(self).output() + buf@.subrange(0, i as int),
            decreases buf.len() - i,
        {
            self.out.push(buf[i]);
            i = i + 1;
            proof {
                assert(self.output() =~= old(self).output() + buf@.subrange(0, i as int));
            }
        }
        proof {
            assert(buf@.subrange(0, buf@.len() as int) =~= buf@);
            assert(self.pending() =~= Seq::<bool>::empty());
        }
        Ok(buf.len())
    }

    /// Byte-level write of all of `buf`. Only meaningful at a byte boundary.
    pub fn write_all(&mut self, buf: &[u8]) -> (r: Result<(), WriteError>)
        requires
            old(self).wf(),
            old(self).pending().len() == 0,
        ensures
            final(self).wf(),
            r is Ok,
            final(self).output() == old(self).output() + buf@,
            final(self).pending() == Seq::<bool>::empty(),
    {
        let _ = self.write(buf);
        Ok(())
    }

    /// The bytes handed to the sink so far.
    pub fn get_ref(&self) -> (r: &Vec<u8>)
        ensures
            r@ == self.output(),
    {
        &self.out
    }

    /// Gives up the sink, with every byte handed to it.
    pub fn into_inner(self) -> (r: Vec<u8>)
        ensures
            r@ == self.output(),
    {
        self.out
    }

    /// Returns true if the writer is at a byte boundary (no partial byte
    /// buffered).
    pub fn is_byte_aligned(&self) -> (r: bool)
        requires
            self.wf(),
        ensures
            r == (self.bits().len() % 8 == 0),
            r == (self.pending().len() == 0),
    {
        proof {
            assert(self.bits().len() == 8 * self.output().len() + self.bits_filled);
            let o = self.output().len() as int;
            let f = self.bits_filled as int;
            assert((8 * o + f) % 8 == f) by (nonlinear_arith)
                requires
                    0 <= f < 8,
            ;
        }
        self.bits_filled == 0
    }
}

} // verus!
