//! Reading individual bits, most significant bit first, from a sequence of
//! bytes.

use vstd::prelude::*;
use crate::bitstream::{
    stream_bits, segment_value, zero_bits, lemma_zero_bits_value, lemma_small_wrapped,
    byte_bit, lemma_wrapped_value_push, lemma_shift_in, lemma_bits_value_bound, bits_value,
};

use crate::icao::{icao6_to_ascii, icao_chars, icao_field_chars, trim_trailing_spaces};
use vstd::arithmetic::power2::{pow2, lemma2_to64, lemma_pow2_strictly_increases};
use vstd::arithmetic::div_mod::lemma_small_mod;
use crate::text::string_from_chars;

verus! {

/// Why a read could not be completed.
#[derive(Debug, Clone, Copy, PartialEq, Eq)]
pub enum ReadError {
    /// The source ran out of bytes before the requested bits were consumed.
    UnexpectedEof,
}

/// Reads individual bits from a byte source.
///
/// Bits are consumed MSB-first within each byte. A byte is taken from the
/// source only when its first bit is needed, so the source is never read
/// ahead of what has been consumed.
#[derive(Debug)]
pub struct BitReader {
    data: Vec<u8>,
    pos: usize,
    buffer: u8,
    bits_left: u8,
}

impl BitReader {
    /// The bytes the reader reads from.
    pub closed spec fn source(&self) -> Seq<u8> {
        self.data@
    }

    /// How many bits of the source have been consumed.
    pub closed spec fn cursor(&self) -> nat {
        (8 * self.pos - self.bits_left) as nat
    }

    /// How many bytes have been taken from the source.
    pub closed spec fn bytes_taken(&self) -> nat {
        self.pos as nat
    }

    /// The bits of the source.
    pub open spec fn bits(&self) -> Seq<bool> {
        stream_bits(self.source())
    }

    /// The number of bits in the source.
    pub open spec fn total_bits(&self) -> nat {
        8 * self.source().len()
    }

    /// The reader's internal state is consistent.
    pub closed spec fn wf(&self) -> bool {
        &&& self.pos <= self.data.len()
        &&& self.bits_left < 8
        &&& self.bits_left > 0 ==> self.pos > 0 && self.buffer == self.data@[self.pos - 1]
    }

    /// The reader has consumed no more bits than its source holds, and has
    /// taken from the source exactly the bytes whose bits it has begun to
    /// consume: it never reads ahead.
    pub proof fn lemma_cursor_bounds(&self)
        requires
            self.wf(),
        ensures
            self.cursor() <= self.total_bits(),
            self.bytes_taken() * 8 >= self.cursor(),
            self.bytes_taken() * 8 < self.cursor() + 8,
    {
    }

    /// Wraps a byte source for bit-level access.
    pub fn new(data: Vec<u8>) -> (r: Self)
        ensures
            r.wf(),
            r.source() == data@,
            r.cursor() == 0,
            r.bytes_taken() == 0,
    {
        BitReader { data, pos: 0, buffer: 0, bits_left: 0 }
    }

    /// Reads `count` bits and returns them right-aligned in a `u64`.
    ///
    /// The first bit read becomes the most significant bit of the result;
    /// when more than 64 bits are read, only the last 64 remain. Fails when
    /// the source runs out of data before `count` bits have been consumed,
    /// in which case every remaining bit has been consumed.
    pub fn read_bits(&mut self, count: usize) -> (r: Result<u64, ReadError>)
        requires
            old(self).wf(),
        ensures
            final(self).wf(),
            final(self).source() == old(self).source(),
            match r {
                Ok(v) => {
                    &&& old(self).cursor() + count <= old(self).total_bits()
                    &&& final(self).cursor() == old(self).cursor() + count
                    &&& v as nat == segment_value(
                        old(self).bits(),
                        old(self).cursor() as int,
                        old(self).cursor() + count,
                    ) % pow2(64)
                    &&& count <= 64 ==> v < pow2(count as nat)
                },
                Err(e) => {
                    &&& e == ReadError::UnexpectedEof
                    &&& old(self).cursor() + count > old(self).total_bits()
                    &&& final(self).cursor() == old(self).total_bits()
                },
            },
            final(self).bytes_taken() * 8 >= final(self).cursor(),
            final(self).bytes_taken() * 8 < final(self).cursor() + 8,
    {
        let ghost c0 = self.cursor() as int;
        let ghost s = self.bits();
        let mut value: u64 = 0;
        let mut i: usize = 0;
        proof {
            lemma_zero_bits_value(0);
            assert(s.subrange(c0, c0) =~= zero_bits(0));
            lemma_small_wrapped(0);
        }
        while i < count
            invariant
                self.wf(),
                self.source() == old(self).source(),
                s == self.bits(),
                c0 == old(self).cursor(),
                i <= count,
                self.cursor() == c0 + i,
                value as nat == segment_value(s, c0, c0 + i) % pow2(64),
            decreases count - i,
        {
            if self.bits_left == 0 {
                if self.pos >= self.data.len() {
                    return Err(ReadError::UnexpectedEof);
                }
                self.buffer = self.data[self.pos];
                self.pos = self.pos + 1;
                self.bits_left = 8;
            }
            self.bits_left = self.bits_left - 1;
            let bl = self.bits_left;
            let b = self.buffer;
            let bit = (b >> bl) & 1;
            proof {
                let c = c0 + i;
                assert(c == 8 * (self.pos - 1) + (7 - bl));
                assert(c / 8 == self.pos - 1 && c % 8 == 7 - bl) by (nonlinear_arith)
                    requires
                        c == 8 * (self.pos - 1) + (7 - bl),
                        0 <= 7 - bl < 8,
                ;
                assert(bit <= 1 && (bit == 1) == ((b >> bl) & 1u8 == 1u8)) by (bit_vector)
                    requires
                        bit == (b >> bl) & 1u8,
                ;
                assert(s[c] == byte_bit(b, 7 - bl));
                assert(s.subrange(c0, c + 1) =~= s.subrange(c0, c).push(s[c]));
                lemma_wrapped_value_push(s.subrange(c0, c), s[c]);
                lemma_shift_in(value, bit as u64);
                lemma2_to64();
                assert((if s[c] { 1nat } else { 0nat }) == bit as nat);
            }
            value = (value << 1) | (bit as u64);
            i = i + 1;
        }
        proof {
            if count <= 64 {
                let seg = s.subrange(c0, c0 + count);
                lemma_bits_value_bound(seg);
                lemma2_to64();
                if count < 64 {
                    lemma_pow2_strictly_increases(count as nat, 64);
                }
                lemma_small_mod(bits_value(seg), pow2(64));
            }
        }
        Ok(value)
    }

    /// Reads a fixed-length ASTERIX string field in the ICAO 6-bit code.
    ///
    /// Consumes `byte_len * 8` bits, decoding each six-bit code into an
    /// ASCII character. The field holds `byte_len * 8 / 6` characters; any
    /// leftover bits are consumed and discarded. Trailing spaces are
    /// trimmed. Fails, having consumed every remaining bit, when the source
    /// holds fewer than `byte_len * 8` bits.
    pub fn read_string(&mut self, byte_len: usize) -> (r: Result<String, ReadError>)
        requires
            old(self).wf(),
            byte_len <= usize::MAX / 8,
        ensures
            final(self).wf(),
            final(self).source() == old(self).source(),
            match r {
                Ok(text) => {
                    &&& old(self).cursor() + 8 * byte_len <= old(self).total_bits()
                    &&& final(self).cursor() == old(self).cursor() + 8 * byte_len
                    &&& text@ == trim_trailing_spaces(
                        icao_chars(
                            old(self).bits(),
                            old(self).cursor() as int,
                            icao_field_chars(byte_len as nat),
                        ),
                    )
                },
                Err(e) => {
                    &&& e == ReadError::UnexpectedEof
                    &&& old(self).cursor() + 8 * byte_len > old(self).total_bits()
                    &&& final(self).cursor() == old(self).total_bits()
                },
            },
    {
        let ghost c0 = self.cursor() as int;
        let ghost s = self.bits();
        let total_bits = byte_len * 8;
        let char_count = total_bits / 6;
        let remainder_bits = total_bits % 6;
        let mut chars: Vec<char> = Vec::new();
        let mut k: usize = 0;
        while k < char_count
            invariant
                self.wf(),
                self.source() == old(self).source(),
                s == self.bits(),
                c0 == old(self).cursor(),
                total_bits == 8 * byte_len,
                char_count == icao_field_chars(byte_len as nat),
                k <= char_count,
                self.cursor() == c0 + 6 * k,
                chars@ == icao_chars(s, c0, k as nat),
            decreases char_count - k,
        {
            let code = match self.read_bits(6) {
                Ok(v) => v,
                Err(e) => {
                    return Err(e);
                },
            };
            proof {
                let seg = s.subrange(c0 + 6 * k, c0 + 6 * k + 6);
                lemma_bits_value_bound(seg);
                lemma2_to64();
                lemma_small_wrapped(bits_value(seg));
            }
            let ch = icao6_to_ascii(code as u8) as char;
            chars.push(ch);
            k = k + 1;
            proof {
                assert(chars@ =~= icao_chars(s, c0, k as nat));
            }
        }
        if remainder_bits > 0 {
            match self.read_bits(remainder_bits) {
                Ok(_) => {},
                Err(e) => {
                    return Err(e);
                },
            }
        }
        let ghost decoded = chars@;
        while chars.len() > 0 && chars[chars.len() - 1] == ' '
            invariant
                trim_trailing_spaces(chars@) == trim_trailing_spaces(decoded),
            decreases chars.len(),
        {
            chars.pop();
        }
        Ok(string_from_chars(chars))
    }

    /// Byte-level read: copies as many of the source's remaining bytes as
    /// `buf` holds (or as remain) into the front of `buf` and returns how
    /// many were copied. Only meaningful at a byte boundary.
    pub fn read(&mut self, buf: &mut [u8]) -> (r: Result<usize, ReadError>)
        requires
            old(self).wf(),
            old(self).cursor() % 8 == 0,
        ensures
            final(self).wf(),
            final(self).source() == old(self).source(),
            r is Ok,
            r matches Ok(n) && {
                let start = old(self).cursor() / 8;
                let remaining = old(self).source().len() - start;
                &&& n == if old(buf)@.len() < remaining { old(buf)@.len() as int } else {
                    remaining
                }
                &&& final(self).cursor() == old(self).cursor() + 8 * n
                &&& final(buf)@ == old(self).source().subrange(start as int, (start + n) as int)
                    + old(buf)@.subrange(n as int, old(buf)@.len() as int)
            },
    {
        let remaining = self.data.len() - self.pos;
        let n = if buf.len() < remaining { buf.len() } else { remaining };
        self.copy_out(buf, n);
        Ok(n)
    }

    /// Byte-level read of exactly `buf.len()` bytes. Only meaningful at a
    /// byte boundary. Fails, consuming the rest of the source and leaving
    /// `buf` as it was, when fewer bytes remain.
    pub fn read_exact(&mut self, buf: &mut [u8]) -> (r: Result<(), ReadError>)
        requires
            old(self).wf(),
            old(self).cursor() % 8 == 0,
        ensures
            final(self).wf(),
            final(self).source() == old(self).source(),
            match r {
                Ok(()) => {
                    let start = old(self).cursor() / 8;
                    &&& start + old(buf)@.len() <= old(self).source().len()
                    &&& final(self).cursor() == old(self).cursor() + 8 * old(buf)@.len()
                    &&& final(buf)@ == old(self).source().subrange(
                        start as int,
                        (start + old(buf)@.len()) as int,
                    )
                },
                Err(e) => {
                    &&& e == ReadError::UnexpectedEof
                    &&& old(self).cursor() / 8 + old(buf)@.len() > old(self).source().len()
                    &&& final(self).cursor() == old(self).total_bits()
                    &&& final(buf)@ == old(buf)@
                },
            },
    {
        let remaining = self.data.len() - self.pos;
        if buf.len() > remaining {
            self.pos = self.data.len();
            return Err(ReadError::UnexpectedEof);
        }
        let n = buf.len();
        self.copy_out(buf, n);
        proof {
            assert(buf@ =~= old(self).source().subrange(
                (old(self).cursor() / 8) as int,
                (old(self).cursor() / 8 + old(buf)@.len()) as int,
            ));
        }
        Ok(())
    }

    /// Copies the next `n` source bytes into the front of `buf`.
    fn copy_out(&mut self, buf: &mut [u8], n: usize)
        requires
            old(self).wf(),
            old(self).bits_left == 0,
            n <= old(buf)@.len(),
            old(self).pos + n <= old(self).data.len(),
        ensures
            final(self).wf(),
            final(self).data == old(self).data,
            final(self).bits_left == 0,
            final(self).pos == old(self).pos + n,
            final(buf)@ == old(self).data@.subrange(old(self).pos as int, old(self).pos + n)
                + old(buf)@.subrange(n as int, old(buf)@.len() as int),
    {
        let start = self.pos;
        let mut i: usize = 0;
        while i < n
            invariant
                self.data == old(self).data,
                self.pos == start,
                start == old(self).pos,
                self.bits_left == 0,
                self.wf(),
                start + n <= self.data.len(),
                i <= n,
                n <= old(buf)@.len(),
                buf@.len() == old(buf)@.len(),
                buf@ == self.data@.subrange(start as int, start + i) + old(buf)@.subrange(
                    i as int,
                    old(buf)@.len() as int,
                ),
            decreases n - i,
        {
            buf[i] = self.data[start + i];
            i = i + 1;
            proof {
                assert(buf@ =~= self.data@.subrange(start as int, start + i) + old(buf)@.subrange(
                    i as int,
                    old(buf)@.len() as int,
                ));
            }
        }
        self.pos = start + n;
    }

    /// Returns true if the reader is at a byte boundary (no partial byte
    /// buffered).
    pub fn is_byte_aligned(&self) -> (r: bool)
        requires
            self.wf(),
        ensures
            r == (self.cursor() % 8 == 0),
    {
        self.bits_left == 0
    }
}

} // verus!
