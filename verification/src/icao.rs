//! The ICAO 6-bit character code (ICAO Annex 10, Vol III, Ch 3) as used by
//! ASTERIX string fields.

use vstd::prelude::*;
use crate::bitstream::{segment_value, value_bits, zero_bits};

verus! {

/// The ASCII byte that an ICAO 6-bit code stands for:
/// 0 is a space, 1..=26 are `A`..=`Z`, 48..=57 are `0`..=`9`, and every
/// other code reads as a space.
pub open spec fn icao_char(code: u8) -> u8 {
    if 1 <= code <= 26 {
        (64 + code) as u8
    } else if 48 <= code <= 57 {
        code
    } else {
        32u8
    }
}

/// The ICAO 6-bit code of an ASCII byte: `A`..=`Z` and `a`..=`z` map to
/// 1..=26, `0`..=`9` to 48..=57, and everything else (space included) to 0.
pub open spec fn icao_code(c: u8) -> u8 {
    if 65 <= c <= 90 {
        (c - 64) as u8
    } else if 97 <= c <= 122 {
        (c - 96) as u8
    } else if 48 <= c <= 57 {
        c
    } else {
        0u8
    }
}

/// Maps an ICAO 6-bit code back to an ASCII byte.
pub fn icao6_to_ascii(code: u8) -> (c: u8)
    ensures
        c == icao_char(code),
        1 <= code <= 26 ==> c == 65 + (code - 1),
        48 <= code <= 57 ==> c == code,
        !(1 <= code <= 26 || 48 <= code <= 57) ==> c == 32,
{
    if code == 0 {
        32  // ' '
    } else if 1 <= code && code <= 26 {
        65 + code - 1  // 'A' + code - 1
    } else if 48 <= code && code <= 57 {
        48 + code - 48  // '0' + code - 48
    } else {
        32  // ' '
    }
}

/// Maps an ASCII byte to its ICAO 6-bit code.
pub fn ascii_to_icao6(c: u8) -> (code: u8)
    ensures
        code == icao_code(c),
        code < 64,
        65 <= c <= 90 ==> code == 1 + (c - 65),
        97 <= c <= 122 ==> code == 1 + (c - 97),
        48 <= c <= 57 ==> code == c,
        !(65 <= c <= 90 || 97 <= c <= 122 || 48 <= c <= 57) ==> code == 0,
{
    if 65 <= c && c <= 90 {
        // 'A'..='Z'
        c - 65 + 1
    } else if 97 <= c && c <= 122 {
        // 'a'..='z'
        c - 97 + 1
    } else if 48 <= c && c <= 57 {
        // '0'..='9'
        c - 48 + 48
    } else {
        0
    }
}

/// Every code the encoder produces fits in six bits.
pub proof fn law_icao_code_fits(c: u8)
    ensures
        icao_code(c) < 64,
{
}

/// Decoding the code of an upper-case letter, a digit or a space gives the
/// byte back; a lower-case letter comes back upper-case; any other byte
/// comes back as a space.
pub proof fn law_icao_decode_of_encode(c: u8)
    ensures
        (65 <= c <= 90 || 48 <= c <= 57 || c == 32) ==> icao_char(icao_code(c)) == c,
        97 <= c <= 122 ==> icao_char(icao_code(c)) == c - 32,
        !(65 <= c <= 90 || 97 <= c <= 122 || 48 <= c <= 57) ==> icao_char(icao_code(c)) == 32,
{
}

/// Encoding the byte that a code decodes to gives the code back, for every
/// code that names a letter or a digit, and for the space code 0.
pub proof fn law_icao_encode_of_decode(code: u8)
    ensures
        (code <= 26 || 48 <= code <= 57) ==> icao_code(icao_char(code)) == code,
{
}

/// The decoding table: codes 1 to 26 are the letters `A` to `Z` in order,
/// codes 48 to 57 are the digits `0` to `9` in order, and every other code
/// (0, 27 to 47, the ICAO space 32 among them, and 58 upwards) is a space.
pub proof fn law_icao_char_table(code: u8)
    ensures
        1 <= code <= 26 ==> icao_char(code) == 65 + (code - 1),
        48 <= code <= 57 ==> icao_char(code) == 48 + (code - 48),
        !(1 <= code <= 26 || 48 <= code <= 57) ==> icao_char(code) == 32,
        icao_char(32) == 32,
        icao_char(0) == 32,
{
}

/// The encoding table: `A` to `Z` and `a` to `z` are codes 1 to 26 in
/// alphabetical order, each digit `0` to `9` is its own byte value 48 to 57,
/// and every other byte is code 0.
pub proof fn law_icao_code_table(c: u8)
    ensures
        65 <= c <= 90 ==> icao_code(c) == 1 + (c - 65),
        97 <= c <= 122 ==> icao_code(c) == 1 + (c - 97),
        48 <= c <= 57 ==> icao_code(c) == c,
        !(65 <= c <= 90 || 97 <= c <= 122 || 48 <= c <= 57) ==> icao_code(c) == 0,
{
}

/// Distinct letters and distinct digits get distinct codes, so no two of
/// them are swapped on the wire.
pub proof fn law_icao_code_distinct(a: u8, b: u8)
    requires
        65 <= a <= 90 || 48 <= a <= 57,
        65 <= b <= 90 || 48 <= b <= 57,
        a != b,
    ensures
        icao_code(a) != icao_code(b),
{
}

/// The characters that `n` six-bit codes, starting at bit `start` of a
/// stream, decode to.
pub open spec fn icao_chars(bits: Seq<bool>, start: int, n: nat) -> Seq<char> {
    Seq::new(
        n,
        |k: int| icao_char(segment_value(bits, start + 6 * k, start + 6 * k + 6) as u8) as char,
    )
}

/// A character sequence without its trailing spaces.
pub open spec fn trim_trailing_spaces(s: Seq<char>) -> Seq<char>
    decreases s.len(),
{
    if s.len() > 0 && s.last() == ' ' {
        trim_trailing_spaces(s.drop_last())
    } else {
        s
    }
}

/// The number of characters an ICAO field of `byte_len` bytes holds.
pub open spec fn icao_field_chars(byte_len: nat) -> nat {
    8 * byte_len / 6
}

/// The codes of a field of `n` characters holding the bytes `text`: the
/// text is padded with spaces (code 0) when shorter and cut when longer.
pub open spec fn field_codes(text: Seq<u8>, n: nat) -> Seq<u8> {
    Seq::new(n, |i: int| if i < text.len() { icao_code(text[i]) } else { 0u8 })
}

/// Six bits per code, in order.
pub open spec fn codes_bits(codes: Seq<u8>) -> Seq<bool>
    decreases codes.len(),
{
    if codes.len() == 0 {
        Seq::empty()
    } else {
        codes_bits(codes.drop_last()) + value_bits(codes.last() as u64, 6)
    }
}

/// The bits of an ICAO field of `byte_len` bytes holding the bytes `text`:
/// the codes of its characters, then zero bits up to `byte_len * 8`.
pub open spec fn icao_field_bits(text: Seq<u8>, byte_len: nat) -> Seq<bool> {
    codes_bits(field_codes(text, icao_field_chars(byte_len))) + zero_bits((8 * byte_len) % 6)
}

} // verus!
