//! What a read gives back of a write: the laws that tie the bit writer's
//! output to the bit reader's results.

use vstd::prelude::*;
use vstd::arithmetic::power2::{pow2, lemma2_to64, lemma_pow2_strictly_increases};
use vstd::arithmetic::div_mod::lemma_small_mod;
use crate::bitstream::{
    bits_value, segment_value, value_bits, zero_bits, lemma_value_bits_value, lemma_zero_bits_value,
    lemma_bits_value_bound,
};
use crate::bit_reader::BitReader;
use crate::bit_writer::BitWriter;
use crate::icao::{
    icao_char, icao_code, icao_chars, trim_trailing_spaces, icao_field_bits, icao_field_chars, field_codes, codes_bits,
    law_icao_decode_of_encode,
};

verus! {

/// Reading `count` bits where a write of `count` bits of `v` put them gives
/// back `v` modulo `2^count`, whatever was written before and after, and
/// the 64-bit result of the reader holds it whole.
pub proof fn law_bits_roundtrip(before: Seq<bool>, v: u64, count: nat, after: Seq<bool>)
    requires
        count <= 64,
    ensures
        segment_value(
            before + value_bits(v, count) + after,
            before.len() as int,
            (before.len() + count) as int,
        ) % pow2(64) == (v as nat) % pow2(count),
{
    let s = before + value_bits(v, count) + after;
    assert(s.subrange(before.len() as int, (before.len() + count) as int) =~= value_bits(v, count));
    lemma_value_bits_value(v, count);
    lemma_bits_value_bound(value_bits(v, count));
    lemma2_to64();
    if count < 64 {
        lemma_pow2_strictly_increases(count, 64);
    }
    lemma_small_mod(bits_value(value_bits(v, count)), pow2(64));
}

/// A reader over the bytes a writer handed to its sink, once the writer
/// holds no partial byte, sees exactly the bits that were written.
pub proof fn law_reader_sees_written_bits(w: BitWriter, r: BitReader)
    requires
        w.wf(),
        w.pending().len() == 0,
        r.source() == w.output(),
    ensures
        r.bits() == w.bits(),
{
    assert(w.bits() =~= r.bits());
}

/// The bits of a sequence of writes `(value, width)`, in order.
pub open spec fn writes_bits(ws: Seq<(u64, nat)>) -> Seq<bool>
    decreases ws.len(),
{
    if ws.len() == 0 {
        Seq::empty()
    } else {
        writes_bits(ws.drop_last()) + value_bits(ws.last().0, ws.last().1)
    }
}

/// The first bits of a sequence of writes are those of its first writes.
proof fn lemma_writes_bits_prefix(ws: Seq<(u64, nat)>, k: int)
    requires
        0 <= k <= ws.len(),
    ensures
        writes_bits(ws.subrange(0, k)).is_prefix_of(writes_bits(ws)),
    decreases ws.len(),
{
    if k < ws.len() {
        assert(ws.drop_last().subrange(0, k) =~= ws.subrange(0, k));
        lemma_writes_bits_prefix(ws.drop_last(), k);
        assert(writes_bits(ws).subrange(0, writes_bits(ws.drop_last()).len() as int)
            =~= writes_bits(ws.drop_last()));
    } else {
        assert(ws.subrange(0, k) =~= ws);
    }
}

/// After a sequence of writes of widths at most 64, and any padding, the
/// `i`-th read of the same width, starting where the first `i` writes
/// end, gives back the `i`-th value truncated to its width; the padding
/// reads back as zero.
pub proof fn law_writes_roundtrip(ws: Seq<(u64, nat)>, i: int, pad: nat)
    requires
        0 <= i < ws.len(),
        forall|j: int| 0 <= j < ws.len() ==> (#[trigger] ws[j]).1 <= 64,
    ensures
        ({
            let s = writes_bits(ws) + zero_bits(pad);
            let start = writes_bits(ws.subrange(0, i)).len() as int;
            segment_value(s, start, start + ws[i].1) % pow2(64) == (ws[i].0 as nat) % pow2(ws[i].1)
        }),
        bits_value((writes_bits(ws) + zero_bits(pad)).subrange(
            writes_bits(ws).len() as int,
            (writes_bits(ws).len() + pad) as int,
        )) == 0,
{
    let s = writes_bits(ws) + zero_bits(pad);
    let pre = writes_bits(ws.subrange(0, i));
    let upto = writes_bits(ws.subrange(0, i + 1));
    assert(ws.subrange(0, i + 1).drop_last() =~= ws.subrange(0, i));
    assert(upto == pre + value_bits(ws[i].0, ws[i].1));
    lemma_writes_bits_prefix(ws, i + 1);
    let rest = s.subrange(upto.len() as int, s.len() as int);
    assert(s =~= pre + value_bits(ws[i].0, ws[i].1) + rest);
    law_bits_roundtrip(pre, ws[i].0, ws[i].1, rest);
    assert(s.subrange(writes_bits(ws).len() as int, (writes_bits(ws).len() + pad) as int) =~= zero_bits(
        pad,
    ));
    lemma_zero_bits_value(pad);
}

/// A field written by a fresh writer and read back from the first bit
/// gives the text cut or padded to the field's length, each lower-case
/// letter made upper case and every byte other than a letter or a digit
/// made a space, without trailing spaces.
pub proof fn law_fresh_string_roundtrip(text: Seq<u8>, byte_len: nat, after: Seq<bool>)
    ensures
        trim_trailing_spaces(
            icao_chars(icao_field_bits(text, byte_len) + after, 0, icao_field_chars(byte_len)),
        ) == trim_trailing_spaces(
            Seq::new(
                icao_field_chars(byte_len),
                |k: int| if k < text.len() { icao_char(icao_code(text[k])) as char } else { ' ' },
            ),
        ),
{
    let n = icao_field_chars(byte_len);
    law_string_roundtrip(Seq::<bool>::empty(), text, byte_len, after);
    assert(Seq::<bool>::empty() + icao_field_bits(text, byte_len) + after =~= icao_field_bits(
        text,
        byte_len,
    ) + after);
    assert(Seq::new(n, |k: int| icao_char(field_codes(text, n)[k]) as char) =~= Seq::new(
        n,
        |k: int| if k < text.len() { icao_char(icao_code(text[k])) as char } else { ' ' },
    ));
}

/// Trailing spaces added to a text are trimmed with it.
pub proof fn lemma_trim_padding(t: Seq<char>, n: nat)
    ensures
        trim_trailing_spaces(t + Seq::new(n, |i: int| ' ')) == trim_trailing_spaces(t),
    decreases n,
{
    if n > 0 {
        let m = (n - 1) as nat;
        assert((t + Seq::new(n, |i: int| ' ')).drop_last() =~= t + Seq::new(m, |i: int| ' '));
        lemma_trim_padding(t, m);
    } else {
        assert(t + Seq::new(0, |i: int| ' ') =~= t);
    }
}

/// A text of upper-case letters, digits and spaces that fits its field and
/// does not end in a space, written by a fresh writer, reads back as
/// itself.
pub proof fn law_fresh_plain_string_roundtrip(text: Seq<u8>, byte_len: nat, after: Seq<bool>)
    requires
        text.len() <= icao_field_chars(byte_len),
        forall|i: int| 0 <= i < text.len() ==> is_icao_plain(#[trigger] text[i]),
        text.len() > 0 ==> text.last() != 32,
    ensures
        trim_trailing_spaces(
            icao_chars(icao_field_bits(text, byte_len) + after, 0, icao_field_chars(byte_len)),
        ) == Seq::new(text.len(), |k: int| text[k] as char),
{
    let n = icao_field_chars(byte_len);
    law_plain_string_roundtrip(Seq::<bool>::empty(), text, byte_len, after);
    assert(Seq::<bool>::empty() + icao_field_bits(text, byte_len) + after =~= icao_field_bits(
        text,
        byte_len,
    ) + after);
    let t = Seq::new(text.len(), |k: int| text[k] as char);
    let pad = (n - text.len()) as nat;
    assert(Seq::new(n, |k: int| if k < text.len() { text[k] as char } else { ' ' }) =~= t
        + Seq::new(pad, |i: int| ' '));
    lemma_trim_padding(t, pad);
    if text.len() > 0 {
        assert(t.last() != ' ') by {
            assert(t.last() == text.last() as char);
        }
    }
}

/// The six-bit codes laid out by `codes_bits`: six bits per code, code
/// `k` at bits `6k..6k+6`.
pub proof fn lemma_codes_bits_layout(codes: Seq<u8>)
    ensures
        codes_bits(codes).len() == 6 * codes.len(),
        forall|k: int|
            0 <= k < codes.len() ==> #[trigger] codes_bits(codes).subrange(6 * k, 6 * k + 6)
                == value_bits(codes[k] as u64, 6),
    decreases codes.len(),
{
    if codes.len() > 0 {
        let init = codes.drop_last();
        lemma_codes_bits_layout(init);
        let cb = codes_bits(codes);
        assert forall|k: int| 0 <= k < codes.len() implies #[trigger] cb.subrange(6 * k, 6 * k + 6)
            == value_bits(codes[k] as u64, 6) by {
            if k < init.len() {
                assert(cb.subrange(6 * k, 6 * k + 6) =~= codes_bits(init).subrange(
                    6 * k,
                    6 * k + 6,
                ));
            } else {
                assert(cb.subrange(6 * k, 6 * k + 6) =~= value_bits(codes.last() as u64, 6));
            }
        }
    }
}

/// An ICAO field is exactly `byte_len` bytes long.
pub proof fn law_icao_field_len(text: Seq<u8>, byte_len: nat)
    ensures
        icao_field_bits(text, byte_len).len() == 8 * byte_len,
{
    lemma_codes_bits_layout(field_codes(text, icao_field_chars(byte_len)));
}

/// Decoding an ICAO field where the writer put it gives back, character by
/// character, the decoding of the code of each byte of the text, the text
/// cut or padded with spaces to the field's length — whatever was written
/// before and after the field.
pub proof fn law_string_roundtrip(
    before: Seq<bool>,
    text: Seq<u8>,
    byte_len: nat,
    after: Seq<bool>,
)
    ensures
        icao_chars(
            before + icao_field_bits(text, byte_len) + after,
            before.len() as int,
            icao_field_chars(byte_len),
        ) == Seq::new(
            icao_field_chars(byte_len),
            |k: int| icao_char(field_codes(text, icao_field_chars(byte_len))[k]) as char,
        ),
{
    let n = icao_field_chars(byte_len);
    let codes = field_codes(text, n);
    let s = before + icao_field_bits(text, byte_len) + after;
    let b = before.len() as int;
    lemma_codes_bits_layout(codes);
    lemma2_to64();
    assert forall|k: int| 0 <= k < n implies #[trigger] segment_value(s, b + 6 * k, b + 6 * k + 6)
        == codes[k] as nat by {
        assert(s.subrange(b + 6 * k, b + 6 * k + 6) =~= codes_bits(codes).subrange(
            6 * k,
            6 * k + 6,
        ));
        lemma_value_bits_value(codes[k] as u64, 6);
        assert(codes[k] < 64);
        lemma_small_mod(codes[k] as nat, 64);
    }
    assert(icao_chars(s, b, n) =~= Seq::new(n, |k: int| icao_char(codes[k]) as char));
}

/// A byte that the ICAO code carries unchanged: an upper-case letter, a
/// digit or a space.
pub open spec fn is_icao_plain(c: u8) -> bool {
    65 <= c <= 90 || 48 <= c <= 57 || c == 32
}

/// A text of upper-case letters, digits and spaces that fits its field
/// decodes to itself followed by spaces.
pub proof fn law_plain_string_roundtrip(
    before: Seq<bool>,
    text: Seq<u8>,
    byte_len: nat,
    after: Seq<bool>,
)
    requires
        text.len() <= icao_field_chars(byte_len),
        forall|i: int| 0 <= i < text.len() ==> is_icao_plain(#[trigger] text[i]),
    ensures
        icao_chars(
            before + icao_field_bits(text, byte_len) + after,
            before.len() as int,
            icao_field_chars(byte_len),
        ) == Seq::new(
            icao_field_chars(byte_len),
            |k: int| if k < text.len() { text[k] as char } else { ' ' },
        ),
{
    law_string_roundtrip(before, text, byte_len, after);
    let n = icao_field_chars(byte_len);
    assert forall|k: int| 0 <= k < n implies #[trigger] (icao_char(field_codes(text, n)[k]) as char)
        == (if k < text.len() { text[k] as char } else { ' ' }) by {
        if k < text.len() {
            law_icao_decode_of_encode(text[k]);
        }
    }
    assert(Seq::new(n, |k: int| icao_char(field_codes(text, n)[k]) as char) =~= Seq::new(
        n,
        |k: int| if k < text.len() { text[k] as char } else { ' ' },
    ));
}

} // verus!
