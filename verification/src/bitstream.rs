//! The mathematical model of a bit stream: bytes read most significant bit
//! first, and the numbers that runs of bits spell.

use vstd::prelude::*;
use vstd::arithmetic::power2::{pow2, lemma_pow2_unfold, lemma_pow2_pos, lemma2_to64};
use vstd::arithmetic::div_mod::{
    lemma_mod_breakdown, lemma_add_mod_noop_right, lemma_mul_mod_noop_right, lemma_small_mod,
};

verus! {

/// Bit `k` of a byte, counting from the most significant bit (`k == 0`).
pub open spec fn byte_bit(b: u8, k: int) -> bool {
    (b >> ((7 - k) as u8)) & 1u8 == 1u8
}

/// The bits of a byte sequence, each byte most significant bit first.
pub open spec fn stream_bits(data: Seq<u8>) -> Seq<bool> {
    Seq::new(8 * data.len(), |i: int| byte_bit(data[i / 8], i % 8))
}

/// The number a bit sequence spells, its first bit the most significant.
pub open spec fn bits_value(bits: Seq<bool>) -> nat
    decreases bits.len(),
{
    if bits.len() == 0 {
        0
    } else {
        2 * bits_value(bits.drop_last()) + if bits.last() { 1nat } else { 0nat }
    }
}

/// Bit `j` of a 64-bit word, counting from the least significant bit.
pub open spec fn word_bit(v: u64, j: int) -> bool {
    (v >> (j as u64)) & 1u64 == 1u64
}

/// The lowest `count` bits of `v`, most significant first.
pub open spec fn value_bits(v: u64, count: nat) -> Seq<bool> {
    Seq::new(count, |t: int| word_bit(v, count - 1 - t))
}

/// `n` zero bits.
pub open spec fn zero_bits(n: nat) -> Seq<bool> {
    Seq::new(n, |i: int| false)
}

/// How many zero bits complete `n` bits to a whole number of bytes.
pub open spec fn pad_len(n: nat) -> nat {
    ((8 - n % 8) % 8) as nat
}

/// The number spelled by the bits from `start` (inclusive) to `end`
/// (exclusive) of a stream.
pub open spec fn segment_value(bits: Seq<bool>, start: int, end: int) -> nat {
    bits_value(bits.subrange(start, end))
}

/// The eight bits of a byte, most significant first.
pub open spec fn byte_bits(b: u8) -> Seq<bool> {
    Seq::new(8, |k: int| byte_bit(b, k))
}

/// The lowest `n` bits of a byte, most significant first.
pub open spec fn low_bits(b: u8, n: nat) -> Seq<bool> {
    Seq::new(n, |i: int| (b >> ((n - 1 - i) as u8)) & 1u8 == 1u8)
}

/// Appending a byte to a source appends its eight bits to the stream.
pub proof fn lemma_stream_bits_push(data: Seq<u8>, b: u8)
    ensures
        stream_bits(data.push(b)) =~= stream_bits(data) + byte_bits(b),
{
    let l = data.len() as int;
    assert forall|i: int| 0 <= i < 8 * (l + 1) implies #[trigger] stream_bits(data.push(b))[i]
        == (stream_bits(data) + byte_bits(b))[i] by {
        if i < 8 * l {
            assert(i / 8 < l) by (nonlinear_arith)
                requires
                    0 <= i < 8 * l,
            ;
        } else {
            assert(i / 8 == l && i % 8 == i - 8 * l) by (nonlinear_arith)
                requires
                    8 * l <= i < 8 * (l + 1),
            ;
        }
    }
}

proof fn lemma_byte_from_bits(x: u8, y: u8)
    by (bit_vector)
    requires
        byte_bit(x, 0) == byte_bit(y, 0),
        byte_bit(x, 1) == byte_bit(y, 1),
        byte_bit(x, 2) == byte_bit(y, 2),
        byte_bit(x, 3) == byte_bit(y, 3),
        byte_bit(x, 4) == byte_bit(y, 4),
        byte_bit(x, 5) == byte_bit(y, 5),
        byte_bit(x, 6) == byte_bit(y, 6),
        byte_bit(x, 7) == byte_bit(y, 7),
    ensures
        x == y,
{
}

/// A byte is determined by its eight bits.
pub proof fn law_byte_bits_injective(x: u8, y: u8)
    requires
        byte_bits(x) == byte_bits(y),
    ensures
        x == y,
{
    assert forall|k: int| 0 <= k < 8 implies #[trigger] byte_bit(x, k) == byte_bit(y, k) by {
        assert(byte_bits(x)[k] == byte_bits(y)[k]);
        assert(byte_bits(x)[k] == byte_bit(x, k));
        assert(byte_bits(y)[k] == byte_bit(y, k));
    }
    lemma_byte_from_bits(x, y);
}

/// Byte `i` of a source spells bits `8i..8i+8` of its stream.
pub proof fn lemma_stream_byte(data: Seq<u8>, i: int)
    requires
        0 <= i < data.len(),
    ensures
        stream_bits(data).subrange(8 * i, 8 * i + 8) == byte_bits(data[i]),
{
    assert forall|k: int| 0 <= k < 8 implies #[trigger] stream_bits(data).subrange(8 * i, 8 * i + 8)[k]
        == byte_bits(data[i])[k] by {
        assert((8 * i + k) / 8 == i && (8 * i + k) % 8 == k) by (nonlinear_arith)
            requires
                0 <= k < 8,
        ;
        assert(8 * i + k < 8 * data.len()) by (nonlinear_arith)
            requires
                0 <= k < 8,
                0 <= i < data.len(),
        ;
    }
    assert(stream_bits(data).subrange(8 * i, 8 * i + 8) =~= byte_bits(data[i]));
}

/// Bytes are determined by their bits: two sources with the same stream
/// are the same.
pub proof fn law_stream_bits_injective(a: Seq<u8>, b: Seq<u8>)
    requires
        stream_bits(a) == stream_bits(b),
    ensures
        a == b,
{
    assert(a.len() == b.len()) by {
        assert(stream_bits(a).len() == 8 * a.len());
        assert(stream_bits(b).len() == 8 * b.len());
    }
    assert forall|i: int| 0 <= i < a.len() implies a[i] == b[i] by {
        lemma_stream_byte(a, i);
        lemma_stream_byte(b, i);
        law_byte_bits_injective(a[i], b[i]);
    }
    assert(a =~= b);
}

/// The stream of a prefix of a source is the prefix of its stream.
pub proof fn lemma_stream_bits_prefix(data: Seq<u8>, n: int)
    requires
        0 <= n <= data.len(),
    ensures
        stream_bits(data.subrange(0, n)) == stream_bits(data).subrange(0, 8 * n),
{
    assert forall|i: int| 0 <= i < 8 * n implies #[trigger] stream_bits(data.subrange(0, n))[i]
        == stream_bits(data).subrange(0, 8 * n)[i] by {
        assert(i / 8 < n) by (nonlinear_arith)
            requires
                0 <= i < 8 * n,
        ;
        assert(i < 8 * data.len()) by (nonlinear_arith)
            requires
                0 <= i < 8 * n,
                n <= data.len(),
        ;
    }
    assert(stream_bits(data.subrange(0, n)) =~= stream_bits(data).subrange(0, 8 * n));
}

/// Appending one bit doubles the value and adds the bit.
pub proof fn lemma_bits_value_push(s: Seq<bool>, b: bool)
    ensures
        bits_value(s.push(b)) == 2 * bits_value(s) + if b { 1nat } else { 0nat },
{
    assert(s.push(b).drop_last() =~= s);
}

/// A run of `n` bits spells a number below `2^n`.
pub proof fn lemma_bits_value_bound(s: Seq<bool>)
    ensures
        bits_value(s) < pow2(s.len()),
    decreases s.len(),
{
    if s.len() == 0 {
        lemma2_to64();
    } else {
        lemma_bits_value_bound(s.drop_last());
        lemma_pow2_unfold(s.len());
    }
}

/// A run of zero bits spells zero.
pub proof fn lemma_zero_bits_value(n: nat)
    ensures
        bits_value(zero_bits(n)) == 0,
    decreases n,
{
    if n > 0 {
        assert(zero_bits(n).drop_last() =~= zero_bits((n - 1) as nat));
        lemma_zero_bits_value((n - 1) as nat);
    }
}

proof fn lemma_word_bit_shift(v: u64, j: u64)
    by (bit_vector)
    requires
        j < 63,
    ensures
        ((v >> 1u64) >> j) & 1u64 == (v >> (j + 1)) & 1u64,
{
}

proof fn lemma_word_low_bit(v: u64)
    by (bit_vector)
    ensures
        ((v >> 0u64) & 1u64 == 1u64) == (v % 2 == 1),
        v >> 1u64 == v / 2,
{
}

/// The lowest `count` bits of a word spell the word modulo `2^count`.
pub proof fn lemma_value_bits_value(v: u64, count: nat)
    requires
        count <= 64,
    ensures
        bits_value(value_bits(v, count)) == (v as nat) % pow2(count),
    decreases count,
{
    if count == 0 {
        lemma2_to64();
        assert(value_bits(v, 0) =~= Seq::<bool>::empty());
    } else {
        let n = (count - 1) as nat;
        let w = v >> 1u64;
        lemma_word_low_bit(v);
        assert(value_bits(v, count).drop_last() =~= value_bits(w, n)) by {
            assert forall|t: int| 0 <= t < n implies value_bits(v, count).drop_last()[t]
                == value_bits(w, n)[t] by {
                lemma_word_bit_shift(v, (n - 1 - t) as u64);
            }
        }
        lemma_value_bits_value(w, n);
        lemma_pow2_unfold(count);
        lemma_pow2_pos(n);
        lemma_mod_breakdown(v as int, 2, pow2(n) as int);
    }
}

/// Reading one more bit of a stream, modulo `2^64`.
pub proof fn lemma_wrapped_value_push(s: Seq<bool>, b: bool)
    ensures
        bits_value(s.push(b)) % pow2(64) == (2 * (bits_value(s) % pow2(64)) + if b { 1nat } else {
            0nat
        }) % pow2(64),
{
    lemma_bits_value_push(s, b);
    lemma2_to64();
    let m = pow2(64) as int;
    let x = bits_value(s) as int;
    let c: int = if b { 1 } else { 0 };
    lemma_mul_mod_noop_right(2, x, m);
    lemma_add_mod_noop_right(c, 2 * x, m);
    lemma_add_mod_noop_right(c, 2 * (x % m), m);
    lemma_mul_mod_noop_right(2, x % m, m);
}

/// Shifting a bit into a word: the exec form of doubling modulo `2^64`.
pub proof fn lemma_shift_in(v: u64, b: u64)
    by (bit_vector)
    requires
        b <= 1,
    ensures
        (v << 1u64) | b == ((2 * v + b) % 0x10000000000000000) as u64,
{
}

/// A value below `2^64` is its own residue.
pub proof fn lemma_small_wrapped(x: nat)
    requires
        x < 0x10000000000000000,
    ensures
        x % pow2(64) == x,
{
    lemma2_to64();
    lemma_small_mod(x, pow2(64));
}

} // verus!
