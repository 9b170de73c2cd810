//! Building strings.

use vstd::prelude::*;

verus! {

/// Collects characters into a `String`.
///
/// Calls std's `FromIterator<char>` for `String`; the contract claims that
/// the string holds exactly the given characters, in order.
#[verifier::external_body]
pub(crate) fn string_from_chars(chars: Vec<char>) -> (text: String)
    ensures
        text@ == chars@,
{
    chars.into_iter().collect()
}

/// The decimal digits of `n`, least significant first.
pub open spec fn digits_lsb_first(n: nat) -> Seq<char>
    decreases n,
{
    let d = ((48 + n % 10) as u32) as char;
    if n < 10 {
        seq![d]
    } else {
        seq![d] + digits_lsb_first(n / 10)
    }
}

/// `s` extended with `c` up to length `width`.
pub open spec fn pad_to(s: Seq<char>, width: nat, c: char) -> Seq<char> {
    if s.len() < width {
        s + Seq::new((width - s.len()) as nat, |i: int| c)
    } else {
        s
    }
}

/// The name of data item `id` in error messages: `I` and the item number
/// in at least three decimal digits, zero-padded.
pub open spec fn item_context(id: u16) -> Seq<char> {
    seq!['I'] + pad_to(digits_lsb_first(id as nat), 3, '0').reverse()
}

/// Builds the name of data item `id` for error messages, such as `I048`.
pub fn item_context_string(id: u16) -> (text: String)
    ensures
        text@ == item_context(id),
{
    let mut rev: Vec<char> = Vec::new();
    let mut n: u16 = id;
    loop
        invariant_except_break
            rev@ + digits_lsb_first(n as nat) == digits_lsb_first(id as nat),
        ensures
            rev@ == digits_lsb_first(id as nat),
        decreases n,
    {
        let d = (48 + (n % 10) as u32) as u8 as char;
        proof {
            assert(d == ((48 + (n as nat) % 10) as u32) as char);
        }
        rev.push(d);
        if n < 10 {
            proof {
                assert(rev@ =~= digits_lsb_first(id as nat));
            }
            break;
        }
        proof {
            assert(rev@ + digits_lsb_first((n / 10) as nat) =~= digits_lsb_first(id as nat));
        }
        n = n / 10;
    }
    let ghost digits = rev@;
    while rev.len() < 3
        invariant
            pad_to(rev@, 3, '0') == pad_to(digits, 3, '0'),
        decreases 3 - rev.len(),
    {
        proof {
            assert(pad_to(rev@.push('0'), 3, '0') =~= pad_to(rev@, 3, '0'));
        }
        rev.push('0');
    }
    proof {
        assert(pad_to(rev@, 3, '0') == rev@);
    }
    let mut out: Vec<char> = Vec::new();
    out.push('I');
    let mut k: usize = rev.len();
    while k > 0
        invariant
            k <= rev@.len(),
            out@ == seq!['I'] + rev@.subrange(k as int, rev@.len() as int).reverse(),
        decreases k,
    {
        k = k - 1;
        out.push(rev[k]);
        proof {
            assert(rev@.subrange(k as int, rev@.len() as int).reverse() =~= rev@.subrange(
                k + 1,
                rev@.len() as int,
            ).reverse().push(rev@[k as int]));
        }
    }
    proof {
        assert(rev@.subrange(0, rev@.len() as int) =~= rev@);
    }
    string_from_chars(out)
}

} // verus!
