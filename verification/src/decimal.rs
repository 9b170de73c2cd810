//! Unsigned decimal numbers as written in a definition document.

use vstd::prelude::*;

verus! {

/// An ASCII decimal digit.
pub open spec fn is_decimal_digit(c: char) -> bool {
    48 <= (c as u32) <= 57
}

/// The number that a run of decimal digits spells.
pub open spec fn digits_value(ds: Seq<char>) -> nat
    decreases ds.len(),
{
    if ds.len() == 0 {
        0
    } else {
        10 * digits_value(ds.drop_last()) + ((ds.last() as u32) - 48) as nat
    }
}

/// The digits of an unsigned number: the text without an optional leading
/// `+`.
pub open spec fn unsigned_digits(s: Seq<char>) -> Seq<char> {
    if s.len() > 0 && s[0] == '+' {
        s.drop_first()
    } else {
        s
    }
}

/// The value of an unsigned decimal number: an optional `+` followed by one
/// or more ASCII digits, and nothing else. `None` for any other text.
pub open spec fn decimal_value(s: Seq<char>) -> Option<nat> {
    let ds = unsigned_digits(s);
    if ds.len() > 0 && (forall|i: int| 0 <= i < ds.len() ==> is_decimal_digit(#[trigger] ds[i])) {
        Some(digits_value(ds))
    } else {
        None
    }
}

/// Parses a `usize` with std's `str::parse::<usize>`.
///
/// The contract claims what std documents for `usize::from_str`: the text
/// must be an optional `+` followed by decimal digits only, and the number
/// must fit; then the result is that number, and otherwise an error.
#[verifier::external_body]
pub(crate) fn parse_usize(s: &str) -> (r: Result<usize, std::num::ParseIntError>)
    ensures
        match r {
            Ok(v) => decimal_value(s@) == Some(v as nat),
            Err(_) => !(decimal_value(s@) matches Some(n) && n <= usize::MAX),
        },
{
    s.parse::<usize>()
}

/// Parses a `u8` with std's `str::parse::<u8>`.
///
/// The contract claims what std documents for `u8::from_str`: the text
/// must be an optional `+` followed by decimal digits only, and the number
/// must be at most 255; then the result is that number, and otherwise an
/// error.
#[verifier::external_body]
pub(crate) fn parse_u8(s: &str) -> (r: Result<u8, std::num::ParseIntError>)
    ensures
        match r {
            Ok(v) => decimal_value(s@) == Some(v as nat),
            Err(_) => !(decimal_value(s@) matches Some(n) && n <= 255),
        },
{
    s.parse::<u8>()
}

} // verus!
