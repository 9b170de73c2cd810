//! The errors of the code generation pipeline.

use vstd::prelude::*;

verus! {

#[verifier::external_type_specification]
#[verifier::external_body]
pub struct ExIoError(std::io::Error);

#[verifier::external_type_specification]
#[verifier::external_body]
pub struct ExDeError(quick_xml::DeError);

#[verifier::external_type_specification]
#[verifier::external_body]
pub struct ExParseIntError(std::num::ParseIntError);

/// All errors that can occur during ASTERIX code generation.
#[allow(inconsistent_fields)]
#[derive(Debug)]
pub enum CodegenError {
    /// Failed to read or write a file at `path`.
    Io { path: String, source: std::io::Error },
    /// The XML input could not be deserialized into the expected structure.
    Parse { source: quick_xml::DeError },
    /// A `<field>` has a `type` attribute that is not an accepted one.
    InvalidFieldType { field_name: String, field_type: String },
    /// The counter value of a `<repetitive>` item is not a valid integer.
    InvalidCounter { value: String, source: std::num::ParseIntError },
    /// The counter of a `<repetitive>` item is not 1 to 64 bits wide.
    CounterWidthOutOfRange { bits: usize },
    /// An `<enum>` variant's `value` attribute is not a valid `u8`.
    InvalidEnumValue { variant: String, value: String, source: std::num::ParseIntError },
    /// The declared byte count doesn't match the sum of element bit widths.
    BitCountMismatch { context: String, bytes: usize, expected_bits: usize, actual_bits: usize },
    /// The declared byte count of an `<extended>` item doesn't match the
    /// number of part groups.
    ExtendedByteMismatch { context: String, declared: usize, actual_groups: usize },
    /// A part group of an `<extended>` item doesn't have exactly 7 data bits.
    PartGroupBitMismatch { context: String, index: usize, actual: usize },
    /// Two fields (or enums) of one layout have the same name.
    DuplicateFieldName { context: String, name: String },
    /// A file path contains non-UTF-8 bytes.
    InvalidPath,
    /// An EPB element contains another EPB element.
    NestedEpb,
    /// An EPB element wraps a `<spare>` element.
    EpbContainsSpare,
    /// A `<compound>` item contains another `<compound>` item.
    NestedCompound,
}

} // verus!
