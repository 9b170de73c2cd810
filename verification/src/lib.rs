//! ASTERIX support library: bit-level readers and writers for the wire
//! format, the ICAO 6-bit character code, and the transformation of parsed
//! category definitions into a validated intermediate representation.

pub mod bit_reader;
pub mod bit_writer;
pub mod bitstream;
pub mod builder;
pub mod decimal;
pub mod encode_plan;
pub mod error;
pub mod icao;
pub mod ir;
pub mod roundtrip;
pub mod text;
pub mod transformer;
pub mod xml_model;
