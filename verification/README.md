# rasterix

Support library for ASTERIX surveillance messages, verified with Verus.

- `src/bit_reader.rs`, `src/bit_writer.rs`: reading and writing bits MSB-first
  over a byte source and a byte sink, including fixed-length ICAO 6-bit string
  fields. Their contracts are stated over the bit-stream model of
  `src/bitstream.rs`; `src/roundtrip.rs` proves that what the reader gives back
  is what the writer wrote.
- `src/icao.rs`: the ICAO 6-bit character code.
- `src/xml_model.rs`, `src/ir.rs`, `src/transformer.rs`: the parsed form of a
  category definition, its intermediate representation, and the transformation
  between them with layout validation (bit counts, extended part groups,
  repetition counters).
- `src/encode_plan.rs`: the FX-chain decisions of generated extended-item
  encoders.
- `src/builder.rs`: naming of generated files.
- `app/`: the error type with its messages (`error.rs`); building generated
  files and directories on disk around the library's per-entry decisions
  (`builder.rs`); the lowered encode operations (`lower_ir.rs`) and the
  emission of encoder tokens with `quote` (`encode_gen.rs`).
