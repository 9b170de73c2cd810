use rasterix::bit_reader::{BitReader, ReadError};

#[test]
fn new_creates_empty_reader() {
    let data = vec![0xAB];
    let reader = BitReader::new(data);
    assert!(reader.is_byte_aligned());
}

#[test]
fn read_single_bit() {
    // 0b10101010 = 0xAA
    let data = vec![0xAA];
    let mut reader = BitReader::new(data);

    assert_eq!(reader.read_bits(1).unwrap(), 1); // First bit is 1
    assert_eq!(reader.read_bits(1).unwrap(), 0); // Second bit is 0
    assert_eq!(reader.read_bits(1).unwrap(), 1); // Third bit is 1
    assert_eq!(reader.read_bits(1).unwrap(), 0); // Fourth bit is 0
}

#[test]
fn read_full_byte() {
    let data = vec![0xAB, 0xCD];
    let mut reader = BitReader::new(data);

    assert_eq!(reader.read_bits(8).unwrap(), 0xAB);
    assert!(reader.is_byte_aligned());
    assert_eq!(reader.read_bits(8).unwrap(), 0xCD);
}

#[test]
fn read_across_byte_boundary() {
    // Read 12 bits from 0xAB 0xCD = 0b10101011 0b11001101
    // First 12 bits: 0b101010111100 = 0xABC
    let data = vec![0xAB, 0xCD];
    let mut reader = BitReader::new(data);

    assert_eq!(reader.read_bits(12).unwrap(), 0xABC);
    assert!(!reader.is_byte_aligned());
}

#[test]
fn read_multiple_sizes() {
    // 0xFF = 0b11111111
    let data = vec![0xFF];
    let mut reader = BitReader::new(data);

    assert_eq!(reader.read_bits(3).unwrap(), 0b111); // 7
    assert_eq!(reader.read_bits(3).unwrap(), 0b111); // 7
    assert_eq!(reader.read_bits(2).unwrap(), 0b11); // 3
    assert!(reader.is_byte_aligned());
}

#[test]
fn read_16_bits() {
    let data = vec![0x12, 0x34];
    let mut reader = BitReader::new(data);

    assert_eq!(reader.read_bits(16).unwrap(), 0x1234);
}

#[test]
fn read_32_bits() {
    let data = vec![0x12, 0x34, 0x56, 0x78];
    let mut reader = BitReader::new(data);

    assert_eq!(reader.read_bits(32).unwrap(), 0x12345678);
}

#[test]
fn read_zero_bits() {
    let data = vec![0xAB];
    let mut reader = BitReader::new(data);

    assert_eq!(reader.read_bits(0).unwrap(), 0);
    assert!(reader.is_byte_aligned()); // No data consumed
}

#[test]
fn bit_reader_byte_alignment_tracking() {
    let data = vec![0xFF, 0xFF];
    let mut reader = BitReader::new(data);

    assert!(reader.is_byte_aligned());
    reader.read_bits(1).unwrap();
    assert!(!reader.is_byte_aligned());
    reader.read_bits(7).unwrap();
    assert!(reader.is_byte_aligned());
}

#[test]
fn read_trait_at_byte_boundary() {
    let data = vec![0xAB, 0xCD, 0xEF];
    let mut reader = BitReader::new(data);

    // Read first byte using bit reader
    assert_eq!(reader.read_bits(8).unwrap(), 0xAB);

    // Now use byte-level reads for remaining bytes
    let mut buf = [0u8; 2];
    reader.read_exact(&mut buf).unwrap();
    assert_eq!(buf, [0xCD, 0xEF]);
}

#[test]
fn read_string_basic() {
    // ICAO 6-bit encoding of "ABC" in 6 bytes (8 chars, 5 trailing spaces):
    // A=1=000001, B=2=000010, C=3=000011, SP=0 (x5)
    let data = vec![0x04, 0x20, 0xC0, 0x00, 0x00, 0x00];
    let mut reader = BitReader::new(data);

    let s = reader.read_string(6).unwrap();
    assert_eq!(s, "ABC");
}

#[test]
fn read_string_trailing_spaces_trimmed() {
    // ICAO 6-bit "AB" in 3 bytes (4 chars, 2 trailing spaces)
    let data = vec![0x04, 0x20, 0x00];
    let mut reader = BitReader::new(data);

    let s = reader.read_string(3).unwrap();
    assert_eq!(s, "AB");
}

#[test]
fn read_string_all_spaces() {
    // All-zero bytes are all ICAO space codes: empty string after trim
    let data = vec![0x00, 0x00, 0x00];
    let mut reader = BitReader::new(data);

    let s = reader.read_string(3).unwrap();
    assert_eq!(s, "");
}

#[test]
fn read_insufficient_data() {
    let data = vec![0xAB];
    let mut reader = BitReader::new(data);

    // Try to read more bits than available
    assert_eq!(reader.read_bits(8).unwrap(), 0xAB);
    assert!(reader.read_bits(8).is_err());
}

#[test]
fn read_alternating_pattern() {
    // 0b01010101 = 0x55, read MSB first: 0, 1, 0, 1, 0, 1, 0, 1
    let data = vec![0x55];
    let mut reader = BitReader::new(data);

    for i in 0..8 {
        let bit = reader.read_bits(1).unwrap();
        let expected = i % 2;
        assert_eq!(bit, expected as u64, "Bit {} should be {}", i, expected);
    }
}

// ── Further cases ──────────────────────────────────────────────────────

#[test]
fn read_more_than_64_bits_keeps_the_last_64() {
    let data = vec![0xFF, 0x01, 0x23, 0x45, 0x67, 0x89, 0xAB, 0xCD, 0xEF];
    let mut reader = BitReader::new(data);
    assert_eq!(reader.read_bits(72).unwrap(), 0x0123_4567_89AB_CDEF);
    assert!(reader.is_byte_aligned());
}

#[test]
fn failed_read_consumes_the_rest() {
    let data = vec![0xF0, 0x0F];
    let mut reader = BitReader::new(data);
    assert_eq!(reader.read_bits(3).unwrap(), 0b111);
    assert_eq!(reader.read_bits(20), Err(ReadError::UnexpectedEof));
    assert!(reader.is_byte_aligned());
    assert_eq!(reader.read_bits(1), Err(ReadError::UnexpectedEof));
    assert_eq!(reader.read_bits(0), Ok(0));
}

#[test]
fn read_string_decodes_digits_and_unknown_codes() {
    // codes 48 ('0'), 57 ('9'), 27 (unknown: space), 26 ('Z')
    // 110000|111001|011011|011010
    let data = vec![0xC3, 0x96, 0xDA];
    let mut reader = BitReader::new(data);
    assert_eq!(reader.read_string(3).unwrap(), "09 Z");
}

#[test]
fn read_string_discards_leftover_bits() {
    // 1 byte: one 6-bit code and 2 leftover bits; 'A' then 0b11
    let data = vec![0x07, 0x80];
    let mut reader = BitReader::new(data);
    assert_eq!(reader.read_string(1).unwrap(), "A");
    assert!(reader.is_byte_aligned());
    assert_eq!(reader.read_bits(1).unwrap(), 1);
}

#[test]
fn read_string_without_enough_data_fails() {
    let data = vec![0x04, 0x20];
    let mut reader = BitReader::new(data);
    assert_eq!(reader.read_string(3), Err(ReadError::UnexpectedEof));
}

#[test]
fn byte_level_read_copies_what_remains() {
    let data = vec![0x01, 0x02, 0x03];
    let mut reader = BitReader::new(data);
    assert_eq!(reader.read_bits(8).unwrap(), 0x01);
    let mut buf = [0xEEu8; 4];
    assert_eq!(reader.read(&mut buf).unwrap(), 2);
    assert_eq!(buf, [0x02, 0x03, 0xEE, 0xEE]);
    assert_eq!(reader.read(&mut buf).unwrap(), 0);
}

#[test]
fn read_exact_past_the_end_fails_and_consumes() {
    let data = vec![0x01, 0x02];
    let mut reader = BitReader::new(data);
    let mut buf = [0u8; 3];
    assert_eq!(reader.read_exact(&mut buf), Err(ReadError::UnexpectedEof));
    assert_eq!(buf, [0, 0, 0]);
    assert!(reader.read_bits(1).is_err());
}
