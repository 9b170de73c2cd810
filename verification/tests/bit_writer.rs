use rasterix::bit_reader::BitReader;
use rasterix::bit_writer::BitWriter;

#[test]
fn new_creates_empty_writer() {
    let buffer = Vec::new();
    let writer = BitWriter::new(buffer);
    assert!(writer.is_byte_aligned());
}

#[test]
fn write_single_bit() {
    let mut writer = BitWriter::new(Vec::new());

    writer.write_bits(1, 1).unwrap(); // Write bit 1
    assert!(!writer.is_byte_aligned());

    writer.write_bits(0, 1).unwrap(); // Write bit 0
    writer.write_bits(1, 1).unwrap(); // Write bit 1
    writer.write_bits(0, 1).unwrap(); // Write bit 0
    writer.write_bits(1, 1).unwrap(); // Write bit 1
    writer.write_bits(0, 1).unwrap(); // Write bit 0
    writer.write_bits(1, 1).unwrap(); // Write bit 1
    writer.write_bits(0, 1).unwrap(); // Write bit 0

    assert!(writer.is_byte_aligned());
    assert_eq!(writer.into_inner(), vec![0xAA]); // 0b10101010
}

#[test]
fn write_full_byte() {
    let mut writer = BitWriter::new(Vec::new());

    writer.write_bits(0xAB, 8).unwrap();
    assert!(writer.is_byte_aligned());
    assert_eq!(writer.into_inner(), vec![0xAB]);
}

#[test]
fn write_multiple_bytes() {
    let mut writer = BitWriter::new(Vec::new());

    writer.write_bits(0xAB, 8).unwrap();
    writer.write_bits(0xCD, 8).unwrap();
    assert_eq!(writer.into_inner(), vec![0xAB, 0xCD]);
}

#[test]
fn write_across_byte_boundary() {
    let mut writer = BitWriter::new(Vec::new());

    // Write 12 bits: 0xABC = 0b101010111100
    writer.write_bits(0xABC, 12).unwrap();
    assert!(!writer.is_byte_aligned());

    // Flush to complete the partial byte
    writer.flush().unwrap();

    // 0xAB (first 8 bits) + 0xC0 (last 4 bits + padding)
    assert_eq!(writer.into_inner(), vec![0xAB, 0xC0]);
}

#[test]
fn write_16_bits() {
    let mut writer = BitWriter::new(Vec::new());

    writer.write_bits(0x1234, 16).unwrap();
    assert_eq!(writer.into_inner(), vec![0x12, 0x34]);
}

#[test]
fn write_32_bits() {
    let mut writer = BitWriter::new(Vec::new());

    writer.write_bits(0x12345678, 32).unwrap();
    assert_eq!(writer.into_inner(), vec![0x12, 0x34, 0x56, 0x78]);
}

#[test]
fn write_zero_bits() {
    let mut writer = BitWriter::new(Vec::new());

    writer.write_bits(0xFF, 0).unwrap();
    assert!(writer.is_byte_aligned());
    assert!(writer.into_inner().is_empty());
}

#[test]
fn flush_partial_byte() {
    let mut writer = BitWriter::new(Vec::new());

    // Write 3 bits: 0b101
    writer.write_bits(0b101, 3).unwrap();
    assert!(!writer.is_byte_aligned());

    writer.flush().unwrap();
    assert!(writer.is_byte_aligned());

    // 0b10100000 = 0xA0
    assert_eq!(writer.into_inner(), vec![0xA0]);
}

#[test]
fn flush_empty_does_nothing() {
    let mut writer = BitWriter::new(Vec::new());

    writer.flush().unwrap();
    assert!(writer.into_inner().is_empty());
}

#[test]
fn bit_writer_byte_alignment_tracking() {
    let mut writer = BitWriter::new(Vec::new());

    assert!(writer.is_byte_aligned());
    writer.write_bits(1, 1).unwrap();
    assert!(!writer.is_byte_aligned());
    writer.write_bits(0, 7).unwrap();
    assert!(writer.is_byte_aligned());
}

#[test]
fn write_trait_at_byte_boundary() {
    let mut writer = BitWriter::new(Vec::new());

    // Write first byte using bit writer
    writer.write_bits(0xAB, 8).unwrap();

    // Now use byte-level writes for remaining bytes
    writer.write_all(&[0xCD, 0xEF]).unwrap();

    assert_eq!(writer.into_inner(), vec![0xAB, 0xCD, 0xEF]);
}

#[test]
fn write_multiple_sizes() {
    let mut writer = BitWriter::new(Vec::new());

    writer.write_bits(0b111, 3).unwrap(); // 3 bits
    writer.write_bits(0b111, 3).unwrap(); // 3 bits
    writer.write_bits(0b11, 2).unwrap(); // 2 bits

    assert!(writer.is_byte_aligned());
    assert_eq!(writer.into_inner(), vec![0xFF]); // 0b11111111
}

#[test]
fn round_trip_with_reader() {
    // Write some bits
    let buffer = {
        let mut writer = BitWriter::new(Vec::new());
        writer.write_bits(0xABCD, 16).unwrap();
        writer.write_bits(0b101, 3).unwrap();
        writer.write_bits(0b11111, 5).unwrap();
        writer.into_inner()
    };

    // Read them back
    let mut reader = BitReader::new(buffer.clone());
    assert_eq!(reader.read_bits(16).unwrap(), 0xABCD);
    assert_eq!(reader.read_bits(3).unwrap(), 0b101);
    assert_eq!(reader.read_bits(5).unwrap(), 0b11111);
}

#[test]
fn write_string_basic() {
    // 6 bytes = 48 bits = 8 ICAO chars; "ABC" padded to 8 with spaces (code 0)
    let mut writer = BitWriter::new(Vec::new());
    writer.write_string("ABC", 6).unwrap();
    assert_eq!(writer.into_inner(), vec![0x04, 0x20, 0xC0, 0x00, 0x00, 0x00]);
}

#[test]
fn write_string_padded() {
    // 3 bytes = 24 bits = 4 ICAO chars; "AB" padded to 4 with spaces (code 0)
    let mut writer = BitWriter::new(Vec::new());
    writer.write_string("AB", 3).unwrap();
    assert_eq!(writer.into_inner(), vec![0x04, 0x20, 0x00]);
}

#[test]
fn write_string_truncated() {
    // 3 bytes = 4 ICAO chars; "ABCDE" truncated to first 4 chars "ABCD"
    let mut writer = BitWriter::new(Vec::new());
    writer.write_string("ABCDE", 3).unwrap();
    assert_eq!(writer.into_inner(), vec![0x04, 0x20, 0xC4]);
}

#[test]
fn round_trip_string() {
    let buffer = {
        let mut writer = BitWriter::new(Vec::new());
        writer.write_string("TEST01", 6).unwrap();
        writer.into_inner()
    };

    let mut reader = BitReader::new(buffer);
    let s = reader.read_string(6).unwrap();
    assert_eq!(s, "TEST01");
}

#[test]
fn write_alternating_pattern() {
    let mut writer = BitWriter::new(Vec::new());

    // Write alternating bits: 01010101 = 0x55
    for i in 0..8 {
        writer.write_bits((i % 2) as u64, 1).unwrap();
    }

    assert_eq!(writer.into_inner(), vec![0x55]); // 0b01010101
}

// ── Further cases ──────────────────────────────────────────────────────

#[test]
fn write_keeps_only_the_low_bits() {
    let mut writer = BitWriter::new(Vec::new());
    writer.write_bits(0xFFFF_FFFF_FFFF_FFA5, 8).unwrap();
    assert_eq!(writer.into_inner(), vec![0xA5]);
}

#[test]
fn write_64_bits() {
    let mut writer = BitWriter::new(Vec::new());
    writer.write_bits(0x0123_4567_89AB_CDEF, 64).unwrap();
    assert_eq!(
        writer.into_inner(),
        vec![0x01, 0x23, 0x45, 0x67, 0x89, 0xAB, 0xCD, 0xEF]
    );
}

#[test]
fn bytes_reach_the_sink_as_soon_as_complete() {
    let mut writer = BitWriter::new(vec![0x99]);
    writer.write_bits(0b1111, 4).unwrap();
    assert_eq!(writer.get_ref(), &vec![0x99]);
    writer.write_bits(0b0000_1, 5).unwrap();
    assert_eq!(writer.get_ref(), &vec![0x99, 0xF0]);
    writer.flush().unwrap();
    assert_eq!(writer.into_inner(), vec![0x99, 0xF0, 0x80]);
}

#[test]
fn write_string_lower_case_and_unknown_bytes() {
    // 'a' -> 1, '-' -> 0, '9' -> 57, 'z' -> 26 : 000001|000000|111001|011010
    let mut writer = BitWriter::new(Vec::new());
    writer.write_string("a-9z", 3).unwrap();
    assert_eq!(writer.into_inner(), vec![0x04, 0x0E, 0x5A]);
}

#[test]
fn write_string_pads_leftover_bits_with_zeros() {
    // 1 byte: one 6-bit code then 2 zero bits
    let mut writer = BitWriter::new(Vec::new());
    writer.write_string("Z", 1).unwrap();
    assert!(writer.is_byte_aligned());
    assert_eq!(writer.into_inner(), vec![0x68]);
}

#[test]
fn write_then_read_at_an_unaligned_offset() {
    let buffer = {
        let mut writer = BitWriter::new(Vec::new());
        writer.write_bits(0b1, 1).unwrap();
        writer.write_string("ab c", 3).unwrap();
        writer.write_bits(0x3FF, 10).unwrap();
        writer.flush().unwrap();
        writer.into_inner()
    };
    let mut reader = BitReader::new(buffer);
    assert_eq!(reader.read_bits(1).unwrap(), 1);
    assert_eq!(reader.read_string(3).unwrap(), "AB C");
    assert_eq!(reader.read_bits(10).unwrap(), 0x3FF);
    assert_eq!(reader.read_bits(5).unwrap(), 0);
    assert!(reader.read_bits(1).is_err());
}
