use parquet_lab::bytes::{crc32, le_terms, read_le_u32, zigzag_decode, ByteReader, BytesError, Span};

#[test]
fn little_endian_puts_the_least_significant_byte_first() {
    assert_eq!(read_le_u32([0x7c, 0x01, 0x00, 0x00]), 380);
    assert_eq!(read_le_u32([0x00, 0x00, 0x00, 0x01]), 1 << 24);
}

#[test]
fn le_terms_sum_to_the_value() {
    let bytes = [0x7c, 0x01, 0x00, 0x00];
    let sum: u64 = le_terms(&bytes).iter().map(|&(b, w)| u64::from(b) * w).sum();
    assert_eq!(sum, u64::from(read_le_u32(bytes)));
}

#[test]
fn zigzag_interleaves_the_signed_integers() {
    let decoded: Vec<i64> = (0..6).map(zigzag_decode).collect();
    assert_eq!(decoded, [0, -1, 1, -2, 2, -3]);
    assert_eq!(zigzag_decode(u64::MAX), i64::MIN);
}

#[test]
fn uleb128_reads_seven_bits_per_byte() {
    let mut r = ByteReader::new(&[0x96, 0x01, 0x05], 100);
    assert_eq!(r.read_uleb128().unwrap(), 150);
    assert_eq!(r.offset(), 102);
    assert_eq!(r.read_uleb128().unwrap(), 5);
    assert!(r.is_at_end());
}

#[test]
fn a_varint_that_never_ends_is_an_error_not_a_panic() {
    let mut r = ByteReader::new(&[0xff; 11], 0);
    assert_eq!(r.read_uleb128(), Err(BytesError::VarintTooLong { offset: 0 }));
    let mut r = ByteReader::new(&[0x80, 0x80], 7);
    assert_eq!(
        r.read_uleb128(),
        Err(BytesError::UnexpectedEnd { offset: 9, wanted: 1 })
    );
}

#[test]
fn crc32_matches_the_standard_check_value() {
    assert_eq!(crc32(b"123456789"), 0xcbf4_3926);
    assert_eq!(crc32(b""), 0);
}

#[test]
fn spans_are_absolute_file_offsets() {
    let mut r = ByteReader::new(b"abcdef", 1000);
    r.read_u8().unwrap();
    let (bytes, span) = r.read_bytes(3).unwrap();
    assert_eq!(bytes, b"bcd");
    assert_eq!(span, Span::new(1001, 1004));
    assert_eq!(span.http_range(), "bytes=1001-1003");
}

#[test]
fn ten_byte_varints_keep_only_sixty_four_bits() {
    let mut r = ByteReader::new(&[0xff, 0xff, 0xff, 0xff, 0xff, 0xff, 0xff, 0xff, 0xff, 0x01], 0);
    assert_eq!(r.read_uleb128().unwrap(), u64::MAX);
    assert_eq!(r.remaining(), 0);
}

#[test]
fn fixed_width_reads_are_little_endian() {
    let mut r = ByteReader::new(&[1, 0, 0, 0, 2, 0, 0, 0, 0, 0, 0, 1, 9], 5);
    assert_eq!(r.read_le_u32().unwrap(), 1);
    assert_eq!(r.read_le_u64().unwrap(), 2 + (1u64 << 56));
    assert_eq!(r.read_zigzag().unwrap(), -5);
    assert_eq!(r.read_u8(), Err(BytesError::UnexpectedEnd { offset: 18, wanted: 1 }));
    assert_eq!(r.read_bytes(2), Err(BytesError::UnexpectedEnd { offset: 18, wanted: 2 }));
}

#[test]
fn span_arithmetic() {
    let s = Span::new(10, 20);
    assert_eq!(s.len(), 10);
    assert!(!s.is_empty());
    assert!(Span::new(3, 3).is_empty());
    assert!(s.contains(Span::new(12, 20)));
    assert!(!s.contains(Span::new(9, 12)));
    assert_eq!(le_terms(&[1, 2]), vec![(1, 1), (2, 256)]);
}
