use parquet_lab::bytes::Span;
use parquet_lab::decode::values;
use parquet_lab::metadata::PhysicalType;
use parquet_lab::plain::PlainValue;

#[test]
fn plain_values_come_with_a_step_each() {
    let mut bytes = 5i32.to_le_bytes().to_vec();
    bytes.extend_from_slice(&(-1i32).to_le_bytes());
    let d = values("PLAIN", PhysicalType(1), None, &bytes, 100, 2, None).unwrap();
    assert_eq!(d.values[1].value, PlainValue::Int(-1));
    assert_eq!(d.values[1].span, Span::new(104, 108));
    assert_eq!(d.steps[0].label, "value 0");
    assert_eq!(d.steps[0].detail, "5");
    assert_eq!(d.end, 108);
    let text = values("PLAIN", PhysicalType(6), None, &[2, 0, 0, 0, b'a', b'"'], 0, 1, None).unwrap();
    assert_eq!(text.steps[0].detail, "\"a\\\"\"");
    let big = values("PLAIN", PhysicalType(2), None, &(1i64 << 60).to_le_bytes(), 0, 1, None).unwrap();
    assert_eq!(big.steps[0].detail, "\"1152921504606846976\"");
}

#[test]
fn dictionary_indices_name_the_dictionary_entries() {
    let dict = vec![
        (PlainValue::Bytes(b"UK".to_vec()), Span::new(10, 16)),
        (PlainValue::Bytes(b"FR".to_vec()), Span::new(16, 22)),
    ];
    // Bit width 1; one RLE run of 3 ones (header 3 << 1 = 6, value byte 1).
    let d = values("RLE_DICTIONARY", PhysicalType(6), None, &[1, 6, 1], 50, 3, Some(&dict)).unwrap();
    assert_eq!(d.values.len(), 3);
    assert_eq!(d.values[2].value, PlainValue::Bytes(b"FR".to_vec()));
    assert_eq!(d.values[2].span, Span::new(16, 22));
    assert_eq!(d.values[2].extra, [Span::new(52, 53)]);
    assert_eq!(d.steps[0].detail, "1 bits per index: enough for 2 dictionary entries");
    assert_eq!(d.steps[1].label, "run 0");
    assert_eq!(d.steps[1].detail, "RLE: indices [1, 1, 1]");
    assert_eq!(d.end, 53);
    let past = values("RLE_DICTIONARY", PhysicalType(6), None, &[2, 2, 3], 50, 1, Some(&dict));
    assert_eq!(past.unwrap_err(), "offset 52: index 3 is past the dictionary's 2 entries");
    let none = values("PLAIN_DICTIONARY", PhysicalType(6), None, &[1, 6, 1], 50, 3, None);
    assert_eq!(none.unwrap_err(), "offset 50: dictionary indices, but no dictionary page came first");
}

#[test]
fn delta_values_must_be_as_many_as_the_page_says() {
    let bytes = [0x80, 0x01, 0x04, 0x05, 0x0e, 0x02, 0, 0, 0, 0];
    let d = values("DELTA_BINARY_PACKED", PhysicalType(2), None, &bytes, 0, 5, None).unwrap();
    assert_eq!(d.values[4].value, PlainValue::Int(11));
    let wrong = values("DELTA_BINARY_PACKED", PhysicalType(2), None, &bytes, 0, 4, None);
    assert_eq!(wrong.unwrap_err(), "offset 0: the header counts 5 values, the page 4");
}

#[test]
fn byte_stream_split_puts_each_value_back_together() {
    let a = 1.5f32.to_le_bytes();
    let b = (-2.0f32).to_le_bytes();
    let bytes: Vec<u8> = (0..4).flat_map(|k| [a[k], b[k]]).collect();
    let d = values("BYTE_STREAM_SPLIT", PhysicalType(4), None, &bytes, 0, 2, None).unwrap();
    assert_eq!(d.values[1].value, PlainValue::Float32((-2.0f32).to_bits()));
    assert_eq!(d.values[1].span, Span::new(1, 2));
    assert_eq!(d.values[1].extra.len(), 3);
    assert_eq!(d.steps[3].label, "stream 3");
    assert_eq!(d.steps[3].detail, "byte 3 of every value");
    assert_eq!(d.end, 8);
}

#[test]
fn an_encoding_the_reader_lacks_is_named() {
    let e = values("BIT_PACKED", PhysicalType(1), None, &[], 7, 0, None).unwrap_err();
    assert_eq!(e, "offset 7: the BIT_PACKED encoding is not implemented by this reader");
}
