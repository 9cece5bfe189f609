use parquet_lab::bytes::{BytesError, Span};
use parquet_lab::delta::{binary_packed, byte_array, byte_stream_split, length_byte_array};
use parquet_lab::plain::PlainValue;

#[test]
fn a_constant_step_packs_into_nothing() {
    // Block of 128 in 4 miniblocks, 5 values, first 7 (zigzag 14). One block: min delta 1
    // (zigzag 2), widths 0,0,0,0, and no miniblock bytes at all.
    let bytes = [0x80, 0x01, 0x04, 0x05, 0x0e, 0x02, 0, 0, 0, 0];
    let d = binary_packed(&bytes, 0).unwrap();
    let end = d.end;
    let v: Vec<i64> = d.values.iter().map(|(v, _)| *v).collect();
    assert_eq!(v, [7, 8, 9, 10, 11]);
    assert_eq!(end, 10);
}

#[test]
fn deltas_above_the_minimum_are_bit_packed() {
    // Values 1, 3, 4, 8: deltas 2, 1, 4; min 1; adjusted 1, 0, 3 at 2 bits. A miniblock of 32
    // values at 2 bits is 8 bytes, the first holding 1 | 0<<2 | 3<<4 = 0x31.
    let mut bytes = vec![0x80, 0x01, 0x04, 0x04, 0x02, 0x02, 2, 0, 0, 0, 0x31];
    bytes.extend_from_slice(&[0; 7]);
    let d = binary_packed(&bytes, 0).unwrap();
    let steps = d.steps;
    let v: Vec<i64> = d.values.iter().map(|(v, _)| *v).collect();
    assert_eq!(v, [1, 3, 4, 8]);
    assert!(steps.iter().any(|s| s.detail.contains("deltas [2, 1, 4]")));
}

#[test]
fn byte_stream_split_interleaves_by_byte_position() {
    let v = byte_stream_split(&[1, 2, 10, 20], 0, 2, 2).unwrap();
    assert_eq!(v[0].0, [1, 10]);
    assert_eq!(v[1].0, [2, 20]);
    assert_eq!(v[1].1, [Span::new(1, 2), Span::new(3, 4)]);
}

#[test]
fn the_header_and_block_steps_say_what_they_read() {
    let bytes = [0x80, 0x01, 0x04, 0x05, 0x0e, 0x02, 0, 0, 0, 0];
    let d = binary_packed(&bytes, 100).unwrap();
    assert_eq!(d.steps[0].label, "header");
    assert_eq!(
        d.steps[0].detail,
        "blocks of 128 values in 4 miniblocks; 5 values; the first is 7"
    );
    assert_eq!(d.steps[0].span, Span::new(100, 105));
    assert_eq!(d.steps[1].label, "block 0");
    assert_eq!(d.steps[1].detail, "smallest delta 1; bit widths [0, 0, 0, 0]");
    assert_eq!(d.steps[2].label, "block 0, miniblock 0");
    assert_eq!(d.steps[2].detail, "0 bits per delta; deltas [1, 1, 1, 1]");
    assert_eq!(d.values[0].1, Span::new(100, 105));
    assert_eq!(d.end, 110);
}

#[test]
fn no_values_means_no_blocks() {
    let bytes = [0x80, 0x01, 0x04, 0x00, 0x0e];
    let d = binary_packed(&bytes, 0).unwrap();
    assert!(d.values.is_empty());
    assert_eq!(d.steps.len(), 1);
    assert_eq!(d.end, 5);
}

#[test]
fn a_truncated_block_is_an_error() {
    // Five values promised, but the widths of the first block are missing.
    let bytes = [0x80, 0x01, 0x04, 0x05, 0x0e, 0x02, 0];
    let e = binary_packed(&bytes, 0).unwrap_err();
    assert_eq!(e, BytesError::UnexpectedEnd { offset: 6, wanted: 4 });
}

#[test]
fn byte_stream_split_needs_every_byte() {
    let e = byte_stream_split(&[1, 2, 3], 10, 2, 2).unwrap_err();
    assert_eq!(e, BytesError::UnexpectedEnd { offset: 13, wanted: 1 });
}

#[test]
fn length_byte_arrays_are_lengths_then_every_value_back_to_back() {
    // Lengths 2 and 3: the first is 2 (zigzag 4), the one delta 1 (zigzag 2).
    let mut bytes = vec![0x80, 0x01, 0x04, 0x02, 0x04, 0x02, 0, 0, 0, 0];
    bytes.extend_from_slice(b"abcde");
    let d = length_byte_array(&bytes, 0).unwrap();
    assert_eq!(d.values.len(), 2);
    assert_eq!(d.values[0].value, PlainValue::Bytes(b"ab".to_vec()));
    assert_eq!(d.values[0].span, Span::new(10, 12));
    assert_eq!(d.values[1].value, PlainValue::Bytes(b"cde".to_vec()));
    assert_eq!(d.values[1].span, Span::new(12, 15));
    assert_eq!(d.steps[0].label, "lengths: header");
    let last = d.steps.last().unwrap();
    assert_eq!(last.label, "bytes");
    assert_eq!(last.span, Span::new(10, 15));
    assert_eq!(last.detail, "2 values' bytes, back to back");
    assert_eq!(d.end, 15);
    // A length that runs past the end.
    assert_eq!(
        length_byte_array(&bytes[..13], 0).unwrap_err(),
        BytesError::UnexpectedEnd { offset: 12, wanted: 3 }
    );
}

#[test]
fn byte_arrays_share_a_prefix_with_the_value_before() {
    // Prefix lengths 0 and 2; suffixes "abc" and "d".
    let mut bytes = vec![0x80, 0x01, 0x04, 0x02, 0x00, 0x04, 0, 0, 0, 0];
    bytes.extend_from_slice(&[0x80, 0x01, 0x04, 0x02, 0x06, 0x03, 0, 0, 0, 0]);
    bytes.extend_from_slice(b"abcd");
    let d = byte_array(&bytes, 0).unwrap();
    assert_eq!(d.values.len(), 2);
    assert_eq!(d.values[0].value, PlainValue::Bytes(b"abc".to_vec()));
    assert_eq!(d.values[1].value, PlainValue::Bytes(b"abd".to_vec()));
    assert_eq!(d.values[1].span, Span::new(23, 24));
    assert_eq!(d.values[1].extra.len(), 2);
    assert_eq!(d.steps[0].label, "prefix lengths: header");
    assert!(d.steps.iter().any(|s| s.label == "suffixes: bytes"));
    assert_eq!(d.end, 24);
}
