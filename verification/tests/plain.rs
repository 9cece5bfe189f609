use parquet_lab::bytes::{BytesError, Span};
use parquet_lab::metadata::PhysicalType;
use parquet_lab::plain::{decode, PlainValue};

#[test]
fn byte_arrays_are_a_length_then_bytes() {
    let bytes = [2, 0, 0, 0, b'U', b'K', 0, 0, 0, 0];
    let v = decode(PhysicalType(6), None, &bytes, 10, 2).unwrap();
    assert_eq!(v[0], (PlainValue::Bytes(b"UK".to_vec()), Span::new(10, 16)));
    assert_eq!(v[1], (PlainValue::Bytes(vec![]), Span::new(16, 20)));
}

#[test]
fn booleans_are_one_bit_each() {
    let v = decode(PhysicalType(0), None, &[0b0000_0101], 0, 3).unwrap();
    let bools: Vec<_> = v.iter().map(|(b, _)| b.clone()).collect();
    assert_eq!(
        bools,
        [PlainValue::Bool(true), PlainValue::Bool(false), PlainValue::Bool(true)]
    );
}

#[test]
fn integers_are_little_endian_and_signed() {
    let mut bytes = (-3i32).to_le_bytes().to_vec();
    bytes.extend_from_slice(&7i64.to_le_bytes());
    assert_eq!(
        decode(PhysicalType(1), None, &bytes[..4], 0, 1).unwrap()[0].0,
        PlainValue::Int(-3)
    );
    assert_eq!(decode(PhysicalType(2), None, &bytes[4..], 4, 1).unwrap()[0].1, Span::new(4, 12));
}

#[test]
fn floats_keep_the_bits_they_were_written_as() {
    let mut bytes = 1.5f32.to_bits().to_le_bytes().to_vec();
    bytes.extend_from_slice(&(-2.25f64).to_bits().to_le_bytes());
    let f = decode(PhysicalType(4), None, &bytes[..4], 0, 1).unwrap();
    assert_eq!(f[0].0, PlainValue::Float32(1.5f32.to_bits()));
    let d = decode(PhysicalType(5), None, &bytes[4..], 4, 1).unwrap();
    assert_eq!(d[0], (PlainValue::Float64((-2.25f64).to_bits()), Span::new(4, 12)));
}

#[test]
fn fixed_length_values_take_the_declared_length() {
    let v = decode(PhysicalType(7), Some(3), b"abcdef", 0, 2).unwrap();
    assert_eq!(v[1], (PlainValue::Bytes(b"def".to_vec()), Span::new(3, 6)));
}

#[test]
fn values_that_run_past_the_end_are_an_error() {
    assert_eq!(
        decode(PhysicalType(6), None, &[5, 0, 0, 0, 1], 20, 1),
        Err(BytesError::UnexpectedEnd { offset: 24, wanted: 5 })
    );
    assert_eq!(
        decode(PhysicalType(0), None, &[1], 0, 9),
        Err(BytesError::UnexpectedEnd { offset: 0, wanted: 2 })
    );
}

#[test]
fn a_value_goes_back_to_the_bytes_statistics_store() {
    assert_eq!(PlainValue::Int(-3).to_plain_bytes(PhysicalType(1)), (-3i32).to_le_bytes());
    assert_eq!(PlainValue::Int(7).to_plain_bytes(PhysicalType(2)), 7i64.to_le_bytes());
    assert_eq!(PlainValue::Bool(true).to_plain_bytes(PhysicalType(0)), [1]);
    assert_eq!(
        PlainValue::Float32(1.5f32.to_bits()).to_plain_bytes(PhysicalType(4)),
        1.5f32.to_le_bytes()
    );
    assert_eq!(PlainValue::Bytes(b"UK".to_vec()).to_plain_bytes(PhysicalType(6)), b"UK");
    // Decoding and back gives the same bytes.
    let bytes = 20456i32.to_le_bytes();
    let v = decode(PhysicalType(1), None, &bytes, 0, 1).unwrap();
    assert_eq!(v[0].0.to_plain_bytes(PhysicalType(1)), bytes);
}
