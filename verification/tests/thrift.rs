use parquet_lab::bytes::{ByteReader, BytesError, Span};
use parquet_lab::thrift::{read_struct, Struct, ThriftError, Value, WireType};

fn decode(bytes: &[u8]) -> Struct {
    let mut r = ByteReader::new(bytes, 0);
    match read_struct(&mut r).unwrap().value {
        Value::Struct(s) => s,
        other => panic!("not a struct: {other:?}"),
    }
}

#[test]
fn a_field_header_packs_the_id_delta_and_the_type() {
    let s = decode(&[0x15, 0x04, 0x00]);
    assert_eq!(s.fields.len(), 1);
    let f = &s.fields[0];
    assert_eq!((f.id, f.wire), (1, WireType::I32));
    assert_eq!(f.header, Span::new(0, 1));
    assert_eq!(f.node.span, Span::new(1, 2));
    assert_eq!(f.node.value, Value::Int(2));
}

#[test]
fn deltas_accumulate_from_the_previous_field() {
    let s = decode(&[0x15, 0x02, 0x26, 0x01, 0x00]);
    assert_eq!(s.fields[1].id, 3);
    assert_eq!(s.fields[1].node.value, Value::Int(-1));
}

#[test]
fn a_zero_delta_means_the_id_follows_as_a_varint() {
    let s = decode(&[0x05, 0x28, 0x02, 0x00]);
    assert_eq!(s.fields[0].id, 20);
    assert_eq!(s.fields[0].header, Span::new(0, 2));
}

#[test]
fn booleans_live_in_the_header() {
    let s = decode(&[0x11, 0x12, 0x00]);
    assert_eq!(s.fields[0].node.value, Value::Bool(true));
    assert_eq!(s.fields[1].node.value, Value::Bool(false));
    assert_eq!(s.fields[1].node.span, s.fields[1].header);
}

#[test]
fn binary_is_a_length_then_bytes() {
    let s = decode(&[0x18, 0x02, b'U', b'K', 0x00]);
    assert_eq!(s.fields[0].node.value, Value::Binary(b"UK".to_vec()));
    assert_eq!(s.fields[0].node.span, Span::new(1, 4));
}

#[test]
fn a_list_header_packs_the_size_and_element_type() {
    let s = decode(&[0x19, 0x35, 0x00, 0x01, 0x02, 0x00]);
    match &s.fields[0].node.value {
        Value::List(items) => {
            let ints: Vec<&Value> = items.iter().map(|n| &n.value).collect();
            assert_eq!(ints, [&Value::Int(0), &Value::Int(-1), &Value::Int(1)]);
        }
        other => panic!("{other:?}"),
    }
}

#[test]
fn nested_structs_carry_their_own_stop_byte() {
    let s = decode(&[0x1c, 0x15, 0x06, 0x00, 0x15, 0x08, 0x00]);
    assert_eq!(s.fields[0].node.span, Span::new(1, 4));
    assert_eq!(s.fields[1].id, 2);
}

#[test]
fn truncated_input_is_an_error_with_an_offset() {
    let mut r = ByteReader::new(&[0x18, 0x05, b'a'], 500);
    let err = read_struct(&mut r).unwrap_err();
    assert_eq!(err, ThriftError::Bytes(BytesError::UnexpectedEnd { offset: 502, wanted: 5 }));
}

#[test]
fn unknown_wire_types_are_refused() {
    let mut r = ByteReader::new(&[0x1e], 0);
    assert!(matches!(read_struct(&mut r), Err(ThriftError::UnknownWireType { nibble: 14, .. })));
}

#[test]
fn maps_doubles_and_lookups_by_id() {
    // field 1: map of one i32 -> binary; field 2: double 1.5; field 3: a list of 16 bytes.
    let mut bytes = vec![0x1b, 0x01, 0x58, 0x04, 0x01, b'x', 0x17];
    bytes.extend_from_slice(&1.5f64.to_le_bytes());
    bytes.extend_from_slice(&[0x19, 0xf3, 0x10]);
    bytes.extend_from_slice(&[7; 16]);
    bytes.push(0x00);
    let s = decode(&bytes);
    match &s.fields[0].node.value {
        Value::MapOf(entries) => {
            assert_eq!(entries.len(), 1);
            assert_eq!(entries[0].0.value, Value::Int(2));
            assert_eq!(entries[0].1.value, Value::Binary(b"x".to_vec()));
        }
        other => panic!("{other:?}"),
    }
    assert_eq!(s.fields[1].node.value, Value::Double(1.5f64.to_bits()));
    assert_eq!(s.field(2).unwrap().wire, WireType::Double);
    assert!(s.field(9).is_none());
    match &s.field(3).unwrap().node.value {
        Value::List(items) => assert_eq!(items.len(), 16),
        other => panic!("{other:?}"),
    }
    assert_eq!(s.fields[0].span(), Span::new(0, 6));
    assert_eq!(WireType::from_nibble(7), Some(WireType::Double));
    assert_eq!(WireType::from_nibble(0), None);
    assert_eq!(WireType::MapOf.name(), "map");
}

#[test]
fn nesting_past_the_limit_is_refused() {
    // Sixty-six structs, each the first field of the one around it.
    let mut bytes = vec![0x1c; 66];
    bytes.extend_from_slice(&[0x00; 67]);
    let mut r = ByteReader::new(&bytes, 0);
    assert!(matches!(read_struct(&mut r), Err(ThriftError::TooDeep { .. })));
}
