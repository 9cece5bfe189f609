use parquet_lab::encoding::scalar_text;
use parquet_lab::metadata::PhysicalType;

#[test]
fn plain_numbers_are_little_endian() {
    assert_eq!(scalar_text(PhysicalType(2), &4i64.to_le_bytes()), Some("4".into()));
    assert_eq!(scalar_text(PhysicalType(1), &(-2i32).to_le_bytes()), Some("-2".into()));
}

#[test]
fn floating_point_values_are_left_to_the_caller() {
    assert_eq!(scalar_text(PhysicalType(5), &1.5f64.to_le_bytes()), None);
    assert_eq!(scalar_text(PhysicalType(4), &1.5f32.to_le_bytes()), None);
}

#[test]
fn byte_arrays_show_as_text_when_they_are_text() {
    assert_eq!(scalar_text(PhysicalType(6), b"UK"), Some("\"UK\"".into()));
    assert_eq!(scalar_text(PhysicalType(6), &[0, 1]), Some("00 01".into()));
}

#[test]
fn a_value_of_the_wrong_width_is_not_guessed_at() {
    assert_eq!(scalar_text(PhysicalType(2), &[1, 2, 3]), None);
}
