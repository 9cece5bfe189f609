use parquet_lab::logical::{
    be_twos_complement, date_from_days, decimal, int96_timestamp, interpret, timestamp,
    LogicalType, TimeUnit,
};
use parquet_lab::metadata::PhysicalType;

#[test]
fn logical_day_numbers_are_dates() {
    assert_eq!(date_from_days(0), "1970-01-01");
    assert_eq!(date_from_days(20456), "2026-01-03");
    assert_eq!(date_from_days(-1), "1969-12-31");
    assert_eq!(date_from_days(11016), "2000-02-29");
}

#[test]
fn timestamps_keep_their_unit_and_their_zone() {
    assert_eq!(timestamp(0, TimeUnit::Micros, true), "1970-01-01T00:00:00Z");
    assert_eq!(
        timestamp(1_767_432_600_000_000, TimeUnit::Micros, true),
        "2026-01-03T09:30:00Z"
    );
    assert_eq!(timestamp(1_500, TimeUnit::Millis, false), "1970-01-01T00:00:01.500");
    assert_eq!(timestamp(-1, TimeUnit::Nanos, true), "1969-12-31T23:59:59.999999999Z");
}

#[test]
fn decimals_put_the_point_where_the_scale_says() {
    assert_eq!(decimal(12345, 2), "123.45");
    assert_eq!(decimal(-5, 2), "-0.05");
    assert_eq!(decimal(500, 2), "5.00");
    assert_eq!(decimal(7, 0), "7");
    assert_eq!(decimal(7, -2), "700");
}

#[test]
fn decimal_bytes_are_big_endian_twos_complement() {
    assert_eq!(be_twos_complement(&[0x00, 0x00, 0x07, 0xcf]), Some(1999));
    assert_eq!(be_twos_complement(&[0xff, 0xff]), Some(-1));
    assert_eq!(be_twos_complement(&[0x80]), Some(-128));
    assert_eq!(be_twos_complement(&[]), None);
}

#[test]
fn the_same_bytes_mean_what_the_logical_type_says() {
    let bytes = 20456i32.to_le_bytes();
    let int32 = PhysicalType(1);
    assert_eq!(
        interpret(int32, &LogicalType::Date, &bytes).as_deref(),
        Some("2026-01-03")
    );
    let neg = (-1i32).to_le_bytes();
    let unsigned = LogicalType::Integer {
        bit_width: 32,
        signed: false,
    };
    assert_eq!(interpret(int32, &unsigned, &neg).as_deref(), Some("4294967295"));
    let dec = LogicalType::Decimal {
        scale: 2,
        precision: 9,
    };
    assert_eq!(
        interpret(PhysicalType(7), &dec, &[0, 0, 0x01, 0xf4]).as_deref(),
        Some("5.00")
    );
}

#[test]
fn int96_is_nanoseconds_and_a_julian_day() {
    let mut b = Vec::new();
    b.extend_from_slice(&(3_600_000_000_000i64).to_le_bytes());
    b.extend_from_slice(&2_440_589i32.to_le_bytes());
    assert_eq!(int96_timestamp(&b).as_deref(), Some("1970-01-02T01:00:00"));
}

#[test]
fn strings_uuids_and_times_read_through_their_types() {
    let text = LogicalType::String;
    assert_eq!(
        interpret(PhysicalType(6), &text, b"UK").as_deref(),
        Some("\"UK\"")
    );
    assert_eq!(interpret(PhysicalType(6), &text, &[0xff]), None);
    let uuid: Vec<u8> = (0u8..16).collect();
    assert_eq!(
        interpret(PhysicalType(7), &LogicalType::Uuid, &uuid).as_deref(),
        Some("00010203-0405-0607-0809-0a0b0c0d0e0f")
    );
    let time = LogicalType::Time {
        utc: true,
        unit: Some(TimeUnit::Millis),
    };
    assert_eq!(
        interpret(PhysicalType(1), &time, &3_723_004i32.to_le_bytes()).as_deref(),
        Some("01:02:03.004")
    );
    // A value of the wrong width is not read.
    assert_eq!(interpret(PhysicalType(1), &LogicalType::Date, &[1, 2]), None);
    assert_eq!(int96_timestamp(&[0; 11]), None);
}

#[test]
fn logical_types_name_themselves() {
    let dec = LogicalType::Decimal {
        scale: 2,
        precision: 9,
    };
    assert_eq!(dec.to_string(), "DECIMAL(9, 2)");
    let ts = LogicalType::Timestamp {
        utc: false,
        unit: Some(TimeUnit::Nanos),
    };
    assert_eq!(ts.to_string(), "TIMESTAMP(NANOS, local)");
    let int = LogicalType::Integer {
        bit_width: 16,
        signed: false,
    };
    assert_eq!(int.to_string(), "INTEGER(16, unsigned)");
    assert_eq!(LogicalType::Other(40).to_string(), "logical type 40");
}

#[test]
fn a_signed_integer_as_wide_as_its_physical_type_adds_nothing() {
    let b = 20456i32.to_le_bytes();
    let signed32 = LogicalType::Integer { bit_width: 32, signed: true };
    assert_eq!(interpret(PhysicalType(1), &signed32, &b), None);
    let signed64 = LogicalType::Integer { bit_width: 64, signed: true };
    assert_eq!(interpret(PhysicalType(2), &signed64, &(-5i64).to_le_bytes()), None);
    assert_eq!(interpret(PhysicalType(1), &LogicalType::Date, &[1, 2, 3]), None);
}
