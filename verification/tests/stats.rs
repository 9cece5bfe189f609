use std::cmp::Ordering;

use parquet_lab::bytes::Span;
use parquet_lab::metadata::Statistics;
use parquet_lab::stats::{bounds, Comparator, SortOrder, Source};

#[test]
fn unsigned_and_signed_disagree_above_two_to_the_31() {
    let big = 3_000_000_000u32.to_le_bytes();
    let small = 7u32.to_le_bytes();
    assert_eq!(Comparator::U32.compare(&big, &small), Some(Ordering::Greater));
    assert_eq!(Comparator::I32.compare(&big, &small), Some(Ordering::Less));
}

#[test]
fn strings_sort_by_unsigned_bytes() {
    let lodz = "Łódź".as_bytes();
    assert_eq!(Comparator::Bytes.compare(b"Leeds", lodz), Some(Ordering::Less));
    assert_eq!(Comparator::SignedBytes.compare(b"Leeds", lodz), Some(Ordering::Greater));
    assert_eq!(Comparator::Bytes.compare(b"Oslo", b"Os"), Some(Ordering::Greater));
}

#[test]
fn decimals_compare_by_value_and_nan_has_no_place() {
    let minus = (-500i32).to_be_bytes();
    let plus = 1999i32.to_be_bytes();
    assert_eq!(Comparator::BigEndianSigned.compare(&minus, &plus), Some(Ordering::Less));
    assert_eq!(Comparator::Bytes.compare(&minus, &plus), Some(Ordering::Greater));
    let nan = f64::NAN.to_le_bytes();
    assert_eq!(Comparator::F64.compare(&nan, &1.0f64.to_le_bytes()), None);
    let vals = [nan, 2.0f64.to_le_bytes(), (-1.0f64).to_le_bytes()];
    let refs: Vec<&[u8]> = vals.iter().map(|v| &v[..]).collect();
    let (lo, hi) = Comparator::F64.min_max(&refs).unwrap();
    assert_eq!(
        (
            f64::from_le_bytes(lo.try_into().unwrap()),
            f64::from_le_bytes(hi.try_into().unwrap())
        ),
        (-1.0, 2.0)
    );
}

#[test]
fn floats_order_by_value_through_their_bits() {
    let f = |x: f32| x.to_le_bytes();
    assert_eq!(Comparator::F32.compare(&f(-2.0), &f(-1.0)), Some(Ordering::Less));
    assert_eq!(Comparator::F32.compare(&f(-0.0), &f(0.0)), Some(Ordering::Equal));
    assert_eq!(Comparator::F32.compare(&f(f32::INFINITY), &f(1e30)), Some(Ordering::Greater));
    assert_eq!(Comparator::FloatBits.compare(&f(-2.0), &f(-1.0)), Some(Ordering::Greater));
    // Half floats: 0x3c00 is 1.0, 0xc000 is -2.0, 0x7e00 is NaN.
    assert_eq!(Comparator::F16.compare(&[0x00, 0xc0], &[0x00, 0x3c]), Some(Ordering::Less));
    assert_eq!(Comparator::F16.compare(&[0x00, 0x7e], &[0x00, 0x3c]), None);
    assert_eq!(Comparator::I64.compare(&[1, 2], &[1, 2]), None);
    assert_eq!(Comparator::NoOrder.compare(b"a", b"a"), None);
    assert_eq!(Comparator::U64.order(), SortOrder::Unsigned);
    assert_eq!(Comparator::Bytes.mistake().map(|m| m.0), Some(Comparator::SignedBytes));
}

fn stats(min_value: Option<Vec<u8>>, max_value: Option<Vec<u8>>, min: Option<Vec<u8>>, max: Option<Vec<u8>>) -> Statistics {
    Statistics {
        min_value,
        max_value,
        min_span: None,
        max_span: None,
        min,
        max,
        min_deprecated_span: None,
        max_deprecated_span: None,
        null_count: None,
        is_max_value_exact: None,
        is_min_value_exact: Some(false),
        span: Span::new(0, 0),
    }
}

#[test]
fn bounds_follow_the_rules_for_which_fields_to_believe() {
    let one = 1i32.to_le_bytes().to_vec();
    let nine = 9i32.to_le_bytes().to_vec();
    let s = stats(Some(one.clone()), Some(nine.clone()), None, None);
    let b = bounds(&s, Comparator::I32, true).unwrap();
    assert_eq!((b.min, b.max, b.source, b.min_exact, b.max_exact), (one.clone(), nine.clone(), Source::MinMaxValue, false, true));
    assert_eq!(
        bounds(&s, Comparator::I32, false),
        Err("the footer has no column_orders, so the order of min_value and max_value is undefined".to_string())
    );
    let old = stats(None, None, Some(one.clone()), Some(nine.clone()));
    assert_eq!(bounds(&old, Comparator::I32, false).unwrap().source, Source::Deprecated);
    assert_eq!(
        bounds(&old, Comparator::Bytes, true),
        Err("only the deprecated min and max are present, and they were computed with signed comparison; this column's order is unsigned bytes".to_string())
    );
    assert!(bounds(&stats(None, None, None, None), Comparator::I32, true).is_err());
}
