use parquet_lab::bytes::Span;
use parquet_lab::rle::{bit_width, decode, values, RunKind};

#[test]
fn bit_width_is_the_bits_needed_for_the_maximum() {
    let widths: Vec<u32> = [0, 1, 2, 3, 4, 7, 8, 255, 256].iter().map(|&m| bit_width(m)).collect();
    assert_eq!(widths, [0, 1, 2, 2, 3, 3, 4, 8, 9]);
}

#[test]
fn an_rle_run_repeats_one_value() {
    let runs = decode(&[0x08, 0x01], 100, 1, 4).unwrap();
    assert_eq!(runs.len(), 1);
    assert_eq!(runs[0].kind, RunKind::Rle);
    assert_eq!(runs[0].values, [1, 1, 1, 1]);
    assert_eq!(runs[0].header, Span::new(100, 101));
    assert_eq!(runs[0].body, Span::new(101, 102));
}

#[test]
fn a_bit_packed_run_packs_least_significant_bit_first() {
    let runs = decode(&[0x03, 0x88, 0xc6, 0xfa], 0, 3, 8).unwrap();
    assert_eq!(runs[0].kind, RunKind::BitPacked);
    assert_eq!(runs[0].values, [0, 1, 2, 3, 4, 5, 6, 7]);
}

#[test]
fn padding_past_the_count_is_dropped() {
    let runs = decode(&[0x03, 0x88, 0xc6, 0xfa], 0, 3, 5).unwrap();
    assert_eq!(values(&runs), [0, 1, 2, 3, 4]);
}

#[test]
fn runs_follow_one_another() {
    let runs = decode(&[0x06, 0x02, 0x03, 0b1100_0001, 0b0000_0010], 0, 2, 7).unwrap();
    assert_eq!(values(&runs), [2, 2, 2, 1, 0, 0, 3]);
}

#[test]
fn a_stream_that_ends_early_is_an_error() {
    assert!(decode(&[0x03, 0x88], 0, 3, 8).is_err());
    assert!(decode(&[], 0, 1, 1).is_err());
}

#[test]
fn wide_rle_values_are_little_endian_and_names_are_given() {
    let runs = decode(&[0x04, 0x34, 0x12], 0, 16, 2).unwrap();
    assert_eq!(runs[0].values, [0x1234, 0x1234]);
    assert_eq!(RunKind::Rle.name(), "RLE");
    assert_eq!(RunKind::BitPacked.name(), "bit-packed");
    assert_eq!(bit_width(u32::MAX), 32);
}
