use parquet_lab::bytes::Span;
use parquet_lab::page_index::{column_index, offset_index, PageLocation};

fn file_with(body: &[u8]) -> Vec<u8> {
    let mut f = b"PAR1".to_vec();
    f.extend_from_slice(body);
    f
}

#[test]
fn a_column_index_lists_each_pages_bounds() {
    let body = [
        0x19, 0x21, 0x01, 0x02, // null_pages: true, false
        0x19, 0x28, 0x00, 0x01, 0x05, // min_values: "", [5]
        0x19, 0x28, 0x00, 0x01, 0x09, // max_values: "", [9]
        0x15, 0x02, // boundary_order: ASCENDING
        0x19, 0x26, 0x06, 0x00, // null_counts: 3, 0
        0x00,
    ];
    let file = file_with(&body);
    let ci = column_index(&file, Some(Span { start: 4, end: 25 })).unwrap().unwrap();
    assert_eq!(ci.null_pages, vec![true, false]);
    assert_eq!(ci.min_values, vec![vec![], vec![5]]);
    assert_eq!(ci.max_values, vec![vec![], vec![9]]);
    assert_eq!(ci.boundary_order, "ASCENDING");
    assert_eq!(ci.null_counts, Some(vec![3, 0]));
    assert_eq!(ci.span, Span { start: 4, end: 25 });
}

#[test]
fn a_chunk_without_an_index_has_none() {
    assert!(column_index(b"PAR1", None).unwrap().is_none());
    assert!(offset_index(b"PAR1", None).unwrap().is_none());
}

#[test]
fn an_index_past_the_end_of_the_file_is_an_error() {
    let err = column_index(b"PAR1", Some(Span { start: 2, end: 9 })).unwrap_err();
    assert_eq!(err, "the ColumnIndex at [2, 9) is past the end of the file");
}

#[test]
fn an_offset_index_gives_each_pages_location_and_first_row() {
    let body = [
        0x19, 0x2C, // pages: two PageLocation structs
        0x16, 0xC8, 0x01, 0x15, 0x64, 0x16, 0x00, 0x00, // offset 100, size 50, first row 0
        0x16, 0xAC, 0x02, 0x15, 0x64, 0x16, 0x14, 0x00, // offset 150, size 50, first row 10
        0x00,
    ];
    let file = file_with(&body);
    let oi = offset_index(&file, Some(Span { start: 4, end: 23 })).unwrap().unwrap();
    assert_eq!(
        oi.pages,
        vec![
            PageLocation { offset: 100, compressed_page_size: 50, first_row_index: 0 },
            PageLocation { offset: 150, compressed_page_size: 50, first_row_index: 10 },
        ]
    );
    assert_eq!(oi.row_ranges(25), vec![(0, 10), (10, 25)]);
}

#[test]
fn a_page_location_without_its_first_row_is_an_error() {
    let body = [0x19, 0x1C, 0x16, 0xC8, 0x01, 0x15, 0x64, 0x00, 0x00];
    let file = file_with(&body);
    let err = offset_index(&file, Some(Span { start: 4, end: 13 })).unwrap_err();
    assert!(err.starts_with("PageLocation at ["), "{err}");
    assert!(err.ends_with(" has no field 3"), "{err}");
}

#[test]
fn an_index_shorter_than_its_span_is_an_error() {
    let body = [0x19, 0x1C, 0x16, 0xC8, 0x01, 0x15, 0x64, 0x16, 0x00, 0x00, 0x00, 0xFF];
    let file = file_with(&body);
    let err = offset_index(&file, Some(Span { start: 4, end: 16 })).unwrap_err();
    assert_eq!(err, "the OffsetIndex at [4, 16) is shorter than the footer says");
}
