use parquet_lab::bytes::Span;
use parquet_lab::pages::walk_pages;

/// A version 1 data page of three PLAIN values in four bytes, then a dictionary page of one
/// value in two.
fn chunk() -> Vec<u8> {
    let mut c = vec![
        0x15, 0x00, 0x15, 0x08, 0x15, 0x08, // DATA_PAGE, 4 bytes, 4 bytes
        0x2C, 0x15, 0x06, 0x15, 0x00, 0x15, 0x06, 0x15, 0x06, 0x00, // 3 values, PLAIN, RLE, RLE
        0x00,
    ];
    c.extend_from_slice(&[1, 2, 3, 4]);
    c.extend_from_slice(&[
        0x15, 0x04, 0x15, 0x04, 0x15, 0x04, // DICTIONARY_PAGE, 2 bytes, 2 bytes
        0x4C, 0x15, 0x02, 0x15, 0x00, 0x00, // 1 value, PLAIN
        0x00,
    ]);
    c.extend_from_slice(&[5, 6]);
    c
}

#[test]
fn each_header_says_where_the_next_one_starts() {
    let pages = walk_pages(&chunk(), 100).unwrap();
    assert_eq!(pages.len(), 2);
    assert_eq!(pages[0].page_type, "DATA_PAGE");
    assert_eq!(pages[0].header_span, Span { start: 100, end: 117 });
    assert_eq!(pages[0].body_span, Span { start: 117, end: 121 });
    assert_eq!(pages[0].num_values, Some(3));
    assert_eq!(pages[0].encoding.as_deref(), Some("PLAIN"));
    assert!(pages[0].statistics.is_none());
    assert_eq!(pages[1].page_type, "DICTIONARY_PAGE");
    assert_eq!(pages[1].header_span, Span { start: 121, end: 134 });
    assert_eq!(pages[1].body_span, Span { start: 134, end: 136 });
    assert_eq!(pages[1].num_values, Some(1));
    assert_eq!(pages[1].span(), Span { start: 121, end: 136 });
}

#[test]
fn a_body_that_runs_past_the_chunk_is_an_error() {
    let mut c = chunk();
    c.truncate(19);
    let err = walk_pages(&c, 100).unwrap_err();
    assert_eq!(err.message(), "needed 4 more byte(s) at offset 117, but the data ends");
}

#[test]
fn an_empty_chunk_has_no_pages() {
    assert!(walk_pages(&[], 0).unwrap().is_empty());
}
