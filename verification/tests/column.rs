use parquet_lab::bytes::Span;
use parquet_lab::column::read_column;
use parquet_lab::metadata::{ColumnChunk, PhysicalType};
use parquet_lab::plain::PlainValue;
use parquet_lab::schema::{Leaf, Repetition};

/// A data page header: version 1, PLAIN values, `n` slots, a body of `size` bytes.
fn data_page_header(n: u8, size: u8) -> Vec<u8> {
    vec![
        0x15, 0x00, 0x15, size * 2, 0x15, size * 2, // DATA_PAGE, sizes
        0x2C, 0x15, n * 2, 0x15, 0x00, 0x15, 0x06, 0x15, 0x06, 0x00, // n values, PLAIN, RLE, RLE
        0x00,
    ]
}

/// A file of four magic bytes, then one page with the given header and body.
fn file_with(header: Vec<u8>, body: &[u8]) -> Vec<u8> {
    let mut f = b"PAR1".to_vec();
    f.extend_from_slice(&header);
    f.extend_from_slice(body);
    f
}

fn chunk(size: i64, codec: &str) -> ColumnChunk {
    ColumnChunk {
        path: vec!["x".to_string()],
        physical_type: PhysicalType(1),
        encodings: vec!["PLAIN".to_string()],
        codec: codec.to_string(),
        num_values: 3,
        total_uncompressed_size: size,
        total_compressed_size: size,
        data_page_offset: 4,
        dictionary_page_offset: None,
        statistics: None,
        span: Span { start: 0, end: 0 },
    }
}

fn leaf(max_def: u32) -> Leaf {
    Leaf {
        column: 0,
        path: vec!["x".to_string()],
        repetitions: vec![if max_def > 0 { Repetition::Optional } else { Repetition::Required }],
        max_definition_level: max_def,
        max_repetition_level: 0,
        element: 1,
        physical_type: PhysicalType(1),
        type_length: None,
        logical_type: None,
    }
}

#[test]
fn a_required_column_has_a_value_in_every_slot() {
    let body = [1, 0, 0, 0, 2, 0, 0, 0, 3, 0, 0, 0];
    let file = file_with(data_page_header(3, 12), &body);
    let data = read_column(&file, &chunk(29, "UNCOMPRESSED"), &leaf(0)).unwrap();
    assert_eq!(data.pages.len(), 1);
    assert_eq!(data.pages[0].page.body_span, Span { start: 21, end: 33 });
    assert!(data.pages[0].rep_levels.is_none());
    assert!(data.pages[0].def_levels.is_none());
    assert_eq!(data.pages[0].values, Span { start: 21, end: 33 });
    assert_eq!(data.triples.len(), 3);
    for (i, t) in data.triples.iter().enumerate() {
        assert_eq!((t.rep, t.def, t.page), (0, 0, 0));
        assert_eq!(t.value, Some(PlainValue::Int(i as i64 + 1)));
        let start = 21 + 4 * i as u64;
        assert_eq!(t.value_span, Some(Span { start, end: start + 4 }));
    }
}

#[test]
fn definition_levels_say_which_slots_are_null() {
    // Levels 1, 0, 1 bit-packed in one group, then the two values 7 and 9.
    let body = [2, 0, 0, 0, 0x03, 0x05, 7, 0, 0, 0, 9, 0, 0, 0];
    let file = file_with(data_page_header(3, 14), &body);
    let data = read_column(&file, &chunk(31, "UNCOMPRESSED"), &leaf(1)).unwrap();
    let defs = data.pages[0].def_levels.as_ref().unwrap();
    assert_eq!(defs.0, Span { start: 21, end: 27 });
    assert_eq!(defs.1.len(), 1);
    assert_eq!(defs.1[0].values, vec![1, 0, 1]);
    assert_eq!(data.pages[0].values, Span { start: 27, end: 35 });
    let got: Vec<(u32, Option<PlainValue>)> =
        data.triples.iter().map(|t| (t.def, t.value.clone())).collect();
    assert_eq!(
        got,
        vec![(1, Some(PlainValue::Int(7))), (0, None), (1, Some(PlainValue::Int(9)))]
    );
    assert_eq!(data.triples[2].value_span, Some(Span { start: 31, end: 35 }));
}

#[test]
fn a_compressed_chunk_is_refused() {
    let file = file_with(data_page_header(3, 12), &[0; 12]);
    let err = read_column(&file, &chunk(29, "SNAPPY"), &leaf(0)).unwrap_err();
    assert_eq!(
        err.message(),
        "this column is compressed with SNAPPY; the reader decompresses pages from ch07 on"
    );
}

#[test]
fn a_chunk_past_the_end_of_the_file_is_refused() {
    let file = file_with(data_page_header(3, 12), &[0; 12]);
    let err = read_column(&file, &chunk(96, "UNCOMPRESSED"), &leaf(0)).unwrap_err();
    assert_eq!(err.message(), "the column chunk claims bytes [4, 100), past the end of the file");
}

#[test]
fn a_dictionary_page_is_refused() {
    let mut header = data_page_header(1, 2);
    header[1] = 0x04;
    header[6] = 0x4C;
    let file = file_with(header, &[5, 6]);
    let err = read_column(&file, &chunk(19, "UNCOMPRESSED"), &leaf(0)).unwrap_err();
    assert_eq!(err.message(), "this column is dictionary-encoded; ch05 decodes dictionaries");
}

#[test]
fn too_few_value_bytes_say_where_they_ran_out() {
    let body = [1, 0, 0, 0, 2, 0, 0, 0];
    let file = file_with(data_page_header(3, 8), &body);
    let err = read_column(&file, &chunk(25, "UNCOMPRESSED"), &leaf(0)).unwrap_err();
    assert!(err.message().starts_with("values: "));
}

#[test]
fn a_slot_holds_a_value_exactly_when_its_level_is_the_maximum() {
    let body = [2, 0, 0, 0, 0x03, 0x05, 7, 0, 0, 0, 9, 0, 0, 0];
    let file = file_with(data_page_header(3, 14), &body);
    let data = read_column(&file, &chunk(31, "UNCOMPRESSED"), &leaf(1)).unwrap();
    for t in &data.triples {
        assert_eq!(t.value.is_some(), t.def == 1);
        assert_eq!(t.value_span.is_some(), t.def == 1);
    }
}

#[test]
fn a_page_that_is_not_plain_is_refused() {
    let mut header = data_page_header(3, 12);
    header[10] = 0x10; // RLE_DICTIONARY
    let file = file_with(header, &[0; 12]);
    let err = read_column(&file, &chunk(29, "UNCOMPRESSED"), &leaf(0)).unwrap_err();
    assert_eq!(
        err.message(),
        "values encoded with RLE_DICTIONARY; ch05 decodes encodings other than PLAIN"
    );
}
