use parquet_lab::layout::{civil_from_days, encode, ranges, Cell, Layout, Query, Table};

#[test]
fn both_layouts_hold_the_same_bytes_in_a_different_order() {
    let t = Table::sales();
    let (r, c) = (encode(&t, Layout::Rows), encode(&t, Layout::Columns));
    assert_eq!(r.bytes.len(), c.bytes.len());
    let mut a = r.bytes.clone();
    let mut b = c.bytes.clone();
    a.sort();
    b.sort();
    assert_eq!(a, b);
}

#[test]
fn a_column_is_one_range_in_the_column_layout_and_one_per_row_in_the_row_layout() {
    let t = Table::sales();
    let all_rows: Vec<usize> = (0..t.rows.len()).collect();
    let q = Query { columns: vec![2], rows: all_rows };
    assert_eq!(ranges(&encode(&t, Layout::Columns), &q).len(), 1);
    assert_eq!(ranges(&encode(&t, Layout::Rows), &q).len(), t.rows.len());
}

#[test]
fn a_whole_row_is_one_range_in_the_row_layout() {
    let t = Table::sales();
    let q = Query { columns: (0..t.columns.len()).collect(), rows: vec![3] };
    assert_eq!(ranges(&encode(&t, Layout::Rows), &q).len(), 1);
    assert_eq!(ranges(&encode(&t, Layout::Columns), &q).len(), t.columns.len());
}

#[test]
fn layout_day_numbers_are_dates() {
    assert_eq!(civil_from_days(0), "1970-01-01");
    assert_eq!(civil_from_days(20456), "2026-01-03");
    assert_eq!(civil_from_days(-1), "1969-12-31");
}

#[test]
fn cells_show_as_themselves_and_dates_as_dates() {
    assert_eq!(Cell::Int(-42).show(), "-42");
    assert_eq!(Cell::Text("UK".to_string()).show(), "UK");
    assert_eq!(Cell::Date(20456).show(), "2026-01-03");
    let t = Table::sales();
    let e = encode(&t, Layout::Rows);
    // The first row: two integers, "UK" with its length, an integer and a date.
    assert_eq!(e.cells[0][0].start, 0);
    assert_eq!(e.cells[0][2].end - e.cells[0][2].start, 6);
    assert_eq!(&e.bytes[16..22], &[2, 0, 0, 0, b'U', b'K']);
    assert_eq!(e.cells[1][0].start, 34);
    assert_eq!(civil_from_days(-719_468), "0000-03-01");
    assert_eq!(civil_from_days(-719_469), "0000-02-29");
}
