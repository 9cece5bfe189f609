use parquet_lab::report::{flat_columns, open_bytes};

/// A footer that holds only what a `FileMetaData` must: version 1, a schema of one root named
/// `m`, no rows and no row groups.
fn footer() -> Vec<u8> {
    vec![
        0x15, 0x02, // 1: version = 1
        0x19, 0x1C, // 2: schema, a list of one struct
        0x48, 0x01, b'm', 0x00, // the root: name "m"
        0x16, 0x00, // 3: num_rows = 0
        0x19, 0x0C, // 4: row_groups, an empty list of structs
        0x00,
    ]
}

fn file_with(footer: &[u8]) -> Vec<u8> {
    let mut f = b"PAR1".to_vec();
    f.extend_from_slice(footer);
    f.extend_from_slice(&(footer.len() as u32).to_le_bytes());
    f.extend_from_slice(b"PAR1");
    f
}

#[test]
fn a_whole_file_opens_to_the_metadata_its_footer_holds() {
    let md = open_bytes(&file_with(&footer())).unwrap();
    assert_eq!(md.version, 1);
    assert_eq!(md.num_rows, 0);
    assert_eq!(md.schema.len(), 1);
    assert_eq!(md.schema[0].name, "m");
    assert!(md.row_groups.is_empty());
}

#[test]
fn a_file_too_short_to_be_parquet_is_refused() {
    assert_eq!(
        open_bytes(b"PAR1").unwrap_err(),
        "a 4-byte file cannot be Parquet: the magic and trailer alone take 12"
    );
}

#[test]
fn a_file_that_does_not_end_in_the_magic_is_refused() {
    let mut f = file_with(&footer());
    let n = f.len();
    f[n - 1] = b'0';
    assert_eq!(
        open_bytes(&f).unwrap_err(),
        "expected PAR1 at [21, 25), found 50 41 52 30"
    );
}

#[test]
fn leftover_footer_bytes_are_reported() {
    let mut longer = footer();
    longer.push(0x00);
    let err = open_bytes(&file_with(&longer)).unwrap_err();
    assert_eq!(
        err,
        "the footer's FileMetaData ends before the footer does; 1 byte(s) left over at [17, 18)"
    );
}

/// A footer whose schema is a root `m` with a required `a` (INT64) and a repeated `b` (INT32).
fn footer_with_two_columns() -> Vec<u8> {
    vec![
        0x15, 0x02, // 1: version = 1
        0x19, 0x3C, // 2: schema, a list of three structs
        0x48, 0x01, b'm', 0x15, 0x04, 0x00, // the root: name "m", two children
        0x15, 0x04, 0x25, 0x00, 0x18, 0x01, b'a', 0x00, // INT64, REQUIRED, "a"
        0x15, 0x02, 0x25, 0x04, 0x18, 0x01, b'b', 0x00, // INT32, REPEATED, "b"
        0x16, 0x00, // 3: num_rows = 0
        0x19, 0x0C, // 4: row_groups, an empty list of structs
        0x00,
    ]
}

#[test]
fn flat_columns_leaves_out_the_columns_that_repeat() {
    assert_eq!(flat_columns(&file_with(&footer_with_two_columns())).unwrap(), vec![0]);
    // A root alone has no columns at all.
    assert_eq!(flat_columns(&file_with(&footer())).unwrap(), Vec::<usize>::new());
}

#[test]
fn flat_columns_reports_a_schema_that_makes_no_tree() {
    // The root claims a child that the list does not hold.
    let mut f = footer();
    f[7] = 0x15;
    f.insert(8, 0x02);
    f.insert(9, 0x00);
    assert_eq!(
        flat_columns(&file_with(&f)).unwrap_err(),
        "group \"m\" (element 0) claims more children than the schema has elements"
    );
}
