//! Row layout and column layout: the same table, stored two ways.
//!
//! Integers are eight bytes, little-endian; a date is a four-byte day number; a string is a
//! four-byte length and then its bytes. The two layouts use identical encodings and differ
//! only in order:
//!
//! ```text
//! row layout:     id₁ cust₁ country₁ amount₁ date₁ | id₂ cust₂ country₂ …
//! column layout:  id₁ id₂ id₃ … | cust₁ cust₂ … | country₁ country₂ … | …
//! ```
//!
//! Every value's position is recorded, so a query can be turned into the exact byte ranges it
//! needs, and the ranges into requests.

use vstd::prelude::*;
use vstd::multiset::Multiset;
use vstd::utf8::encode_utf8;

use crate::bytes::{sort_spans, sorted_spans, Span};
use crate::logical::{date_from_days, date_text};
use crate::text::{i64_text, signed_dec};

verus! {

/// A column of the sales table, and how its values are stored.
#[derive(Clone, Copy, Debug, PartialEq, Eq, Structural)]
pub enum ColumnType {
    /// Eight bytes, little-endian.
    Int64,
    /// Four bytes, little-endian: days since 1970-01-01.
    Date,
    /// A four-byte little-endian length, then UTF-8 bytes.
    Text,
}

#[derive(Debug, PartialEq, Eq)]
pub enum Cell {
    Int(i64),
    Date(i32),
    Text(String),
}

impl Clone for Cell {
    fn clone(&self) -> (c: Cell)
        ensures
            c == *self,
    {
        match self {
            Cell::Int(v) => Cell::Int(*v),
            Cell::Date(d) => Cell::Date(*d),
            Cell::Text(s) => Cell::Text(s.clone()),
        }
    }
}

/// The `n` low bytes of `v`, least significant first.
pub open spec fn le_bytes(v: nat, n: nat) -> Seq<u8>
    decreases n,
{
    if n == 0 {
        Seq::empty()
    } else {
        seq![(v % 256) as u8] + le_bytes(v / 256, (n - 1) as nat)
    }
}

/// The bytes a cell is stored as, in either layout.
pub open spec fn cell_bytes(c: Cell) -> Seq<u8> {
    match c {
        Cell::Int(v) => le_bytes((v as u64) as nat, 8),
        Cell::Date(d) => le_bytes((d as u32) as nat, 4),
        Cell::Text(s) => le_bytes((encode_utf8(s@).len() as u32) as nat, 4) + encode_utf8(s@),
    }
}

/// How a cell is shown: a date as `YYYY-MM-DD`, everything else as itself.
pub open spec fn show_text(c: Cell) -> Seq<char> {
    match c {
        Cell::Int(v) => signed_dec(v as int),
        Cell::Date(d) => date_text(d as int),
        Cell::Text(s) => s@,
    }
}

/// Append the `n` low bytes of `v`, least significant first.
pub(crate) fn push_le(out: &mut Vec<u8>, v: u64, n: usize)
    ensures
        final(out)@ == old(out)@ + le_bytes(v as nat, n as nat),
    decreases n,
{
    if n > 0 {
        out.push((v % 256) as u8);
        let ghost mid = out@;
        push_le(out, v / 256, n - 1);
        assert(out@ =~= old(out)@ + le_bytes(v as nat, n as nat));
    } else {
        assert(out@ =~= old(out)@ + le_bytes(v as nat, n as nat));
    }
}

impl Cell {
    fn encode(&self, out: &mut Vec<u8>)
        ensures
            final(out)@ == old(out)@ + cell_bytes(*self),
    {
        match self {
            Cell::Int(v) => push_le(out, *v as u64, 8),
            Cell::Date(d) => push_le(out, *d as u32 as u64, 4),
            Cell::Text(s) => {
                let b = s.as_str().as_bytes();
                push_le(out, b.len() as u32 as u64, 4);
                let mut i: usize = 0;
                let ghost mid = out@;
                while i < b.len()
                    invariant
                        i <= b@.len(),
                        out@ == mid + b@.subrange(0, i as int),
                    decreases b@.len() - i,
                {
                    out.push(b[i]);
                    assert(out@ =~= mid + b@.subrange(0, i + 1));
                    i = i + 1;
                }
                assert(b@.subrange(0, b@.len() as int) =~= b@);
                assert(out@ =~= old(out)@ + cell_bytes(*self));
            },
        }
    }

    /// For display: a date as `YYYY-MM-DD`, everything else as itself.
    pub fn show(&self) -> (s: String)
        ensures
            s@ == show_text(*self),
    {
        match self {
            Cell::Int(v) => i64_text(*v),
            Cell::Text(s) => s.clone(),
            Cell::Date(d) => date_from_days(*d as i64),
        }
    }
}

/// The date for a count of days since 1970-01-01.
pub fn civil_from_days(z: i64) -> (s: String)
    requires
        z + 719_468 <= i64::MAX,
    ensures
        s@ == date_text(z as int),
{
    date_from_days(z)
}

#[derive(Clone, Debug)]
pub struct Table {
    pub columns: Vec<(&'static str, ColumnType)>,
    pub rows: Vec<Vec<Cell>>,
}

/// Every row has one cell per column.
pub open spec fn table_wf(t: Table) -> bool {
    forall|r: int| 0 <= r < t.rows@.len() ==> #[trigger] t.rows@[r]@.len() == t.columns@.len()
}

/// The eight sales orders: id, customer, country, amount in cents, and day number.
pub open spec fn sales_row(i: int) -> (i64, i64, i32) {
    if i == 0 {
        (1, 501, 20456)
    } else if i == 1 {
        (2, 502, 20456)
    } else if i == 2 {
        (3, 501, 20457)
    } else if i == 3 {
        (4, 503, 20457)
    } else if i == 4 {
        (5, 504, 20458)
    } else if i == 5 {
        (6, 502, 20458)
    } else if i == 6 {
        (7, 505, 20459)
    } else {
        (8, 501, 20459)
    }
}

/// The amount of sales order `i`, in cents.
pub open spec fn sales_amount(i: int) -> i64 {
    if i == 0 {
        1999
    } else if i == 1 {
        500
    } else if i == 2 {
        4210
    } else if i == 3 {
        1250
    } else if i == 4 {
        875
    } else if i == 5 {
        3000
    } else if i == 6 {
        640
    } else {
        2275
    }
}

fn sales_cells(id: i64, cust: i64, country: &str, amount: i64, date: i32) -> (row: Vec<Cell>)
    ensures
        row@.len() == 5,
        row@[0] == Cell::Int(id),
        row@[1] == Cell::Int(cust),
        row@[2] matches Cell::Text(s) && s@ == country@,
        row@[3] == Cell::Int(amount),
        row@[4] == Cell::Date(date),
{
    vec![
        Cell::Int(id),
        Cell::Int(cust),
        Cell::Text(String::from_str(country)),
        Cell::Int(amount),
        Cell::Date(date),
    ]
}

impl Table {
    /// Eight orders. Small enough to see every byte, large enough that the layouts differ.
    pub fn sales() -> (t: Table)
        ensures
            table_wf(t),
            t.columns@.len() == 5,
            t.columns@[0].0@ == "order_id"@ && t.columns@[0].1 == ColumnType::Int64,
            t.columns@[1].0@ == "customer_id"@ && t.columns@[1].1 == ColumnType::Int64,
            t.columns@[2].0@ == "country"@ && t.columns@[2].1 == ColumnType::Text,
            t.columns@[3].0@ == "amount_cents"@ && t.columns@[3].1 == ColumnType::Int64,
            t.columns@[4].0@ == "order_date"@ && t.columns@[4].1 == ColumnType::Date,
            t.rows@.len() == 8,
            forall|i: int|
                0 <= i < 8 ==> {
                    &&& #[trigger] t.rows@[i]@[0] == Cell::Int(sales_row(i).0)
                    &&& t.rows@[i]@[1] == Cell::Int(sales_row(i).1)
                    &&& t.rows@[i]@[3] == Cell::Int(sales_amount(i))
                    &&& t.rows@[i]@[4] == Cell::Date(sales_row(i).2)
                    &&& t.rows@[i]@[2] matches Cell::Text(s) && s@ == (if i == 1 || i == 5 {
                        "SE"@
                    } else if i == 3 {
                        "PL"@
                    } else if i == 4 {
                        "US"@
                    } else {
                        "UK"@
                    })
                },
    {
        let rows = vec![
            sales_cells(1, 501, "UK", 1999, 20456),
            sales_cells(2, 502, "SE", 500, 20456),
            sales_cells(3, 501, "UK", 4210, 20457),
            sales_cells(4, 503, "PL", 1250, 20457),
            sales_cells(5, 504, "US", 875, 20458),
            sales_cells(6, 502, "SE", 3000, 20458),
            sales_cells(7, 505, "UK", 640, 20459),
            sales_cells(8, 501, "UK", 2275, 20459),
        ];
        let columns = vec![
            ("order_id", ColumnType::Int64),
            ("customer_id", ColumnType::Int64),
            ("country", ColumnType::Text),
            ("amount_cents", ColumnType::Int64),
            ("order_date", ColumnType::Date),
        ];
        Table { columns, rows }
    }
}

#[derive(Clone, Copy, Debug, PartialEq, Eq, Structural)]
pub enum Layout {
    Rows,
    Columns,
}

/// A table encoded in one layout, with the position of every value.
#[derive(Clone, Debug)]
pub struct Encoded {
    pub layout: Layout,
    pub bytes: Vec<u8>,
    /// `cells[row][column]` is the span that value occupies.
    pub cells: Vec<Vec<Span>>,
}

/// The bytes of a list of cells, one after another.
pub open spec fn cells_concat(cells: Seq<Cell>) -> Seq<u8>
    decreases cells.len(),
{
    if cells.len() == 0 {
        Seq::empty()
    } else {
        cells_concat(cells.drop_last()) + cell_bytes(cells.last())
    }
}

/// Row `r` of a table, as cells.
pub open spec fn row_cells(t: Table, r: int) -> Seq<Cell> {
    t.rows@[r]@
}

/// Column `c` of a table, as cells.
pub open spec fn column_cells(t: Table, c: int) -> Seq<Cell> {
    Seq::new(t.rows@.len(), |r: int| t.rows@[r]@[c])
}

/// The first `n` rows, each stored whole, one after another.
pub open spec fn row_major(t: Table, n: nat) -> Seq<u8>
    decreases n,
{
    if n == 0 {
        Seq::empty()
    } else {
        row_major(t, (n - 1) as nat) + cells_concat(row_cells(t, n - 1))
    }
}

/// The first `n` columns, each stored whole, one after another.
pub open spec fn column_major(t: Table, n: nat) -> Seq<u8>
    decreases n,
{
    if n == 0 {
        Seq::empty()
    } else {
        column_major(t, (n - 1) as nat) + cells_concat(column_cells(t, n - 1))
    }
}

/// The bytes of a table in a layout.
pub open spec fn layout_bytes(t: Table, layout: Layout) -> Seq<u8> {
    match layout {
        Layout::Rows => row_major(t, t.rows@.len()),
        Layout::Columns => column_major(t, t.columns@.len()),
    }
}

/// Where cell (`r`, `c`) starts in a layout: after everything stored before it.
pub open spec fn cell_start(t: Table, layout: Layout, r: int, c: int) -> int {
    match layout {
        Layout::Rows => (row_major(t, r as nat).len() + cells_concat(row_cells(t, r).take(c)).len()) as int,
        Layout::Columns => (column_major(t, c as nat).len() + cells_concat(
            column_cells(t, c).take(r),
        ).len()) as int,
    }
}

/// The span cell (`r`, `c`) occupies in a layout.
pub open spec fn cell_span(t: Table, layout: Layout, r: int, c: int) -> Span {
    let start = cell_start(t, layout, r, c);
    Span { start: start as u64, end: (start + cell_bytes(t.rows@[r]@[c]).len()) as u64 }
}

/// Encode the cells of one list in turn, recording where each one lands.
fn encode_run(cells: &Vec<Cell>, bytes: &mut Vec<u8>) -> (spans: Vec<Span>)
    requires
        old(bytes)@.len() + cells_concat(cells@).len() <= u64::MAX,
    ensures
        final(bytes)@ == old(bytes)@ + cells_concat(cells@),
        spans@.len() == cells@.len(),
        forall|i: int|
            0 <= i < cells@.len() ==> #[trigger] spans@[i] == (Span {
                start: (old(bytes)@.len() + cells_concat(cells@.take(i)).len()) as u64,
                end: (old(bytes)@.len() + cells_concat(cells@.take(i + 1)).len()) as u64,
            }),
{
    let mut spans: Vec<Span> = Vec::new();
    let mut i: usize = 0;
    let ghost start = bytes@;
    assert(cells@.take(0) =~= Seq::<Cell>::empty());
    while i < cells.len()
        invariant
            i <= cells@.len(),
            bytes@ == start + cells_concat(cells@.take(i as int)),
            start.len() + cells_concat(cells@).len() <= u64::MAX,
            spans@.len() == i,
            forall|k: int|
                0 <= k < i ==> #[trigger] spans@[k] == (Span {
                    start: (start.len() + cells_concat(cells@.take(k)).len()) as u64,
                    end: (start.len() + cells_concat(cells@.take(k + 1)).len()) as u64,
                }),
        decreases cells@.len() - i,
    {
        proof {
            assert(cells@.take(i + 1).drop_last() =~= cells@.take(i as int));
            lemma_concat_prefix(cells@, i + 1);
        }
        assert(cells_concat(cells@.take(i + 1)) == cells_concat(cells@.take(i as int)) + cell_bytes(
            cells@[i as int],
        ));
        let s0 = bytes.len() as u64;
        cells[i].encode(bytes);
        let s1 = bytes.len() as u64;
        spans.push(Span::new(s0, s1));
        i = i + 1;
    }
    assert(cells@.take(cells@.len() as int) =~= cells@);
    spans
}

/// A prefix of a list of cells takes no more bytes than the whole list.
proof fn lemma_concat_prefix(cells: Seq<Cell>, n: int)
    requires
        0 <= n <= cells.len(),
    ensures
        cells_concat(cells.take(n)).len() <= cells_concat(cells).len(),
    decreases cells.len(),
{
    if n < cells.len() {
        lemma_concat_prefix(cells.drop_last(), n);
        assert(cells.drop_last().take(n) =~= cells.take(n));
    } else {
        assert(cells.take(n) =~= cells);
    }
}

/// One more cell adds that cell's bytes.
proof fn lemma_concat_step(cells: Seq<Cell>, i: int)
    requires
        0 <= i < cells.len(),
    ensures
        cells_concat(cells.take(i + 1)).len() == cells_concat(cells.take(i)).len() + cell_bytes(
            cells[i],
        ).len(),
{
    assert(cells.take(i + 1).drop_last() =~= cells.take(i));
}

/// Fewer rows take no more bytes.
proof fn lemma_row_major_prefix(t: Table, n: nat, m: nat)
    requires
        n <= m,
    ensures
        row_major(t, n).len() <= row_major(t, m).len(),
    decreases m,
{
    if n < m {
        lemma_row_major_prefix(t, n, (m - 1) as nat);
    }
}

/// Fewer columns take no more bytes.
proof fn lemma_column_major_prefix(t: Table, n: nat, m: nat)
    requires
        n <= m,
    ensures
        column_major(t, n).len() <= column_major(t, m).len(),
    decreases m,
{
    if n < m {
        lemma_column_major_prefix(t, n, (m - 1) as nat);
    }
}

/// Encode a table in one layout, with the position of every value.
pub fn encode(table: &Table, layout: Layout) -> (e: Encoded)
    requires
        table_wf(*table),
        layout_bytes(*table, layout).len() <= u64::MAX,
    ensures
        e.layout == layout,
        e.bytes@ == layout_bytes(*table, layout),
        e.cells@.len() == table.rows@.len(),
        forall|r: int|
            0 <= r < table.rows@.len() ==> #[trigger] e.cells@[r]@.len() == table.columns@.len(),
        forall|r: int, c: int|
            0 <= r < table.rows@.len() && 0 <= c < table.columns@.len() ==> #[trigger] e.cells@[r]@[c]
                == cell_span(*table, layout, r, c),
{
    let nrows = table.rows.len();
    let ncols = table.columns.len();
    let mut bytes: Vec<u8> = Vec::new();
    let mut cells: Vec<Vec<Span>> = Vec::new();
    match layout {
        Layout::Rows => {
            let mut r: usize = 0;
            while r < nrows
                invariant
                    r <= nrows == table.rows@.len(),
                    ncols == table.columns@.len(),
                    table_wf(*table),
                    layout == Layout::Rows,
                    layout_bytes(*table, layout).len() <= u64::MAX,
                    bytes@ == row_major(*table, r as nat),
                    cells@.len() == r,
                    forall|k: int| 0 <= k < r ==> #[trigger] cells@[k]@.len() == ncols,
                    forall|k: int, c: int|
                        0 <= k < r && 0 <= c < ncols ==> #[trigger] cells@[k]@[c] == cell_span(
                            *table,
                            layout,
                            k,
                            c,
                        ),
                decreases nrows - r,
            {
                proof {
                    lemma_row_major_prefix(*table, (r + 1) as nat, nrows as nat);
                }
                let ghost before = bytes@;
                let row = encode_run(&table.rows[r], &mut bytes);
                proof {
                    assert forall|cc: int| 0 <= cc < ncols implies #[trigger] row@[cc] == cell_span(
                        *table,
                        layout,
                        r as int,
                        cc,
                    ) by {
                        lemma_concat_step(row_cells(*table, r as int), cc);
                    }
                }
                cells.push(row);
                r = r + 1;
            }
        },
        Layout::Columns => {
            let mut columns: Vec<Vec<Span>> = Vec::new();
            let mut c: usize = 0;
            while c < ncols
                invariant
                    c <= ncols == table.columns@.len(),
                    nrows == table.rows@.len(),
                    table_wf(*table),
                    layout == Layout::Columns,
                    layout_bytes(*table, layout).len() <= u64::MAX,
                    bytes@ == column_major(*table, c as nat),
                    columns@.len() == c,
                    forall|k: int| 0 <= k < c ==> #[trigger] columns@[k]@.len() == nrows,
                    forall|k: int, r: int|
                        0 <= k < c && 0 <= r < nrows ==> #[trigger] columns@[k]@[r] == cell_span(
                            *table,
                            layout,
                            r,
                            k,
                        ),
                decreases ncols - c,
            {
                let mut column: Vec<Cell> = Vec::new();
                let mut r: usize = 0;
                while r < nrows
                    invariant
                        r <= nrows == table.rows@.len(),
                        c < ncols == table.columns@.len(),
                        table_wf(*table),
                        column@ =~= column_cells(*table, c as int).take(r as int),
                    decreases nrows - r,
                {
                    column.push(table.rows[r][c].clone());
                    r = r + 1;
                }
                proof {
                    assert(column@ =~= column_cells(*table, c as int));
                    lemma_column_major_prefix(*table, (c + 1) as nat, ncols as nat);
                }
                let spans = encode_run(&column, &mut bytes);
                proof {
                    assert forall|rr: int| 0 <= rr < nrows implies #[trigger] spans@[rr] == cell_span(
                        *table,
                        layout,
                        rr,
                        c as int,
                    ) by {
                        lemma_concat_step(column_cells(*table, c as int), rr);
                    }
                }
                columns.push(spans);
                c = c + 1;
            }
            let mut r: usize = 0;
            while r < nrows
                invariant
                    r <= nrows == table.rows@.len(),
                    ncols == table.columns@.len(),
                    columns@.len() == ncols,
                    forall|k: int| 0 <= k < ncols ==> #[trigger] columns@[k]@.len() == nrows,
                    forall|k: int, rr: int|
                        0 <= k < ncols && 0 <= rr < nrows ==> #[trigger] columns@[k]@[rr] == cell_span(
                            *table,
                            layout,
                            rr,
                            k,
                        ),
                    cells@.len() == r,
                    forall|k: int| 0 <= k < r ==> #[trigger] cells@[k]@.len() == ncols,
                    forall|k: int, cc: int|
                        0 <= k < r && 0 <= cc < ncols ==> #[trigger] cells@[k]@[cc] == cell_span(
                            *table,
                            layout,
                            k,
                            cc,
                        ),
                decreases nrows - r,
            {
                let mut row: Vec<Span> = Vec::new();
                let mut c: usize = 0;
                while c < ncols
                    invariant
                        c <= ncols == table.columns@.len(),
                        r < nrows == table.rows@.len(),
                        columns@.len() == ncols,
                        forall|k: int| 0 <= k < ncols ==> #[trigger] columns@[k]@.len() == nrows,
                        forall|k: int, rr: int|
                            0 <= k < ncols && 0 <= rr < nrows ==> #[trigger] columns@[k]@[rr]
                                == cell_span(*table, layout, rr, k),
                        row@.len() == c,
                        forall|k: int| 0 <= k < c ==> #[trigger] row@[k] == cell_span(*table, layout, r as int, k),
                    decreases ncols - c,
                {
                    row.push(columns[c][r]);
                    c = c + 1;
                }
                cells.push(row);
                r = r + 1;
            }
        },
    }
    Encoded { layout, bytes, cells }
}

/// What a query needs: some columns of some rows.
#[derive(Clone, Debug, PartialEq, Eq)]
pub struct Query {
    pub columns: Vec<usize>,
    pub rows: Vec<usize>,
}

/// The spans of the queried cells: for each queried row in turn, its queried columns.
pub open spec fn query_spans(e: Encoded, rows: Seq<usize>, cols: Seq<usize>) -> Seq<Span>
    decreases rows.len(),
{
    if rows.len() == 0 {
        Seq::empty()
    } else {
        query_spans(e, rows.drop_last(), cols) + Seq::new(
            cols.len(),
            |j: int| e.cells@[rows.last() as int]@[cols[j] as int],
        )
    }
}

/// Spans taken in order, each one that starts exactly where the previous merged range ends
/// extending it, each other one starting a new range.
pub open spec fn merge_touching(s: Seq<Span>) -> Seq<Span>
    decreases s.len(),
{
    if s.len() == 0 {
        Seq::empty()
    } else {
        let m = merge_touching(s.drop_last());
        let x = s.last();
        if m.len() > 0 && m.last().end == x.start {
            m.update(m.len() - 1, Span { start: m.last().start, end: x.end })
        } else {
            m.push(x)
        }
    }
}

/// Merge touching spans, in the order given.
pub fn merge_touching_spans(spans: Vec<Span>) -> (merged: Vec<Span>)
    ensures
        merged@ == merge_touching(spans@),
{
    let mut merged: Vec<Span> = Vec::new();
    let mut i: usize = 0;
    while i < spans.len()
        invariant
            i <= spans@.len(),
            merged@ == merge_touching(spans@.take(i as int)),
        decreases spans@.len() - i,
    {
        let s = spans[i];
        proof {
            assert(spans@.take(i + 1).drop_last() =~= spans@.take(i as int));
        }
        let n = merged.len();
        if n > 0 && merged[n - 1].end == s.start {
            let last = merged[n - 1];
            merged.set(n - 1, Span { start: last.start, end: s.end });
        } else {
            merged.push(s);
        }
        i = i + 1;
    }
    assert(spans@.take(spans@.len() as int) =~= spans@);
    merged
}

/// The byte ranges a query needs, with touching ranges merged: each is one read.
pub fn ranges(enc: &Encoded, q: &Query) -> (r: Vec<Span>)
    requires
        forall|i: int| 0 <= i < q.rows@.len() ==> #[trigger] q.rows@[i] < enc.cells@.len(),
        forall|i: int, j: int|
            0 <= i < q.rows@.len() && 0 <= j < q.columns@.len() ==> #[trigger] q.columns@[j]
                < enc.cells@[#[trigger] q.rows@[i] as int]@.len(),
    ensures
        r@ == merge_touching(sorted_spans(query_spans(*enc, q.rows@, q.columns@))),
{
    let mut spans: Vec<Span> = Vec::new();
    let mut i: usize = 0;
    while i < q.rows.len()
        invariant
            i <= q.rows@.len(),
            spans@ == query_spans(*enc, q.rows@.take(i as int), q.columns@),
            forall|i: int| 0 <= i < q.rows@.len() ==> #[trigger] q.rows@[i] < enc.cells@.len(),
            forall|i: int, j: int|
                0 <= i < q.rows@.len() && 0 <= j < q.columns@.len() ==> #[trigger] q.columns@[j]
                    < enc.cells@[#[trigger] q.rows@[i] as int]@.len(),
        decreases q.rows@.len() - i,
    {
        let r = q.rows[i];
        let ghost before = spans@;
        let mut j: usize = 0;
        while j < q.columns.len()
            invariant
                j <= q.columns@.len(),
                i < q.rows@.len(),
                r == q.rows@[i as int],
                r < enc.cells@.len(),
                forall|jj: int| 0 <= jj < q.columns@.len() ==> #[trigger] q.columns@[jj]
                    < enc.cells@[r as int]@.len(),
                spans@ == before + Seq::new(j as nat, |t: int| enc.cells@[r as int]@[q.columns@[t] as int]),
            decreases q.columns@.len() - j,
        {
            let c = q.columns[j];
            spans.push(enc.cells[r][c]);
            proof {
                assert(spans@ =~= before + Seq::new((j + 1) as nat, |t: int| enc.cells@[r as int]@[q.columns@[t] as int]));
            }
            j = j + 1;
        }
        proof {
            assert(q.rows@.take(i + 1).drop_last() =~= q.rows@.take(i as int));
            assert(spans@ =~= query_spans(*enc, q.rows@.take(i + 1), q.columns@));
        }
        i = i + 1;
    }
    assert(q.rows@.take(q.rows@.len() as int) =~= q.rows@);
    let sorted = sort_spans(spans);
    merge_touching_spans(sorted)
}


proof fn lemma_empty_ms()
    ensures
        Seq::<u8>::empty().to_multiset() == Multiset::<u8>::empty(),
{
    vstd::seq_lib::to_multiset_len(Seq::<u8>::empty());
    vstd::multiset::lemma_multiset_empty_len(Seq::<u8>::empty().to_multiset());
}

/// The bytes of one cell, as a multiset.
pub open spec fn cell_ms(t: Table, r: int, c: int) -> Multiset<u8> {
    cell_bytes(t.rows@[r]@[c]).to_multiset()
}

/// The bytes of cells `0..nc` of row `r`.
pub open spec fn row_sum(t: Table, r: int, nc: nat) -> Multiset<u8>
    decreases nc,
{
    if nc == 0 {
        Multiset::empty()
    } else {
        row_sum(t, r, (nc - 1) as nat).add(cell_ms(t, r, nc - 1))
    }
}

/// The bytes of cells `0..nr` of column `c`.
pub open spec fn column_sum(t: Table, c: int, nr: nat) -> Multiset<u8>
    decreases nr,
{
    if nr == 0 {
        Multiset::empty()
    } else {
        column_sum(t, c, (nr - 1) as nat).add(cell_ms(t, nr - 1, c))
    }
}

/// The bytes of rows `0..nr`, cells `0..nc` of each, summed row by row.
pub open spec fn by_rows(t: Table, nr: nat, nc: nat) -> Multiset<u8>
    decreases nr,
{
    if nr == 0 {
        Multiset::empty()
    } else {
        by_rows(t, (nr - 1) as nat, nc).add(row_sum(t, nr - 1, nc))
    }
}

/// The same cells, summed column by column.
pub open spec fn by_columns(t: Table, nr: nat, nc: nat) -> Multiset<u8>
    decreases nc,
{
    if nc == 0 {
        Multiset::empty()
    } else {
        by_columns(t, nr, (nc - 1) as nat).add(column_sum(t, nc - 1, nr))
    }
}

proof fn lemma_row_prefix(t: Table, r: int, k: nat)
    requires
        0 <= r < t.rows@.len(),
        k <= row_cells(t, r).len(),
    ensures
        cells_concat(row_cells(t, r).take(k as int)).to_multiset() == row_sum(t, r, k),
    decreases k,
{
    let cells = row_cells(t, r);
    if k > 0 {
        lemma_row_prefix(t, r, (k - 1) as nat);
        assert(cells.take(k as int).drop_last() =~= cells.take(k - 1));
        vstd::seq_lib::lemma_multiset_commutative(
            cells_concat(cells.take(k - 1)),
            cell_bytes(cells[k - 1]),
        );
    } else {
        assert(cells.take(0) =~= Seq::<Cell>::empty());
        lemma_empty_ms();
    }
}

proof fn lemma_column_prefix(t: Table, c: int, k: nat)
    requires
        k <= t.rows@.len(),
    ensures
        cells_concat(column_cells(t, c).take(k as int)).to_multiset() == column_sum(t, c, k),
    decreases k,
{
    let cells = column_cells(t, c);
    if k > 0 {
        lemma_column_prefix(t, c, (k - 1) as nat);
        assert(cells.take(k as int).drop_last() =~= cells.take(k - 1));
        vstd::seq_lib::lemma_multiset_commutative(
            cells_concat(cells.take(k - 1)),
            cell_bytes(cells[k - 1]),
        );
    } else {
        assert(cells.take(0) =~= Seq::<Cell>::empty());
        lemma_empty_ms();
    }
}

proof fn lemma_row_major_ms(t: Table, n: nat)
    requires
        table_wf(t),
        n <= t.rows@.len(),
    ensures
        row_major(t, n).to_multiset() == by_rows(t, n, t.columns@.len()),
    decreases n,
{
    if n > 0 {
        lemma_row_major_ms(t, (n - 1) as nat);
        let cells = row_cells(t, n - 1);
        lemma_row_prefix(t, n - 1, cells.len());
        assert(cells.take(cells.len() as int) =~= cells);
        vstd::seq_lib::lemma_multiset_commutative(row_major(t, (n - 1) as nat), cells_concat(cells));
    } else {
        lemma_empty_ms();
    }
}

proof fn lemma_column_major_ms(t: Table, n: nat)
    requires
        n <= t.columns@.len(),
    ensures
        column_major(t, n).to_multiset() == by_columns(t, t.rows@.len(), n),
    decreases n,
{
    if n > 0 {
        lemma_column_major_ms(t, (n - 1) as nat);
        let cells = column_cells(t, n - 1);
        lemma_column_prefix(t, n - 1, t.rows@.len());
        assert(cells.take(cells.len() as int) =~= cells);
        vstd::seq_lib::lemma_multiset_commutative(
            column_major(t, (n - 1) as nat),
            cells_concat(cells),
        );
    } else {
        lemma_empty_ms();
    }
}

/// Adding one more column to every row adds that column's cells.
proof fn lemma_by_rows_step(t: Table, nr: nat, nc: nat)
    ensures
        by_rows(t, nr, nc + 1) == by_rows(t, nr, nc).add(column_sum(t, nc as int, nr)),
    decreases nr,
{
    if nr > 0 {
        lemma_by_rows_step(t, (nr - 1) as nat, nc);
        let a = by_rows(t, (nr - 1) as nat, nc);
        let b = row_sum(t, nr - 1, nc);
        let x = column_sum(t, nc as int, (nr - 1) as nat);
        let y = cell_ms(t, nr - 1, nc as int);
        assert(by_rows(t, nr, nc + 1) =~= a.add(x).add(b.add(y)));
        assert(a.add(x).add(b.add(y)) =~= a.add(b).add(x.add(y)));
    } else {
        assert(by_rows(t, 0, nc + 1) =~= by_rows(t, 0, nc).add(column_sum(t, nc as int, 0)));
    }
}

proof fn lemma_sums_agree(t: Table, nr: nat, nc: nat)
    ensures
        by_rows(t, nr, nc) == by_columns(t, nr, nc),
    decreases nc,
{
    if nc > 0 {
        lemma_sums_agree(t, nr, (nc - 1) as nat);
        lemma_by_rows_step(t, nr, (nc - 1) as nat);
    } else {
        lemma_by_rows_empty(t, nr);
    }
}

proof fn lemma_by_rows_empty(t: Table, nr: nat)
    ensures
        by_rows(t, nr, 0) == Multiset::<u8>::empty(),
    decreases nr,
{
    if nr > 0 {
        lemma_by_rows_empty(t, (nr - 1) as nat);
        assert(by_rows(t, nr, 0) =~= Multiset::<u8>::empty());
    }
}

/// Both layouts hold the same bytes, in a different order: each value's bytes appear once in
/// each, so the two byte sequences are permutations of each other.
pub proof fn lemma_layouts_hold_the_same_bytes(t: Table)
    requires
        table_wf(t),
    ensures
        layout_bytes(t, Layout::Rows).len() == layout_bytes(t, Layout::Columns).len(),
        layout_bytes(t, Layout::Rows).to_multiset() == layout_bytes(t, Layout::Columns).to_multiset(),
{
    lemma_row_major_ms(t, t.rows@.len());
    lemma_column_major_ms(t, t.columns@.len());
    lemma_sums_agree(t, t.rows@.len(), t.columns@.len());
    vstd::seq_lib::to_multiset_len(layout_bytes(t, Layout::Rows));
    vstd::seq_lib::to_multiset_len(layout_bytes(t, Layout::Columns));
}


/// Cell `k` of a list is stored right after the cells before it.
proof fn lemma_concat_holds(cells: Seq<Cell>, k: int)
    requires
        0 <= k < cells.len(),
    ensures
        cells_concat(cells.take(k)).len() + cell_bytes(cells[k]).len() <= cells_concat(cells).len(),
        cells_concat(cells).subrange(
            cells_concat(cells.take(k)).len() as int,
            (cells_concat(cells.take(k)).len() + cell_bytes(cells[k]).len()) as int,
        ) == cell_bytes(cells[k]),
    decreases cells.len(),
{
    let l = cells_concat(cells.take(k)).len() as int;
    let n = cell_bytes(cells[k]).len() as int;
    if k == cells.len() - 1 {
        assert(cells.drop_last() =~= cells.take(k));
        assert(cells_concat(cells).subrange(l, l + n) =~= cell_bytes(cells[k]));
    } else {
        lemma_concat_holds(cells.drop_last(), k);
        assert(cells.drop_last().take(k) =~= cells.take(k));
        assert(cells.drop_last()[k] == cells[k]);
        let a = cells_concat(cells.drop_last());
        assert(cells_concat(cells).subrange(l, l + n) =~= a.subrange(l, l + n));
    }
}

/// The first `n` rows are stored at the start of the first `m`.
proof fn lemma_row_major_starts(t: Table, n: nat, m: nat)
    requires
        n <= m,
    ensures
        row_major(t, n).len() <= row_major(t, m).len(),
        row_major(t, m).subrange(0, row_major(t, n).len() as int) == row_major(t, n),
    decreases m,
{
    if n < m {
        lemma_row_major_starts(t, n, (m - 1) as nat);
        let a = row_major(t, (m - 1) as nat);
        assert(row_major(t, m).subrange(0, row_major(t, n).len() as int) =~= a.subrange(
            0,
            row_major(t, n).len() as int,
        ));
    } else {
        assert(row_major(t, m).subrange(0, row_major(t, n).len() as int) =~= row_major(t, n));
    }
}

/// The first `n` columns are stored at the start of the first `m`.
proof fn lemma_column_major_starts(t: Table, n: nat, m: nat)
    requires
        n <= m,
    ensures
        column_major(t, n).len() <= column_major(t, m).len(),
        column_major(t, m).subrange(0, column_major(t, n).len() as int) == column_major(t, n),
    decreases m,
{
    if n < m {
        lemma_column_major_starts(t, n, (m - 1) as nat);
        let a = column_major(t, (m - 1) as nat);
        assert(column_major(t, m).subrange(0, column_major(t, n).len() as int) =~= a.subrange(
            0,
            column_major(t, n).len() as int,
        ));
    } else {
        assert(column_major(t, m).subrange(0, column_major(t, n).len() as int) =~= column_major(
            t,
            n,
        ));
    }
}

/// The bytes at a cell's place in a layout.
pub open spec fn bytes_at(t: Table, layout: Layout, r: int, c: int) -> Seq<u8> {
    layout_bytes(t, layout).subrange(
        cell_start(t, layout, r, c),
        cell_start(t, layout, r, c) + cell_bytes(t.rows@[r]@[c]).len() as int,
    )
}

/// Where the cell stored after (`r`, `c`) starts in a layout: the next cell of the row (rows) or
/// of the column (columns), the first cell of the next one, or the end of the bytes.
pub open spec fn next_start(t: Table, layout: Layout, r: int, c: int) -> int {
    let nr = t.rows@.len() as int;
    let nc = t.columns@.len() as int;
    match layout {
        Layout::Rows => if c + 1 < nc {
            cell_start(t, layout, r, c + 1)
        } else if r + 1 < nr {
            cell_start(t, layout, r + 1, 0)
        } else {
            layout_bytes(t, layout).len() as int
        },
        Layout::Columns => if r + 1 < nr {
            cell_start(t, layout, r + 1, c)
        } else if c + 1 < nc {
            cell_start(t, layout, 0, c + 1)
        } else {
            layout_bytes(t, layout).len() as int
        },
    }
}

/// Both layouts hold each value at its cell: the bytes at cell (`r`, `c`) are that value's
/// encoding in either layout, so the same cell holds the same bytes in both. And the cells tile
/// the bytes: the first cell starts at 0, and each ends where the next one in storage order
/// begins, the last at the end of the bytes.
pub proof fn lemma_cells_agree_and_tile(t: Table, r: int, c: int)
    requires
        table_wf(t),
        0 <= r < t.rows@.len(),
        0 <= c < t.columns@.len(),
    ensures
        bytes_at(t, Layout::Rows, r, c) == cell_bytes(t.rows@[r]@[c]),
        bytes_at(t, Layout::Columns, r, c) == cell_bytes(t.rows@[r]@[c]),
        bytes_at(t, Layout::Rows, r, c) == bytes_at(t, Layout::Columns, r, c),
        cell_start(t, Layout::Rows, 0, 0) == 0,
        cell_start(t, Layout::Columns, 0, 0) == 0,
        cell_start(t, Layout::Rows, r, c) + cell_bytes(t.rows@[r]@[c]).len() == next_start(
            t,
            Layout::Rows,
            r,
            c,
        ),
        cell_start(t, Layout::Columns, r, c) + cell_bytes(t.rows@[r]@[c]).len() == next_start(
            t,
            Layout::Columns,
            r,
            c,
        ),
{
    let nr = t.rows@.len();
    let nc = t.columns@.len();
    let cell = t.rows@[r]@[c];
    let n = cell_bytes(cell).len() as int;
    assert(row_cells(t, 0).take(0) =~= Seq::<Cell>::empty());
    assert(column_cells(t, 0).take(0) =~= Seq::<Cell>::empty());
    // Rows.
    let row = row_cells(t, r);
    assert(row.len() == nc);
    lemma_concat_holds(row, c);
    lemma_row_major_starts(t, (r + 1) as nat, nr);
    let pre = row_major(t, (r + 1) as nat);
    let a = row_major(t, r as nat);
    let s0 = cell_start(t, Layout::Rows, r, c);
    assert(pre.subrange(s0, s0 + n) =~= cells_concat(row).subrange(s0 - a.len(), s0 - a.len() + n));
    assert(layout_bytes(t, Layout::Rows).subrange(s0, s0 + n) =~= pre.subrange(s0, s0 + n));
    if c + 1 < nc {
        lemma_concat_step(row, c);
    } else {
        assert(row.take(c + 1) =~= row);
        lemma_concat_step(row, c);
        if r + 1 < nr {
            assert(row_cells(t, r + 1).take(0) =~= Seq::<Cell>::empty());
        }
    }
    // Columns.
    let col = column_cells(t, c);
    assert(col[r] == cell);
    lemma_concat_holds(col, r);
    lemma_column_major_starts(t, (c + 1) as nat, nc);
    let cpre = column_major(t, (c + 1) as nat);
    let ca = column_major(t, c as nat);
    let s1 = cell_start(t, Layout::Columns, r, c);
    assert(cpre.subrange(s1, s1 + n) =~= cells_concat(col).subrange(
        s1 - ca.len(),
        s1 - ca.len() + n,
    ));
    assert(layout_bytes(t, Layout::Columns).subrange(s1, s1 + n) =~= cpre.subrange(s1, s1 + n));
    if r + 1 < nr {
        lemma_concat_step(col, r);
    } else {
        assert(col.take(r + 1) =~= col);
        lemma_concat_step(col, r);
        if c + 1 < nc {
            assert(column_cells(t, c + 1).take(0) =~= Seq::<Cell>::empty());
        }
    }
}

} // verus!
