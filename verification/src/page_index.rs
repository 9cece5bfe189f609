//! The page index: where each data page of a column chunk starts, and the rows it holds.

use vstd::prelude::*;

use crate::bytes::{push_span, span_text, ByteReader, Span};
use crate::logical::int_in;
use crate::metadata::{as_struct, metadata_error_text, opt_int, struct_of};
use crate::parquet_thrift::{enum_names, enum_value_name, EnumName};
use crate::text::push_u64;
use crate::thrift::{
    field_views, find_field, node_view, node_views, read_struct, thrift_error_text, tstruct, FieldV,
    Node, NodeV, Struct, Value, ValueV,
};
use vstd::slice::slice_subrange;

verus! {

#[derive(Clone, Copy, Debug, PartialEq, Eq, Structural)]
pub struct PageLocation {
    pub offset: i64,
    pub compressed_page_size: i64,
    pub first_row_index: i64,
}

impl PageLocation {
    /// The bytes of the page, header included. The offset and size are signed in the format; a
    /// location whose end does not fit, or lies before its start, has no span.
    pub fn span(&self) -> (s: Span)
        requires
            i64::MIN <= self.offset + self.compressed_page_size <= i64::MAX,
            self.offset as u64 <= (self.offset + self.compressed_page_size) as i64 as u64,
        ensures
            s.start == self.offset as u64,
            s.end == (self.offset + self.compressed_page_size) as i64 as u64,
    {
        let end = self.offset + self.compressed_page_size;
        Span::new(self.offset as u64, end as u64)
    }
}


/// A column chunk's ColumnIndex: for every page, whether it is all null, its bounds and its
/// null count, and whether the pages' bounds ascend or descend.
#[derive(Debug, PartialEq)]
pub struct ColumnIndex {
    pub null_pages: Vec<bool>,
    pub min_values: Vec<Vec<u8>>,
    pub max_values: Vec<Vec<u8>>,
    pub boundary_order: String,
    pub null_counts: Option<Vec<i64>>,
    pub span: Span,
    pub tree: Node,
}

/// A column chunk's OffsetIndex: where each data page is, and the index of its first row.
#[derive(Debug, PartialEq)]
pub struct OffsetIndex {
    /// Data pages only: a dictionary page, if any, comes before the first of them.
    pub pages: Vec<PageLocation>,
    pub span: Span,
    pub tree: Node,
}

/// The rows page `i` holds, as `[first, end)`: up to the next page's first row, and for the
/// last page up to the row group's end.
pub open spec fn row_range(pages: Seq<PageLocation>, i: int, num_rows: i64) -> (i64, i64) {
    (
        pages[i].first_row_index,
        if i + 1 < pages.len() {
            pages[i + 1].first_row_index
        } else {
            num_rows
        },
    )
}

impl OffsetIndex {
    /// The rows each page holds, as `[first, end)`, given the row group's row count.
    pub fn row_ranges(&self, num_rows: i64) -> (r: Vec<(i64, i64)>)
        ensures
            r@.len() == self.pages@.len(),
            forall|i: int| 0 <= i < r@.len() ==> #[trigger] r@[i] == row_range(self.pages@, i, num_rows),
    {
        let mut r: Vec<(i64, i64)> = Vec::new();
        let mut i: usize = 0;
        while i < self.pages.len()
            invariant
                i <= self.pages@.len(),
                r@.len() == i,
                forall|k: int| 0 <= k < i ==> #[trigger] r@[k] == row_range(self.pages@, k, num_rows),
            decreases self.pages@.len() - i,
        {
            let end = if i + 1 < self.pages.len() {
                self.pages[i + 1].first_row_index
            } else {
                num_rows
            };
            r.push((self.pages[i].first_row_index, end));
            i = i + 1;
        }
        r
    }
}


/// The Thrift struct that the span `span` of `file` holds: it must lie inside the file and be
/// filled exactly by one struct. `what` names the struct in the error.
pub open spec fn struct_at(file: Seq<u8>, span: Span, what: Seq<char>) -> Result<NodeV, Seq<char>> {
    if span.start > span.end || span.end > file.len() {
        Err("the "@ + what + " at "@ + span_text(span) + " is past the end of the file"@)
    } else {
        let bytes = file.subrange(span.start as int, span.end as int);
        match tstruct(bytes, span.start, 0, 0) {
            Err(e) => Err(what + " at "@ + span_text(span) + ": "@ + thrift_error_text(e)),
            Ok((n, end)) => if end != bytes.len() {
                Err("the "@ + what + " at "@ + span_text(span) + " is shorter than the footer says"@)
            } else {
                Ok(n)
            },
        }
    }
}

/// The items of the list in field `id`, or none where the field is missing or not a list.
pub open spec fn list_in(fs: Seq<FieldV>, id: i16) -> Seq<NodeV> {
    match find_field(fs, id) {
        Some(i) => match fs[i].node.value {
            ValueV::List(items) => items,
            _ => Seq::empty(),
        },
        None => Seq::empty(),
    }
}

/// The bytes of each item, empty for an item that holds none.
pub open spec fn binaries_of(items: Seq<NodeV>) -> Seq<Seq<u8>> {
    items.map_values(
        |n: NodeV|
            match n.value {
                ValueV::Binary(b) => b,
                _ => Seq::empty(),
            },
    )
}

/// The integers among the items, in order.
pub open spec fn ints_of(items: Seq<NodeV>) -> Seq<i64>
    decreases items.len(),
{
    if items.len() == 0 {
        Seq::empty()
    } else {
        ints_of(items.drop_last()) + match items.last().value {
            ValueV::Int(v) => seq![v],
            _ => Seq::empty(),
        }
    }
}

/// Whether each item is `true`.
pub open spec fn trues_of(items: Seq<NodeV>) -> Seq<bool> {
    items.map_values(|n: NodeV| n.value == ValueV::Bool(true))
}

/// The name of the boundary order in field 4, or `UNKNOWN`.
pub open spec fn boundary_order_of(fs: Seq<FieldV>) -> Seq<char> {
    match int_in(fs, 4) {
        Some(v) => if 0 <= v < enum_names(EnumName::BoundaryOrder).len() {
            enum_names(EnumName::BoundaryOrder)[v as int]@
        } else {
            "UNKNOWN"@
        },
        None => "UNKNOWN"@,
    }
}

/// A ColumnIndex as values.
pub struct ColumnIndexV {
    pub null_pages: Seq<bool>,
    pub min_values: Seq<Seq<u8>>,
    pub max_values: Seq<Seq<u8>>,
    pub boundary_order: Seq<char>,
    pub null_counts: Option<Seq<i64>>,
    pub span: Span,
    pub tree: NodeV,
}

pub open spec fn column_index_view(c: ColumnIndex) -> ColumnIndexV {
    ColumnIndexV {
        null_pages: c.null_pages@,
        min_values: c.min_values@.map_values(|b: Vec<u8>| b@),
        max_values: c.max_values@.map_values(|b: Vec<u8>| b@),
        boundary_order: c.boundary_order@,
        null_counts: match c.null_counts {
            Some(v) => Some(v@),
            None => None,
        },
        span: c.span,
        tree: node_view(c.tree),
    }
}

/// The ColumnIndex a column chunk's footer entry points at with `span`, if it points at one.
pub open spec fn column_index_outcome(file: Seq<u8>, span: Option<Span>) -> Result<
    Option<ColumnIndexV>,
    Seq<char>,
> {
    match span {
        None => Ok(None),
        Some(sp) => match struct_at(file, sp, "ColumnIndex"@) {
            Err(m) => Err(m),
            Ok(tree) => match struct_of(tree) {
                Err(e) => Err(metadata_error_text(e)),
                Ok(fs) => Ok(
                    Some(
                        ColumnIndexV {
                            null_pages: trues_of(list_in(fs, 1)),
                            min_values: binaries_of(list_in(fs, 2)),
                            max_values: binaries_of(list_in(fs, 3)),
                            boundary_order: boundary_order_of(fs),
                            null_counts: match find_field(fs, 5) {
                                Some(_) => Some(ints_of(list_in(fs, 5))),
                                None => None,
                            },
                            span: sp,
                            tree,
                        },
                    ),
                ),
            },
        },
    }
}

/// The location of one page, from a `PageLocation` struct: fields 1, 2 and 3 must be integers.
pub open spec fn location_of(n: NodeV) -> Result<PageLocation, Seq<char>> {
    match struct_of(n) {
        Err(e) => Err(metadata_error_text(e)),
        Ok(fs) => match (int_in(fs, 1), int_in(fs, 2), int_in(fs, 3)) {
            (None, _, _) => Err(no_field_text(n.span, 1)),
            (Some(_), None, _) => Err(no_field_text(n.span, 2)),
            (Some(_), Some(_), None) => Err(no_field_text(n.span, 3)),
            (Some(o), Some(c), Some(f)) => Ok(
                PageLocation { offset: o, compressed_page_size: c, first_row_index: f },
            ),
        },
    }
}

pub open spec fn no_field_text(span: Span, id: nat) -> Seq<char> {
    "PageLocation at "@ + span_text(span) + " has no field "@ + crate::text::dec(id)
}

/// The locations of the items from `k` on, or the first item's error.
pub open spec fn locations_from(items: Seq<NodeV>, k: int) -> Result<Seq<PageLocation>, Seq<char>>
    decreases items.len() - k,
{
    if k < 0 || k >= items.len() {
        Ok(Seq::empty())
    } else {
        match location_of(items[k]) {
            Err(m) => Err(m),
            Ok(p) => match locations_from(items, k + 1) {
                Ok(rest) => Ok(seq![p] + rest),
                Err(m) => Err(m),
            },
        }
    }
}

/// An OffsetIndex as values.
pub struct OffsetIndexV {
    pub pages: Seq<PageLocation>,
    pub span: Span,
    pub tree: NodeV,
}

/// The OffsetIndex a column chunk's footer entry points at with `span`, if it points at one.
pub open spec fn offset_index_outcome(file: Seq<u8>, span: Option<Span>) -> Result<
    Option<OffsetIndexV>,
    Seq<char>,
> {
    match span {
        None => Ok(None),
        Some(sp) => match struct_at(file, sp, "OffsetIndex"@) {
            Err(m) => Err(m),
            Ok(tree) => match struct_of(tree) {
                Err(e) => Err(metadata_error_text(e)),
                Ok(fs) => match locations_from(list_in(fs, 1), 0) {
                    Err(m) => Err(m),
                    Ok(pages) => Ok(Some(OffsetIndexV { pages, span: sp, tree })),
                },
            },
        },
    }
}

/// Read the Thrift struct that fills `span` of `file`.
fn read_at(file: &[u8], span: Span, what: &str) -> (r: Result<Node, String>)
    ensures
        match struct_at(file@, span, what@) {
            Ok(n) => r matches Ok(node) && node_view(node) == n,
            Err(m) => r matches Err(e) && e@ == m,
        },
{
    let flen: usize = file.len();
    if span.start > span.end || span.end > flen as u64 {
        let mut s = "the ".to_owned();
        s.append(what);
        s.append(" at ");
        push_span(&mut s, span);
        s.append(" is past the end of the file");
        return Err(s);
    }
    let bytes = slice_subrange(file, span.start as usize, span.end as usize);
    let mut r = ByteReader::new(bytes, span.start);
    let node = match read_struct(&mut r) {
        Ok(n) => n,
        Err(e) => {
            let mut s = what.to_owned();
            s.append(" at ");
            push_span(&mut s, span);
            s.append(": ");
            let m = e.message();
            s.append(m.as_str());
            return Err(s);
        },
    };
    if !r.is_at_end() {
        let mut s = "the ".to_owned();
        s.append(what);
        s.append(" at ");
        push_span(&mut s, span);
        s.append(" is shorter than the footer says");
        return Err(s);
    }
    Ok(node)
}

/// The items of the list in field `id` of a struct.
fn list<'a>(s: &'a Struct, id: i16) -> (items: &'a [Node])
    ensures
        node_views(items@) == list_in(field_views(s.fields@), id),
{
    proof {
        crate::thrift::lemma_find_field_views(s.fields@, id);
        if let Some(i) = find_field(field_views(s.fields@), id) {
            assert(field_views(s.fields@)[i] == crate::thrift::field_view(s.fields@[i]));
        }
    }
    match s.field(id) {
        Some(f) => match &f.node.value {
            Value::List(items) => items.as_slice(),
            _ => {
                let empty: &[Node] = &[];
                assert(node_views(empty@) =~= Seq::<NodeV>::empty());
                empty
            },
        },
        None => {
            let empty: &[Node] = &[];
            assert(node_views(empty@) =~= Seq::<NodeV>::empty());
            empty
        },
    }
}

/// Read a column chunk's ColumnIndex from the span its footer entry gives, if it gives one.
pub fn column_index(file: &[u8], span: Option<Span>) -> (r: Result<Option<ColumnIndex>, String>)
    ensures
        match column_index_outcome(file@, span) {
            Ok(None) => r matches Ok(None),
            Ok(Some(c)) => r matches Ok(Some(ci)) && column_index_view(ci) == c,
            Err(m) => r matches Err(e) && e@ == m,
        },
{
    let span = match span {
        Some(s) => s,
        None => return Ok(None),
    };
    let tree = read_at(file, span, "ColumnIndex")?;
    let s = match as_struct(&tree) {
        Ok(s) => s,
        Err(e) => return Err(e.message()),
    };
    let ghost fs = field_views(s.fields@);
    let pages = list(s, 1);
    let mut null_pages: Vec<bool> = Vec::new();
    let mut k: usize = 0;
    while k < pages.len()
        invariant
            k <= pages@.len(),
            null_pages@ =~= trues_of(node_views(pages@)).take(k as int),
        decreases pages@.len() - k,
    {
        let t = match pages[k].value {
            Value::Bool(b) => b,
            _ => false,
        };
        proof {
            assert(node_views(pages@)[k as int] == node_view(pages@[k as int]));
        }
        null_pages.push(t);
        k = k + 1;
    }
    assert(trues_of(node_views(pages@)).take(pages@.len() as int) =~= trues_of(node_views(pages@)));
    let min_values = binaries(list(s, 2));
    let max_values = binaries(list(s, 3));
    let boundary_order = match opt_int(s, 4) {
        Some(v) => match enum_value_name(EnumName::BoundaryOrder, v) {
            Some(n) => n.to_owned(),
            None => "UNKNOWN".to_owned(),
        },
        None => "UNKNOWN".to_owned(),
    };
    proof {
        crate::thrift::lemma_find_field_views(s.fields@, 5);
    }
    let null_counts = match s.field(5) {
        Some(_) => Some(ints(list(s, 5))),
        None => None,
    };
    Ok(Some(ColumnIndex { null_pages, min_values, max_values, boundary_order, null_counts, span, tree }))
}

/// The bytes of each item.
fn binaries(items: &[Node]) -> (out: Vec<Vec<u8>>)
    ensures
        out@.map_values(|b: Vec<u8>| b@) == binaries_of(node_views(items@)),
{
    let mut out: Vec<Vec<u8>> = Vec::new();
    let mut k: usize = 0;
    while k < items.len()
        invariant
            k <= items@.len(),
            out@.map_values(|b: Vec<u8>| b@) =~= binaries_of(node_views(items@)).take(k as int),
        decreases items@.len() - k,
    {
        let b = match &items[k].value {
            Value::Binary(b) => vstd::slice::slice_to_vec(b.as_slice()),
            _ => Vec::new(),
        };
        proof {
            assert(node_views(items@)[k as int] == node_view(items@[k as int]));
        }
        let ghost before = out@;
        out.push(b);
        proof {
            let bv = binaries_of(node_views(items@));
            assert(bv[k as int] == b@);
            assert(out@.map_values(|b: Vec<u8>| b@) =~= before.map_values(|b: Vec<u8>| b@).push(b@));
            assert(bv.take(k + 1) =~= bv.take(k as int).push(bv[k as int]));
        }
        k = k + 1;
    }
    assert(binaries_of(node_views(items@)).take(items@.len() as int) =~= binaries_of(
        node_views(items@),
    ));
    out
}

/// The integers among the items.
fn ints(items: &[Node]) -> (out: Vec<i64>)
    ensures
        out@ == ints_of(node_views(items@)),
{
    let mut out: Vec<i64> = Vec::new();
    let mut k: usize = 0;
    while k < items.len()
        invariant
            k <= items@.len(),
            out@ == ints_of(node_views(items@).take(k as int)),
        decreases items@.len() - k,
    {
        let ghost before = out@;
        match items[k].value {
            Value::Int(v) => out.push(v),
            _ => {},
        }
        proof {
            let vs = node_views(items@);
            assert(vs[k as int] == node_view(items@[k as int]));
            assert(vs.take(k + 1).drop_last() =~= vs.take(k as int));
            assert(vs.take(k + 1).last() == vs[k as int]);
            assert(out@ =~= ints_of(vs.take(k + 1)));
        }
        k = k + 1;
    }
    assert(node_views(items@).take(items@.len() as int) =~= node_views(items@));
    out
}

/// The location of one page.
fn location(n: &Node) -> (r: Result<PageLocation, String>)
    ensures
        match location_of(node_view(*n)) {
            Ok(p) => r == Ok::<PageLocation, String>(p),
            Err(m) => r matches Err(e) && e@ == m,
        },
{
    let p = match as_struct(n) {
        Ok(p) => p,
        Err(e) => return Err(e.message()),
    };
    let offset = match opt_int(p, 1) {
        Some(v) => v,
        None => return Err(no_field(n.span, 1)),
    };
    let size = match opt_int(p, 2) {
        Some(v) => v,
        None => return Err(no_field(n.span, 2)),
    };
    let first = match opt_int(p, 3) {
        Some(v) => v,
        None => return Err(no_field(n.span, 3)),
    };
    Ok(PageLocation { offset, compressed_page_size: size, first_row_index: first })
}

fn no_field(span: Span, id: u64) -> (s: String)
    ensures
        s@ == no_field_text(span, id as nat),
{
    let mut s = "PageLocation at ".to_owned();
    push_span(&mut s, span);
    s.append(" has no field ");
    push_u64(&mut s, id);
    s
}

/// Read a column chunk's OffsetIndex from the span its footer entry gives, if it gives one.
pub fn offset_index(file: &[u8], span: Option<Span>) -> (r: Result<Option<OffsetIndex>, String>)
    ensures
        match offset_index_outcome(file@, span) {
            Ok(None) => r matches Ok(None),
            Ok(Some(o)) => r matches Ok(Some(oi)) && oi.pages@ == o.pages && oi.span == o.span
                && node_view(oi.tree) == o.tree,
            Err(m) => r matches Err(e) && e@ == m,
        },
{
    let sp = match span {
        Some(s) => s,
        None => return Ok(None),
    };
    let tree = read_at(file, sp, "OffsetIndex")?;
    let s = match as_struct(&tree) {
        Ok(s) => s,
        Err(e) => return Err(e.message()),
    };
    let items = list(s, 1);
    let ghost vs = node_views(items@);
    let mut pages: Vec<PageLocation> = Vec::new();
    let mut k: usize = 0;
    while k < items.len()
        invariant
            k <= items@.len(),
            vs == node_views(items@),
            vs == list_in(field_views(s.fields@), 1),
            struct_of(node_view(tree)) matches Ok(fs) && fs == field_views(s.fields@),
            span == Some(sp),
            struct_at(file@, sp, "OffsetIndex"@) matches Ok(n) && n == node_view(tree),
            locations_from(vs, 0) == match locations_from(vs, k as int) {
                Ok(rest) => Ok(pages@ + rest),
                Err(m) => Err::<Seq<PageLocation>, Seq<char>>(m),
            },
        decreases items@.len() - k,
    {
        assert(vs[k as int] == node_view(items@[k as int]));
        let p = match location(&items[k]) {
            Ok(p) => p,
            Err(e) => {
                assert(locations_from(vs, k as int) == Err::<Seq<PageLocation>, Seq<char>>(e@));
                assert(locations_from(vs, 0) == Err::<Seq<PageLocation>, Seq<char>>(e@));
                return Err(e);
            },
        };
        proof {
            if let Ok(rest) = locations_from(vs, k + 1) {
                assert(pages@.push(p) + rest =~= pages@ + (seq![p] + rest));
            }
        }
        pages.push(p);
        k = k + 1;
    }
    assert(pages@ + Seq::<PageLocation>::empty() =~= pages@);
    Ok(Some(OffsetIndex { pages, span: sp, tree }))
}

} // verus!
