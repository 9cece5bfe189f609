//! The footer's `FileMetaData`, read into typed values.
//!
//! [`crate::thrift`] turns the footer's bytes into numbered fields. This module picks out the
//! fields a reader needs and gives them types: the schema, the row groups, and for every column
//! chunk the offsets and sizes that say where its bytes are. Field numbers are the ids of
//! `parquet.thrift`; a field the reader does not need stays in the decoded tree.

use vstd::prelude::*;

use crate::bytes::{push_span, span_text, ByteReader, Span};
use crate::logical::{bool_in, decode, int_in, logical_of, LogicalType};
use crate::parquet_thrift::{enum_names, enum_value_name, EnumName};
use crate::text::{dec, lossy_text, push_i64, push_u64, signed_dec, utf8_lossy};
use crate::thrift::{
    field_views, find_field, thrift_error_text, lemma_find_field_views, node_view, node_views, read_struct, tstruct,
    Field, FieldV, Node, NodeV, Struct, ThriftError, Value, ValueV,
};

verus! {

#[derive(Clone, Debug, PartialEq, Eq)]
pub enum MetadataError {
    Thrift(ThriftError),
    NotAStruct { span: Span },
    Missing { structure: &'static str, field: &'static str, span: Span },
    WrongType { structure: &'static str, field: &'static str, span: Span },
    TrailingBytes { span: Span },
}

/// What a metadata error says.
pub open spec fn metadata_error_text(e: MetadataError) -> Seq<char> {
    match e {
        MetadataError::Thrift(t) => thrift_error_text(t),
        MetadataError::NotAStruct { span } => "expected a struct at "@ + span_text(span),
        MetadataError::Missing { structure, field, span } => structure@ + " at "@ + span_text(span)
            + " has no "@ + field@ + ", which is required"@,
        MetadataError::WrongType { structure, field, span } => structure@ + "."@ + field@ + " at "@
            + span_text(span) + " has the wrong wire type"@,
        MetadataError::TrailingBytes { span } =>
            "the footer's FileMetaData ends before the footer does; "@ + dec(
            (span.end - span.start) as nat,
        ) + " byte(s) left over at "@ + span_text(span),
    }
}

impl MetadataError {
    /// The error as a sentence. Leftover bytes are counted from a span that does not end before
    /// it starts.
    pub fn message(&self) -> (s: String)
        requires
            self matches MetadataError::TrailingBytes { span } ==> span.start <= span.end,
        ensures
            s@ == metadata_error_text(*self),
    {
        match self {
            MetadataError::Thrift(t) => t.message(),
            MetadataError::NotAStruct { span } => {
                let mut s = "expected a struct at ".to_owned();
                push_span(&mut s, *span);
                s
            },
            MetadataError::Missing { structure, field, span } => {
                let mut s = (*structure).to_owned();
                s.append(" at ");
                push_span(&mut s, *span);
                s.append(" has no ");
                s.append(*field);
                s.append(", which is required");
                s
            },
            MetadataError::WrongType { structure, field, span } => {
                let mut s = (*structure).to_owned();
                s.append(".");
                s.append(*field);
                s.append(" at ");
                push_span(&mut s, *span);
                s.append(" has the wrong wire type");
                s
            },
            MetadataError::TrailingBytes { span } => {
                let mut s = "the footer's FileMetaData ends before the footer does; ".to_owned();
                push_u64(&mut s, span.len());
                s.append(" byte(s) left over at ");
                push_span(&mut s, *span);
                s
            },
        }
    }
}

/// A column's physical type: how its values are laid out in bytes.
#[derive(Clone, Copy, Debug, PartialEq, Eq, Structural)]
pub struct PhysicalType(pub i64);

/// The name of an enum value of `parquet.thrift`, or `UNKNOWN(v)` for a value it does not list.
pub open spec fn enum_text(e: EnumName, v: i64) -> Seq<char> {
    if 0 <= v < enum_names(e).len() {
        enum_names(e)[v as int]@
    } else {
        "UNKNOWN("@ + signed_dec(v as int) + ")"@
    }
}

pub(crate) fn enum_name(e: EnumName, v: i64) -> (r: String)
    ensures
        r@ == enum_text(e, v),
{
    match enum_value_name(e, v) {
        Some(name) => name.to_owned(),
        None => {
            let mut s = String::new();
            s.append("UNKNOWN(");
            push_i64(&mut s, v);
            s.append(")");
            assert(s@ =~= enum_text(e, v));
            s
        },
    }
}

impl PhysicalType {
    /// The type's name: `INT32`, `BYTE_ARRAY`, ...
    pub fn name(&self) -> (r: String)
        ensures
            r@ == enum_text(EnumName::Type, self.0),
    {
        enum_name(EnumName::Type, self.0)
    }
}

/// One node of the flattened schema: a leaf column or a group.
///
/// The footer stores the schema tree as a list in depth-first order. A group says how many
/// children follow it; a leaf has none.
#[derive(Clone, Debug, PartialEq)]
pub struct SchemaElement {
    pub name: String,
    pub physical_type: Option<PhysicalType>,
    /// For `FIXED_LEN_BYTE_ARRAY`: how many bytes each value takes.
    pub type_length: Option<i64>,
    pub repetition: Option<String>,
    pub num_children: Option<i64>,
    /// The older annotation, kept by writers for readers that predate logical types.
    pub converted_type: Option<String>,
    pub logical_type: Option<LogicalType>,
    pub scale: Option<i64>,
    pub precision: Option<i64>,
    /// An identifier that survives renames; table formats use it.
    pub field_id: Option<i64>,
    pub span: Span,
}

/// A column chunk's or a page's statistics.
///
/// `min_value` and `max_value` (fields 6 and 5) replaced `min` and `max` (2 and 1), whose sort
/// order was never specified. Both pairs are kept as the footer has them; [`crate::stats`]
/// decides which a reader may believe.
#[derive(Clone, Debug, PartialEq)]
pub struct Statistics {
    pub min_value: Option<Vec<u8>>,
    pub max_value: Option<Vec<u8>>,
    /// Where the minimum's value bytes are, after their length prefix.
    pub min_span: Option<Span>,
    pub max_span: Option<Span>,
    /// The deprecated minimum and maximum.
    pub min: Option<Vec<u8>>,
    pub max: Option<Vec<u8>>,
    pub min_deprecated_span: Option<Span>,
    pub max_deprecated_span: Option<Span>,
    pub null_count: Option<i64>,
    /// False when a writer shortened the bound: it still holds, but no value equals it.
    pub is_max_value_exact: Option<bool>,
    pub is_min_value_exact: Option<bool>,
    pub span: Span,
}

/// What the footer says about one column chunk: which column, and where its bytes are.
#[derive(Clone, Debug, PartialEq)]
pub struct ColumnChunk {
    pub path: Vec<String>,
    pub physical_type: PhysicalType,
    pub encodings: Vec<String>,
    pub codec: String,
    pub num_values: i64,
    pub total_uncompressed_size: i64,
    pub total_compressed_size: i64,
    pub data_page_offset: i64,
    pub dictionary_page_offset: Option<i64>,
    pub statistics: Option<Statistics>,
    /// Where this chunk's description sits in the footer.
    pub span: Span,
}

/// A signed offset as an unsigned one, the way `as u64` reinterprets its bits.
pub open spec fn bits64(x: i64) -> int {
    if x < 0 {
        x + 0x1_0000_0000_0000_0000
    } else {
        x as int
    }
}

fn as_bits(x: i64) -> (r: u64)
    ensures
        r == bits64(x),
{
    if x < 0 {
        ((x + 0x7FFF_FFFF_FFFF_FFFF) + 1) as u64 + 0x8000_0000_0000_0000
    } else {
        x as u64
    }
}

/// Where a chunk's pages start: at the dictionary page when there is one (at a positive
/// offset) and it comes first, else at the first data page.
pub open spec fn chunk_start(c: ColumnChunk) -> i64 {
    match c.dictionary_page_offset {
        Some(d) => if d > 0 && d < c.data_page_offset {
            d
        } else {
            c.data_page_offset
        },
        None => c.data_page_offset,
    }
}

/// Whether a chunk's byte range can be written as a span: its end fits in 64 bits.
pub open spec fn chunk_range_fits(c: ColumnChunk) -> bool {
    bits64(chunk_start(c)) + bits64(c.total_compressed_size) <= u64::MAX
}

impl ColumnChunk {
    /// The chunk's bytes in the file: from its first page to the end of its last.
    ///
    /// The first page is the dictionary page when there is one, and a data page otherwise.
    /// `total_compressed_size` counts every page, headers included, so start plus size is the
    /// end of the chunk. This is the range a reader requests to read the column.
    pub fn byte_range(&self) -> (s: Span)
        requires
            chunk_range_fits(*self),
        ensures
            s.start == bits64(chunk_start(*self)),
            s.end == bits64(chunk_start(*self)) + bits64(self.total_compressed_size),
    {
        let start = match self.dictionary_page_offset {
            Some(d) => if d > 0 && d < self.data_page_offset {
                d
            } else {
                self.data_page_offset
            },
            None => self.data_page_offset,
        };
        let s = as_bits(start);
        Span::new(s, s + as_bits(self.total_compressed_size))
    }

    /// The column's path in the schema, joined with dots.
    pub fn dotted_path(&self) -> (r: String)
        ensures
            r@ == dotted(strings_view(self.path@)),
    {
        let mut s = String::new();
        let mut i: usize = 0;
        while i < self.path.len()
            invariant
                i <= self.path@.len(),
                s@ == dotted(strings_view(self.path@.take(i as int))),
            decreases self.path@.len() - i,
        {
            if i > 0 {
                s.append(".");
            }
            s.append(self.path[i].as_str());
            proof {
                assert(strings_view(self.path@.take(i + 1)).drop_last() =~= strings_view(
                    self.path@.take(i as int),
                ));
            }
            i = i + 1;
        }
        assert(self.path@.take(self.path@.len() as int) =~= self.path@);
        s
    }
}

/// The characters of each string.
pub open spec fn strings_view(v: Seq<String>) -> Seq<Seq<char>> {
    Seq::new(v.len(), |i: int| v[i]@)
}

/// Names joined with dots between them.
pub open spec fn dotted(names: Seq<Seq<char>>) -> Seq<char>
    decreases names.len(),
{
    if names.len() == 0 {
        Seq::empty()
    } else if names.len() == 1 {
        names[0]
    } else {
        dotted(names.drop_last()) + "."@ + names.last()
    }
}

#[derive(Clone, Debug, PartialEq)]
pub struct RowGroup {
    pub num_rows: i64,
    pub total_byte_size: i64,
    pub columns: Vec<ColumnChunk>,
    pub span: Span,
}

#[derive(Clone, Debug, PartialEq)]
pub struct KeyValue {
    pub key: String,
    pub value: Option<String>,
}

/// The whole footer, typed.
#[derive(Debug, PartialEq)]
pub struct FileMetaData {
    pub version: i64,
    pub schema: Vec<SchemaElement>,
    pub num_rows: i64,
    pub row_groups: Vec<RowGroup>,
    pub key_value_metadata: Vec<KeyValue>,
    pub created_by: Option<String>,
    /// The decoded Thrift tree the fields above were taken from, kept because a browser shows
    /// every field, including the ones this struct does not name.
    pub tree: Node,
}

/// Whether a schema element is a leaf: it holds data, and has no children.
pub open spec fn is_leaf_element(e: SchemaElement) -> bool {
    match e.num_children {
        Some(n) => n == 0,
        None => true,
    }
}

/// The schema elements after the root, which are leaves, in order.
pub open spec fn leaf_elements(schema: Seq<SchemaElement>) -> Seq<SchemaElement> {
    if schema.len() == 0 {
        Seq::empty()
    } else {
        schema.skip(1).filter(|e: SchemaElement| is_leaf_element(e))
    }
}

impl FileMetaData {
    /// The leaf columns: the schema elements that hold data. Groups have children; leaves do not.
    pub fn leaves(&self) -> (r: Vec<&SchemaElement>)
        ensures
            r@.len() == leaf_elements(self.schema@).len(),
            forall|i: int| 0 <= i < r@.len() ==> *r@[i] == leaf_elements(self.schema@)[i],
    {
        let mut out: Vec<&SchemaElement> = Vec::new();
        let n = self.schema.len();
        if n == 0 {
            return out;
        }
        let mut i: usize = 1;
        proof {
            reveal(Seq::filter);
            assert(self.schema@.subrange(1, 1) =~= Seq::<SchemaElement>::empty());
            assert(Seq::<SchemaElement>::empty().filter(|e: SchemaElement| is_leaf_element(e))
                =~= Seq::<SchemaElement>::empty());
        }
        while i < n
            invariant
                1 <= i <= n,
                n == self.schema@.len(),
                out@.len() == self.schema@.subrange(1, i as int).filter(
                    |e: SchemaElement| is_leaf_element(e),
                ).len(),
                forall|k: int|
                    0 <= k < out@.len() ==> *out@[k] == self.schema@.subrange(1, i as int).filter(
                        |e: SchemaElement| is_leaf_element(e),
                    )[k],
            decreases n - i,
        {
            let e = &self.schema[i];
            let leaf = match e.num_children {
                Some(c) => c == 0,
                None => true,
            };
            proof {
                let f = |e: SchemaElement| is_leaf_element(e);
                let s = self.schema@.subrange(1, i + 1);
                assert(s.drop_last() =~= self.schema@.subrange(1, i as int));
                assert(s.last() == *e);
                reveal(Seq::filter);
            }
            if leaf {
                out.push(e);
            }
            i = i + 1;
        }
        assert(self.schema@.subrange(1, n as int) =~= self.schema@.skip(1));
        out
    }
}

// What the decoder reads from a struct's fields.

/// The fields of a struct node, or the error a non-struct gives.
pub open spec fn struct_of(n: NodeV) -> Result<Seq<FieldV>, MetadataError> {
    match n.value {
        ValueV::Struct(fs) => Ok(fs),
        _ => Err(MetadataError::NotAStruct { span: n.span }),
    }
}

/// The bytes in the first field with the given id, if it holds bytes.
pub open spec fn binary_in(fs: Seq<FieldV>, id: i16) -> Option<Seq<u8>> {
    match find_field(fs, id) {
        Some(i) => match fs[i].node.value {
            ValueV::Binary(b) => Some(b),
            _ => None,
        },
        None => None,
    }
}

/// The items of the first field with the given id, if it holds a list.
pub open spec fn list_in(fs: Seq<FieldV>, id: i16) -> Option<Seq<NodeV>> {
    match find_field(fs, id) {
        Some(i) => match fs[i].node.value {
            ValueV::List(items) => Some(items),
            _ => None,
        },
        None => None,
    }
}

/// Everything a field occupies: its header and its value.
pub open spec fn field_span(f: FieldV) -> Span {
    Span {
        start: f.header.start,
        end: if f.node.span.end < f.header.end {
            f.header.end
        } else {
            f.node.span.end
        },
    }
}

/// What a required field gives: its value when it has the right wire type, else why not.
pub open spec fn required<T>(
    fs: Seq<FieldV>,
    structure: &'static str,
    id: i16,
    field: &'static str,
    span: Span,
    value: spec_fn(ValueV) -> Option<T>,
) -> Result<T, MetadataError> {
    match find_field(fs, id) {
        None => Err(MetadataError::Missing { structure, field, span }),
        Some(i) => match value(fs[i].node.value) {
            Some(v) => Ok(v),
            None => Err(MetadataError::WrongType { structure, field, span: field_span(fs[i]) }),
        },
    }
}

pub open spec fn int_value(v: ValueV) -> Option<i64> {
    match v {
        ValueV::Int(x) => Some(x),
        _ => None,
    }
}

pub open spec fn text_value(v: ValueV) -> Option<Seq<char>> {
    match v {
        ValueV::Binary(b) => Some(lossy_text(b)),
        _ => None,
    }
}

pub open spec fn list_value(v: ValueV) -> Option<Seq<NodeV>> {
    match v {
        ValueV::List(items) => Some(items),
        _ => None,
    }
}

pub open spec fn required_int(
    fs: Seq<FieldV>,
    structure: &'static str,
    id: i16,
    field: &'static str,
    span: Span,
) -> Result<i64, MetadataError> {
    required(fs, structure, id, field, span, |v: ValueV| int_value(v))
}

pub open spec fn required_text(
    fs: Seq<FieldV>,
    structure: &'static str,
    id: i16,
    field: &'static str,
    span: Span,
) -> Result<Seq<char>, MetadataError> {
    required(fs, structure, id, field, span, |v: ValueV| text_value(v))
}

pub open spec fn required_items(
    fs: Seq<FieldV>,
    structure: &'static str,
    id: i16,
    field: &'static str,
    span: Span,
) -> Result<Seq<NodeV>, MetadataError> {
    required(fs, structure, id, field, span, |v: ValueV| list_value(v))
}

/// The error of a result, if it is one.
pub open spec fn err_of<T>(r: Result<T, MetadataError>) -> Option<MetadataError> {
    match r {
        Ok(_) => None,
        Err(e) => Some(e),
    }
}

/// The first of two possible errors.
pub open spec fn or_else(a: Option<MetadataError>, b: Option<MetadataError>) -> Option<MetadataError> {
    match a {
        Some(e) => Some(e),
        None => b,
    }
}

/// The error of the first item that has one.
pub open spec fn first_error(items: Seq<NodeV>, f: spec_fn(NodeV) -> Option<MetadataError>) -> Option<
    MetadataError,
>
    decreases items.len(),
{
    if items.len() == 0 {
        None
    } else {
        match f(items[0]) {
            Some(e) => Some(e),
            None => first_error(items.drop_first(), f),
        }
    }
}

/// The error of a required list: the list's own, or that of its first bad item.
pub open spec fn list_error(
    r: Result<Seq<NodeV>, MetadataError>,
    f: spec_fn(NodeV) -> Option<MetadataError>,
) -> Option<MetadataError> {
    match r {
        Err(e) => Some(e),
        Ok(items) => first_error(items, f),
    }
}

proof fn lemma_first_error_at(items: Seq<NodeV>, f: spec_fn(NodeV) -> Option<MetadataError>, i: int)
    requires
        0 <= i < items.len(),
        forall|k: int| 0 <= k < i ==> f(items[k]) is None,
        f(items[i]) is Some,
    ensures
        first_error(items, f) == f(items[i]),
    decreases items.len(),
{
    if i > 0 {
        lemma_first_error_at(items.drop_first(), f, i - 1);
    }
}

proof fn lemma_first_error_none(items: Seq<NodeV>, f: spec_fn(NodeV) -> Option<MetadataError>)
    requires
        forall|k: int| 0 <= k < items.len() ==> f(items[k]) is None,
    ensures
        first_error(items, f) is None,
    decreases items.len(),
{
    if items.len() > 0 {
        lemma_first_error_none(items.drop_first(), f);
    }
}

/// The text of an optional value.
pub open spec fn opt_text(o: Option<String>) -> Option<Seq<char>> {
    match o {
        Some(s) => Some(s@),
        None => None,
    }
}

/// The name of an optional enum value.
pub open spec fn opt_enum(e: EnumName, o: Option<i64>) -> Option<Seq<char>> {
    match o {
        Some(v) => Some(enum_text(e, v)),
        None => None,
    }
}

/// The logical type in the first field with the given id.
pub open spec fn logical_in(fs: Seq<FieldV>, id: i16) -> Option<LogicalType> {
    match find_field(fs, id) {
        Some(i) => logical_of(fs[i].node),
        None => None,
    }
}

// Schema elements.

pub open spec fn schema_errors() -> spec_fn(NodeV) -> Option<MetadataError> {
    |n: NodeV| schema_element_error(n)
}

pub open spec fn column_errors() -> spec_fn(NodeV) -> Option<MetadataError> {
    |n: NodeV| column_chunk_error(n)
}

pub open spec fn row_group_errors() -> spec_fn(NodeV) -> Option<MetadataError> {
    |n: NodeV| row_group_error(n)
}

pub open spec fn key_value_errors() -> spec_fn(NodeV) -> Option<MetadataError> {
    |n: NodeV| key_value_error(n)
}

pub open spec fn schema_element_error(n: NodeV) -> Option<MetadataError> {
    match struct_of(n) {
        Err(e) => Some(e),
        Ok(fs) => err_of(required_text(fs, "SchemaElement", 4, "name", n.span)),
    }
}

pub open spec fn schema_element_of(n: NodeV, e: SchemaElement) -> bool {
    match struct_of(n) {
        Err(_) => false,
        Ok(fs) => {
            &&& required_text(fs, "SchemaElement", 4, "name", n.span) == Ok::<Seq<char>, MetadataError>(
                e.name@,
            )
            &&& e.physical_type == match int_in(fs, 1) {
                Some(v) => Some(PhysicalType(v)),
                None => None,
            }
            &&& e.type_length == int_in(fs, 2)
            &&& opt_text(e.repetition) == opt_enum(EnumName::FieldRepetitionType, int_in(fs, 3))
            &&& e.num_children == int_in(fs, 5)
            &&& opt_text(e.converted_type) == opt_enum(EnumName::ConvertedType, int_in(fs, 6))
            &&& e.scale == int_in(fs, 7)
            &&& e.precision == int_in(fs, 8)
            &&& e.field_id == int_in(fs, 9)
            &&& e.logical_type == logical_in(fs, 10)
            &&& e.span == n.span
        },
    }
}

// Statistics.

/// The span of a binary field's bytes, without the varint length in front of them. A decoded
/// binary's span always holds its bytes, so the start is its end less its length.
pub open spec fn value_span_in(fs: Seq<FieldV>, id: i16) -> Option<Span> {
    match find_field(fs, id) {
        Some(i) => match fs[i].node.value {
            ValueV::Binary(b) => Some(
                Span {
                    start: if b.len() <= fs[i].node.span.end {
                        (fs[i].node.span.end - b.len()) as u64
                    } else {
                        0
                    },
                    end: fs[i].node.span.end,
                },
            ),
            _ => None,
        },
        None => None,
    }
}

pub open spec fn either<T>(a: Option<T>, b: Option<T>) -> Option<T> {
    match a {
        Some(x) => Some(x),
        None => b,
    }
}

pub open spec fn opt_bytes_view(o: Option<Vec<u8>>) -> Option<Seq<u8>> {
    match o {
        Some(v) => Some(v@),
        None => None,
    }
}

pub open spec fn statistics_of(n: NodeV, st: Statistics) -> bool {
    match struct_of(n) {
        Err(_) => false,
        Ok(fs) => {
            &&& opt_bytes_view(st.min_value) == binary_in(fs, 6)
            &&& opt_bytes_view(st.max_value) == binary_in(fs, 5)
            &&& st.min_span == value_span_in(fs, 6)
            &&& st.max_span == value_span_in(fs, 5)
            &&& opt_bytes_view(st.min) == binary_in(fs, 2)
            &&& opt_bytes_view(st.max) == binary_in(fs, 1)
            &&& st.min_deprecated_span == value_span_in(fs, 2)
            &&& st.max_deprecated_span == value_span_in(fs, 1)
            &&& st.null_count == int_in(fs, 3)
            &&& st.is_max_value_exact == bool_in(fs, 7)
            &&& st.is_min_value_exact == bool_in(fs, 8)
            &&& st.span == n.span
        },
    }
}

// Column chunks.

/// The `meta_data` struct of a column chunk: required here, since this reader does not decrypt.
pub open spec fn chunk_meta(n: NodeV) -> Result<NodeV, MetadataError> {
    match struct_of(n) {
        Err(e) => Err(e),
        Ok(fs) => match find_field(fs, 3) {
            None => Err(
                MetadataError::Missing {
                    structure: "ColumnChunk",
                    field: "meta_data",
                    span: n.span,
                },
            ),
            Some(i) => Ok(fs[i].node),
        },
    }
}

/// The encodings of a column chunk: the integers of the list, named.
pub open spec fn encoding_names(items: Seq<NodeV>) -> Seq<Seq<char>>
    decreases items.len(),
{
    if items.len() == 0 {
        Seq::empty()
    } else {
        let rest = encoding_names(items.drop_last());
        match items.last().value {
            ValueV::Int(v) => rest.push(enum_text(EnumName::Encoding, v)),
            _ => rest,
        }
    }
}

/// The path of a column chunk: the binaries of the list, as text.
pub open spec fn path_names(items: Seq<NodeV>) -> Seq<Seq<char>>
    decreases items.len(),
{
    if items.len() == 0 {
        Seq::empty()
    } else {
        let rest = path_names(items.drop_last());
        match items.last().value {
            ValueV::Binary(b) => rest.push(lossy_text(b)),
            _ => rest,
        }
    }
}

pub open spec fn cmd_int(m: NodeV, id: i16, field: &'static str) -> Result<i64, MetadataError> {
    match struct_of(m) {
        Err(e) => Err(e),
        Ok(fs) => required_int(fs, "ColumnMetaData", id, field, m.span),
    }
}

pub open spec fn cmd_items(m: NodeV, id: i16, field: &'static str) -> Result<
    Seq<NodeV>,
    MetadataError,
> {
    match struct_of(m) {
        Err(e) => Err(e),
        Ok(fs) => required_items(fs, "ColumnMetaData", id, field, m.span),
    }
}

pub open spec fn statistics_error(m: NodeV) -> Option<MetadataError> {
    match struct_of(m) {
        Err(e) => Some(e),
        Ok(fs) => match find_field(fs, 12) {
            Some(i) => err_of(struct_of(fs[i].node)),
            None => None,
        },
    }
}

pub open spec fn column_chunk_error(n: NodeV) -> Option<MetadataError> {
    match chunk_meta(n) {
        Err(e) => Some(e),
        Ok(m) => match struct_of(m) {
            Err(e) => Some(e),
            Ok(_) => or_else(
                err_of(cmd_int(m, 1, "type")),
                or_else(
                    err_of(cmd_items(m, 2, "encodings")),
                    or_else(
                        err_of(cmd_items(m, 3, "path_in_schema")),
                        or_else(
                            err_of(cmd_int(m, 4, "codec")),
                            or_else(
                                err_of(cmd_int(m, 5, "num_values")),
                                or_else(
                                    err_of(cmd_int(m, 6, "total_uncompressed_size")),
                                    or_else(
                                        err_of(cmd_int(m, 7, "total_compressed_size")),
                                        or_else(
                                            err_of(cmd_int(m, 9, "data_page_offset")),
                                            statistics_error(m),
                                        ),
                                    ),
                                ),
                            ),
                        ),
                    ),
                ),
            ),
        },
    }
}

pub open spec fn column_chunk_of(n: NodeV, c: ColumnChunk) -> bool {
    match chunk_meta(n) {
        Err(_) => false,
        Ok(m) => match struct_of(m) {
            Err(_) => false,
            Ok(fs) => {
                &&& cmd_int(m, 1, "type") == Ok::<i64, MetadataError>(c.physical_type.0)
                &&& cmd_items(m, 2, "encodings") matches Ok(items) && strings_view(c.encodings@)
                    == encoding_names(items)
                &&& cmd_items(m, 3, "path_in_schema") matches Ok(items) && strings_view(c.path@)
                    == path_names(items)
                &&& cmd_int(m, 4, "codec") matches Ok(v) && c.codec@ == enum_text(
                    EnumName::CompressionCodec,
                    v,
                )
                &&& cmd_int(m, 5, "num_values") == Ok::<i64, MetadataError>(c.num_values)
                &&& cmd_int(m, 6, "total_uncompressed_size") == Ok::<i64, MetadataError>(
                    c.total_uncompressed_size,
                )
                &&& cmd_int(m, 7, "total_compressed_size") == Ok::<i64, MetadataError>(
                    c.total_compressed_size,
                )
                &&& cmd_int(m, 9, "data_page_offset") == Ok::<i64, MetadataError>(
                    c.data_page_offset,
                )
                &&& c.dictionary_page_offset == int_in(fs, 11)
                &&& match find_field(fs, 12) {
                    Some(i) => c.statistics matches Some(st) && statistics_of(fs[i].node, st),
                    None => c.statistics is None,
                }
                &&& c.span == n.span
            },
        },
    }
}

// Row groups, key-value pairs and the file.

pub open spec fn row_group_error(n: NodeV) -> Option<MetadataError> {
    match struct_of(n) {
        Err(e) => Some(e),
        Ok(fs) => or_else(
            list_error(
                required_items(fs, "RowGroup", 1, "columns", n.span),
                column_errors(),
            ),
            or_else(
                err_of(required_int(fs, "RowGroup", 2, "total_byte_size", n.span)),
                err_of(required_int(fs, "RowGroup", 3, "num_rows", n.span)),
            ),
        ),
    }
}

pub open spec fn row_group_of(n: NodeV, g: RowGroup) -> bool {
    match struct_of(n) {
        Err(_) => false,
        Ok(fs) => {
            &&& required_items(fs, "RowGroup", 1, "columns", n.span) matches Ok(items) && g.columns@.len()
                == items.len() && forall|i: int|
                0 <= i < items.len() ==> column_chunk_of(items[i], #[trigger] g.columns@[i])
            &&& required_int(fs, "RowGroup", 2, "total_byte_size", n.span) == Ok::<i64, MetadataError>(
                g.total_byte_size,
            )
            &&& required_int(fs, "RowGroup", 3, "num_rows", n.span) == Ok::<i64, MetadataError>(
                g.num_rows,
            )
            &&& g.span == n.span
        },
    }
}

pub open spec fn key_value_error(n: NodeV) -> Option<MetadataError> {
    match struct_of(n) {
        Err(e) => Some(e),
        Ok(fs) => err_of(required_text(fs, "KeyValue", 1, "key", n.span)),
    }
}

pub open spec fn key_value_of(n: NodeV, kv: KeyValue) -> bool {
    match struct_of(n) {
        Err(_) => false,
        Ok(fs) => {
            &&& required_text(fs, "KeyValue", 1, "key", n.span) == Ok::<Seq<char>, MetadataError>(
                kv.key@,
            )
            &&& opt_text(kv.value) == match binary_in(fs, 2) {
                Some(b) => Some(lossy_text(b)),
                None => None,
            }
        },
    }
}

/// Why a decoded footer tree is not a `FileMetaData`, if it is not.
pub open spec fn file_error(t: NodeV) -> Option<MetadataError> {
    match struct_of(t) {
        Err(e) => Some(e),
        Ok(fs) => or_else(
            err_of(required_int(fs, "FileMetaData", 1, "version", t.span)),
            or_else(
                list_error(
                    required_items(fs, "FileMetaData", 2, "schema", t.span),
                    schema_errors(),
                ),
                or_else(
                    err_of(required_int(fs, "FileMetaData", 3, "num_rows", t.span)),
                    or_else(
                        list_error(
                            required_items(fs, "FileMetaData", 4, "row_groups", t.span),
                            row_group_errors(),
                        ),
                        match list_in(fs, 5) {
                            Some(items) => first_error(items, key_value_errors()),
                            None => None,
                        },
                    ),
                ),
            ),
        ),
    }
}

/// Whether `m` holds what the decoded footer tree `t` says.
pub open spec fn file_of(t: NodeV, m: FileMetaData) -> bool {
    match struct_of(t) {
        Err(_) => false,
        Ok(fs) => {
            &&& node_view(m.tree) == t
            &&& required_int(fs, "FileMetaData", 1, "version", t.span) == Ok::<i64, MetadataError>(
                m.version,
            )
            &&& required_items(fs, "FileMetaData", 2, "schema", t.span) matches Ok(items)
                && m.schema@.len() == items.len() && forall|i: int|
                0 <= i < items.len() ==> schema_element_of(items[i], #[trigger] m.schema@[i])
            &&& required_int(fs, "FileMetaData", 3, "num_rows", t.span) == Ok::<i64, MetadataError>(
                m.num_rows,
            )
            &&& required_items(fs, "FileMetaData", 4, "row_groups", t.span) matches Ok(items)
                && m.row_groups@.len() == items.len() && forall|i: int|
                0 <= i < items.len() ==> row_group_of(items[i], #[trigger] m.row_groups@[i])
            &&& match list_in(fs, 5) {
                Some(items) => m.key_value_metadata@.len() == items.len() && forall|i: int|
                    0 <= i < items.len() ==> key_value_of(
                        items[i],
                        #[trigger] m.key_value_metadata@[i],
                    ),
                None => m.key_value_metadata@.len() == 0,
            }
            &&& opt_text(m.created_by) == match binary_in(fs, 6) {
                Some(b) => Some(lossy_text(b)),
                None => None,
            }
        },
    }
}

/// What decoding a footer gives: the thrift error, leftover bytes, the first field that is
/// missing or of the wrong type, or the metadata.
pub open spec fn footer_decoded(
    footer: Seq<u8>,
    base: u64,
    r: Result<FileMetaData, MetadataError>,
) -> bool {
    match tstruct(footer, base, 0, 0) {
        Err(e) => r == Err::<FileMetaData, MetadataError>(MetadataError::Thrift(e)),
        Ok((t, end)) => if end < footer.len() {
            r == Err::<FileMetaData, MetadataError>(
                MetadataError::TrailingBytes {
                    span: Span { start: (base + end) as u64, end: (base + footer.len()) as u64 },
                },
            )
        } else {
            match file_error(t) {
                Some(e) => r == Err::<FileMetaData, MetadataError>(e),
                None => r matches Ok(m) && file_of(t, m),
            }
        },
    }
}

// The decoder.

pub(crate) fn as_struct(node: &Node) -> (r: Result<&Struct, MetadataError>)
    ensures
        r matches Err(e) ==> !(e is TrailingBytes),
        match r {
            Ok(s) => node.value == Value::Struct(*s) && struct_of(node_view(*node)) == Ok::<
                Seq<FieldV>,
                MetadataError,
            >(field_views(s.fields@)),
            Err(e) => struct_of(node_view(*node)) == Err::<Seq<FieldV>, MetadataError>(e),
        },
{
    match &node.value {
        Value::Struct(s) => Ok(s),
        _ => Err(MetadataError::NotAStruct { span: node.span }),
    }
}

pub(crate) fn opt_int(s: &Struct, id: i16) -> (r: Option<i64>)
    ensures
        r == int_in(field_views(s.fields@), id),
{
    proof {
        lemma_find_field_views(s.fields@, id);
    }
    match s.field(id) {
        Some(f) => match f.node.value {
            Value::Int(v) => Some(v),
            _ => None,
        },
        None => None,
    }
}

pub(crate) fn opt_bool(s: &Struct, id: i16) -> (r: Option<bool>)
    ensures
        r == bool_in(field_views(s.fields@), id),
{
    proof {
        lemma_find_field_views(s.fields@, id);
    }
    match s.field(id) {
        Some(f) => match f.node.value {
            Value::Bool(v) => Some(v),
            _ => None,
        },
        None => None,
    }
}

fn opt_bytes(s: &Struct, id: i16) -> (r: Option<Vec<u8>>)
    ensures
        opt_bytes_view(r) == binary_in(field_views(s.fields@), id),
{
    proof {
        lemma_find_field_views(s.fields@, id);
    }
    match s.field(id) {
        Some(f) => match &f.node.value {
            Value::Binary(b) => Some(vstd::slice::slice_to_vec(b.as_slice())),
            _ => None,
        },
        None => None,
    }
}

fn opt_str(s: &Struct, id: i16) -> (r: Option<String>)
    ensures
        opt_text(r) == match binary_in(field_views(s.fields@), id) {
            Some(b) => Some(lossy_text(b)),
            None => None,
        },
{
    proof {
        lemma_find_field_views(s.fields@, id);
    }
    match s.field(id) {
        Some(f) => match &f.node.value {
            Value::Binary(b) => Some(utf8_lossy(b.as_slice())),
            _ => None,
        },
        None => None,
    }
}

fn opt_list(s: &Struct, id: i16) -> (r: Option<&Vec<Node>>)
    ensures
        match list_in(field_views(s.fields@), id) {
            Some(items) => r matches Some(v) && node_views(v@) == items,
            None => r is None,
        },
{
    proof {
        lemma_find_field_views(s.fields@, id);
    }
    match s.field(id) {
        Some(f) => match &f.node.value {
            Value::List(items) => Some(items),
            _ => None,
        },
        None => None,
    }
}

/// The span of a binary field's bytes, without the varint length in front of them.
fn value_span(s: &Struct, id: i16) -> (r: Option<Span>)
    ensures
        r == value_span_in(field_views(s.fields@), id),
{
    proof {
        lemma_find_field_views(s.fields@, id);
    }
    match s.field(id) {
        Some(f) => match &f.node.value {
            Value::Binary(b) => {
                let end = f.node.span.end;
                let n = b.len() as u64;
                let start = if n <= end {
                    end - n
                } else {
                    0
                };
                Some(Span::new(start, end))
            },
            _ => None,
        },
        None => None,
    }
}

fn whole_span(f: &Field) -> (r: Span)
    ensures
        r == field_span(crate::thrift::field_view(*f)),
{
    let end = if f.node.span.end < f.header.end {
        f.header.end
    } else {
        f.node.span.end
    };
    Span { start: f.header.start, end }
}

pub(crate) fn req_int(
    s: &Struct,
    structure: &'static str,
    id: i16,
    field: &'static str,
    span: Span,
) -> (r: Result<i64, MetadataError>)
    ensures
        r matches Err(e) ==> !(e is TrailingBytes),
        r == required_int(field_views(s.fields@), structure, id, field, span),
{
    proof {
        lemma_find_field_views(s.fields@, id);
    }
    match s.field(id) {
        None => Err(MetadataError::Missing { structure, field, span }),
        Some(f) => match f.node.value {
            Value::Int(v) => Ok(v),
            _ => Err(MetadataError::WrongType { structure, field, span: whole_span(f) }),
        },
    }
}

fn req_str(
    s: &Struct,
    structure: &'static str,
    id: i16,
    field: &'static str,
    span: Span,
) -> (r: Result<String, MetadataError>)
    ensures
        r matches Err(e) ==> !(e is TrailingBytes),
        match required_text(field_views(s.fields@), structure, id, field, span) {
            Ok(t) => r matches Ok(v) && v@ == t,
            Err(e) => r == Err::<String, MetadataError>(e),
        },
{
    proof {
        lemma_find_field_views(s.fields@, id);
    }
    match s.field(id) {
        None => Err(MetadataError::Missing { structure, field, span }),
        Some(f) => match &f.node.value {
            Value::Binary(b) => Ok(utf8_lossy(b.as_slice())),
            _ => Err(MetadataError::WrongType { structure, field, span: whole_span(f) }),
        },
    }
}

fn req_list<'a>(
    s: &'a Struct,
    structure: &'static str,
    id: i16,
    field: &'static str,
    span: Span,
) -> (r: Result<&'a Vec<Node>, MetadataError>)
    ensures
        r matches Err(e) ==> !(e is TrailingBytes),
        match required_items(field_views(s.fields@), structure, id, field, span) {
            Ok(items) => r matches Ok(v) && node_views(v@) == items,
            Err(e) => r == Err::<&Vec<Node>, MetadataError>(e),
        },
{
    proof {
        lemma_find_field_views(s.fields@, id);
    }
    match s.field(id) {
        None => Err(MetadataError::Missing { structure, field, span }),
        Some(f) => match &f.node.value {
            Value::List(items) => Ok(items),
            _ => Err(MetadataError::WrongType { structure, field, span: whole_span(f) }),
        },
    }
}

fn schema_element(node: &Node) -> (r: Result<SchemaElement, MetadataError>)
    ensures
        r matches Err(e) ==> !(e is TrailingBytes),
        match schema_element_error(node_view(*node)) {
            Some(e) => r == Err::<SchemaElement, MetadataError>(e),
            None => r matches Ok(el) && schema_element_of(node_view(*node), el),
        },
{
    let s = match as_struct(node) {
        Ok(s) => s,
        Err(e) => {
            return Err(e);
        },
    };
    let name = match req_str(s, "SchemaElement", 4, "name", node.span) {
        Ok(n) => n,
        Err(e) => {
            return Err(e);
        },
    };
    let physical_type = match opt_int(s, 1) {
        Some(v) => Some(PhysicalType(v)),
        None => None,
    };
    let repetition = match opt_int(s, 3) {
        Some(v) => Some(enum_name(EnumName::FieldRepetitionType, v)),
        None => None,
    };
    let converted_type = match opt_int(s, 6) {
        Some(v) => Some(enum_name(EnumName::ConvertedType, v)),
        None => None,
    };
    proof {
        lemma_find_field_views(s.fields@, 10);
    }
    let logical_type = match s.field(10) {
        Some(f) => decode(&f.node),
        None => None,
    };
    Ok(
        SchemaElement {
            name,
            physical_type,
            type_length: opt_int(s, 2),
            repetition,
            num_children: opt_int(s, 5),
            converted_type,
            logical_type,
            scale: opt_int(s, 7),
            precision: opt_int(s, 8),
            field_id: opt_int(s, 9),
            span: node.span,
        },
    )
}

fn schema_elements(items: &Vec<Node>) -> (r: Result<Vec<SchemaElement>, MetadataError>)
    ensures
        r matches Err(e) ==> !(e is TrailingBytes),
        match first_error(node_views(items@), schema_errors()) {
            Some(e) => r == Err::<Vec<SchemaElement>, MetadataError>(e),
            None => r matches Ok(v) && v@.len() == items@.len() && forall|i: int|
                0 <= i < items@.len() ==> schema_element_of(
                    node_views(items@)[i],
                    #[trigger] v@[i],
                ),
        },
{
    let mut out: Vec<SchemaElement> = Vec::new();
    let mut i: usize = 0;
    while i < items.len()
        invariant
            i <= items@.len(),
            out@.len() == i,
            forall|k: int| 0 <= k < i ==> schema_element_error(node_views(items@)[k]) is None,
            forall|k: int|
                0 <= k < i ==> schema_element_of(node_views(items@)[k], #[trigger] out@[k]),
        decreases items@.len() - i,
    {
        assert(node_views(items@)[i as int] == node_view(items@[i as int]));
        match schema_element(&items[i]) {
            Ok(el) => {
                out.push(el);
            },
            Err(e) => {
                proof {
                    assert(schema_element_error(node_view(items@[i as int])) == Some(e));
                    assert(schema_element_error(node_views(items@)[i as int]) == Some(e));
                    assert(schema_errors()(node_views(items@)[i as int]) == Some(e));
                    lemma_first_error_at(node_views(items@), schema_errors(), i as int);
                }
                return Err(e);
            },
        }
        i = i + 1;
    }
    proof {
        lemma_first_error_none(node_views(items@), schema_errors());
    }
    Ok(out)
}

pub(crate) fn statistics(node: &Node) -> (r: Result<Statistics, MetadataError>)
    ensures
        r matches Err(e) ==> !(e is TrailingBytes),
        match struct_of(node_view(*node)) {
            Err(e) => r == Err::<Statistics, MetadataError>(e),
            Ok(_) => r matches Ok(st) && statistics_of(node_view(*node), st),
        },
{
    let s = match as_struct(node) {
        Ok(s) => s,
        Err(e) => {
            return Err(e);
        },
    };
    Ok(
        Statistics {
            min_value: opt_bytes(s, 6),
            max_value: opt_bytes(s, 5),
            min_span: value_span(s, 6),
            max_span: value_span(s, 5),
            min: opt_bytes(s, 2),
            max: opt_bytes(s, 1),
            min_deprecated_span: value_span(s, 2),
            max_deprecated_span: value_span(s, 1),
            null_count: opt_int(s, 3),
            is_max_value_exact: opt_bool(s, 7),
            is_min_value_exact: opt_bool(s, 8),
            span: node.span,
        },
    )
}

fn encoding_list(items: &Vec<Node>) -> (r: Vec<String>)
    ensures
        strings_view(r@) == encoding_names(node_views(items@)),
{
    let mut out: Vec<String> = Vec::new();
    let mut i: usize = 0;
    while i < items.len()
        invariant
            i <= items@.len(),
            strings_view(out@) == encoding_names(node_views(items@).take(i as int)),
        decreases items@.len() - i,
    {
        proof {
            assert(node_views(items@).take(i + 1).drop_last() =~= node_views(items@).take(i as int));
            assert(node_views(items@).take(i + 1).last() == node_view(items@[i as int]));
        }
        match items[i].value {
            Value::Int(v) => {
                let name = enum_name(EnumName::Encoding, v);
                let ghost before = out@;
                out.push(name);
                assert(strings_view(out@) =~= strings_view(before).push(name@));
            },
            _ => {},
        }
        i = i + 1;
    }
    assert(node_views(items@).take(items@.len() as int) =~= node_views(items@));
    out
}

fn path_list(items: &Vec<Node>) -> (r: Vec<String>)
    ensures
        strings_view(r@) == path_names(node_views(items@)),
{
    let mut out: Vec<String> = Vec::new();
    let mut i: usize = 0;
    while i < items.len()
        invariant
            i <= items@.len(),
            strings_view(out@) == path_names(node_views(items@).take(i as int)),
        decreases items@.len() - i,
    {
        proof {
            assert(node_views(items@).take(i + 1).drop_last() =~= node_views(items@).take(i as int));
            assert(node_views(items@).take(i + 1).last() == node_view(items@[i as int]));
        }
        match &items[i].value {
            Value::Binary(b) => {
                let name = utf8_lossy(b.as_slice());
                let ghost before = out@;
                out.push(name);
                assert(strings_view(out@) =~= strings_view(before).push(name@));
            },
            _ => {},
        }
        i = i + 1;
    }
    assert(node_views(items@).take(items@.len() as int) =~= node_views(items@));
    out
}

fn column_chunk(node: &Node) -> (r: Result<ColumnChunk, MetadataError>)
    ensures
        r matches Err(e) ==> !(e is TrailingBytes),
        match column_chunk_error(node_view(*node)) {
            Some(e) => r == Err::<ColumnChunk, MetadataError>(e),
            None => r matches Ok(c) && column_chunk_of(node_view(*node), c),
        },
{
    let chunk = match as_struct(node) {
        Ok(s) => s,
        Err(e) => {
            return Err(e);
        },
    };
    proof {
        lemma_find_field_views(chunk.fields@, 3);
    }
    // ColumnMetaData is optional in the Thrift definition only because an encrypted column
    // hides it. This reader does not decrypt, so for it the field is required.
    let meta_field = match chunk.field(3) {
        Some(f) => f,
        None => {
            return Err(
                MetadataError::Missing {
                    structure: "ColumnChunk",
                    field: "meta_data",
                    span: node.span,
                },
            );
        },
    };
    let m = match as_struct(&meta_field.node) {
        Ok(s) => s,
        Err(e) => {
            return Err(e);
        },
    };
    let span = meta_field.node.span;
    let physical = match req_int(m, "ColumnMetaData", 1, "type", span) {
        Ok(v) => v,
        Err(e) => {
            return Err(e);
        },
    };
    let encodings = match req_list(m, "ColumnMetaData", 2, "encodings", span) {
        Ok(items) => encoding_list(items),
        Err(e) => {
            return Err(e);
        },
    };
    let path = match req_list(m, "ColumnMetaData", 3, "path_in_schema", span) {
        Ok(items) => path_list(items),
        Err(e) => {
            return Err(e);
        },
    };
    let codec = match req_int(m, "ColumnMetaData", 4, "codec", span) {
        Ok(v) => enum_name(EnumName::CompressionCodec, v),
        Err(e) => {
            return Err(e);
        },
    };
    let num_values = match req_int(m, "ColumnMetaData", 5, "num_values", span) {
        Ok(v) => v,
        Err(e) => {
            return Err(e);
        },
    };
    let total_uncompressed_size = match req_int(
        m,
        "ColumnMetaData",
        6,
        "total_uncompressed_size",
        span,
    ) {
        Ok(v) => v,
        Err(e) => {
            return Err(e);
        },
    };
    let total_compressed_size = match req_int(m, "ColumnMetaData", 7, "total_compressed_size", span) {
        Ok(v) => v,
        Err(e) => {
            return Err(e);
        },
    };
    let data_page_offset = match req_int(m, "ColumnMetaData", 9, "data_page_offset", span) {
        Ok(v) => v,
        Err(e) => {
            return Err(e);
        },
    };
    proof {
        lemma_find_field_views(m.fields@, 12);
    }
    let statistics = match m.field(12) {
        Some(f) => match statistics(&f.node) {
            Ok(st) => Some(st),
            Err(e) => {
                return Err(e);
            },
        },
        None => None,
    };
    Ok(
        ColumnChunk {
            path,
            physical_type: PhysicalType(physical),
            encodings,
            codec,
            num_values,
            total_uncompressed_size,
            total_compressed_size,
            data_page_offset,
            dictionary_page_offset: opt_int(m, 11),
            statistics,
            span: node.span,
        },
    )
}

fn column_chunks(items: &Vec<Node>) -> (r: Result<Vec<ColumnChunk>, MetadataError>)
    ensures
        r matches Err(e) ==> !(e is TrailingBytes),
        match first_error(node_views(items@), column_errors()) {
            Some(e) => r == Err::<Vec<ColumnChunk>, MetadataError>(e),
            None => r matches Ok(v) && v@.len() == items@.len() && forall|i: int|
                0 <= i < items@.len() ==> column_chunk_of(node_views(items@)[i], #[trigger] v@[i]),
        },
{
    let mut out: Vec<ColumnChunk> = Vec::new();
    let mut i: usize = 0;
    while i < items.len()
        invariant
            i <= items@.len(),
            out@.len() == i,
            forall|k: int| 0 <= k < i ==> column_chunk_error(node_views(items@)[k]) is None,
            forall|k: int| 0 <= k < i ==> column_chunk_of(node_views(items@)[k], #[trigger] out@[k]),
        decreases items@.len() - i,
    {
        assert(node_views(items@)[i as int] == node_view(items@[i as int]));
        match column_chunk(&items[i]) {
            Ok(x) => {
                out.push(x);
            },
            Err(e) => {
                proof {
                    assert(column_errors()(node_views(items@)[i as int]) == Some(e));
                    lemma_first_error_at(node_views(items@), column_errors(), i as int);
                }
                return Err(e);
            },
        }
        i = i + 1;
    }
    proof {
        lemma_first_error_none(node_views(items@), column_errors());
    }
    Ok(out)
}

fn row_group(node: &Node) -> (r: Result<RowGroup, MetadataError>)
    ensures
        r matches Err(e) ==> !(e is TrailingBytes),
        match row_group_error(node_view(*node)) {
            Some(e) => r == Err::<RowGroup, MetadataError>(e),
            None => r matches Ok(g) && row_group_of(node_view(*node), g),
        },
{
    let s = match as_struct(node) {
        Ok(s) => s,
        Err(e) => {
            return Err(e);
        },
    };
    let columns = match req_list(s, "RowGroup", 1, "columns", node.span) {
        Ok(items) => match column_chunks(items) {
            Ok(c) => c,
            Err(e) => {
                return Err(e);
            },
        },
        Err(e) => {
            return Err(e);
        },
    };
    let total_byte_size = match req_int(s, "RowGroup", 2, "total_byte_size", node.span) {
        Ok(v) => v,
        Err(e) => {
            return Err(e);
        },
    };
    let num_rows = match req_int(s, "RowGroup", 3, "num_rows", node.span) {
        Ok(v) => v,
        Err(e) => {
            return Err(e);
        },
    };
    Ok(RowGroup { num_rows, total_byte_size, columns, span: node.span })
}

fn row_groups(items: &Vec<Node>) -> (r: Result<Vec<RowGroup>, MetadataError>)
    ensures
        r matches Err(e) ==> !(e is TrailingBytes),
        match first_error(node_views(items@), row_group_errors()) {
            Some(e) => r == Err::<Vec<RowGroup>, MetadataError>(e),
            None => r matches Ok(v) && v@.len() == items@.len() && forall|i: int|
                0 <= i < items@.len() ==> row_group_of(node_views(items@)[i], #[trigger] v@[i]),
        },
{
    let mut out: Vec<RowGroup> = Vec::new();
    let mut i: usize = 0;
    while i < items.len()
        invariant
            i <= items@.len(),
            out@.len() == i,
            forall|k: int| 0 <= k < i ==> row_group_error(node_views(items@)[k]) is None,
            forall|k: int| 0 <= k < i ==> row_group_of(node_views(items@)[k], #[trigger] out@[k]),
        decreases items@.len() - i,
    {
        assert(node_views(items@)[i as int] == node_view(items@[i as int]));
        match row_group(&items[i]) {
            Ok(x) => {
                out.push(x);
            },
            Err(e) => {
                proof {
                    assert(row_group_errors()(node_views(items@)[i as int]) == Some(e));
                    lemma_first_error_at(node_views(items@), row_group_errors(), i as int);
                }
                return Err(e);
            },
        }
        i = i + 1;
    }
    proof {
        lemma_first_error_none(node_views(items@), row_group_errors());
    }
    Ok(out)
}

fn key_value(node: &Node) -> (r: Result<KeyValue, MetadataError>)
    ensures
        r matches Err(e) ==> !(e is TrailingBytes),
        match key_value_error(node_view(*node)) {
            Some(e) => r == Err::<KeyValue, MetadataError>(e),
            None => r matches Ok(kv) && key_value_of(node_view(*node), kv),
        },
{
    let s = match as_struct(node) {
        Ok(s) => s,
        Err(e) => {
            return Err(e);
        },
    };
    let key = match req_str(s, "KeyValue", 1, "key", node.span) {
        Ok(k) => k,
        Err(e) => {
            return Err(e);
        },
    };
    Ok(KeyValue { key, value: opt_str(s, 2) })
}

fn key_values(items: &Vec<Node>) -> (r: Result<Vec<KeyValue>, MetadataError>)
    ensures
        r matches Err(e) ==> !(e is TrailingBytes),
        match first_error(node_views(items@), key_value_errors()) {
            Some(e) => r == Err::<Vec<KeyValue>, MetadataError>(e),
            None => r matches Ok(v) && v@.len() == items@.len() && forall|i: int|
                0 <= i < items@.len() ==> key_value_of(node_views(items@)[i], #[trigger] v@[i]),
        },
{
    let mut out: Vec<KeyValue> = Vec::new();
    let mut i: usize = 0;
    while i < items.len()
        invariant
            i <= items@.len(),
            out@.len() == i,
            forall|k: int| 0 <= k < i ==> key_value_error(node_views(items@)[k]) is None,
            forall|k: int| 0 <= k < i ==> key_value_of(node_views(items@)[k], #[trigger] out@[k]),
        decreases items@.len() - i,
    {
        assert(node_views(items@)[i as int] == node_view(items@[i as int]));
        match key_value(&items[i]) {
            Ok(x) => {
                out.push(x);
            },
            Err(e) => {
                proof {
                    assert(key_value_errors()(node_views(items@)[i as int]) == Some(e));
                    lemma_first_error_at(node_views(items@), key_value_errors(), i as int);
                }
                return Err(e);
            },
        }
        i = i + 1;
    }
    proof {
        lemma_first_error_none(node_views(items@), key_value_errors());
    }
    Ok(out)
}

/// Decode the footer: the `footer` bytes, which start at file offset `base`.
///
/// The footer must be exactly one `FileMetaData`. Bytes left over mean the trailer's length and
/// the structure disagree, and a reader that ignored that would be trusting a file it cannot
/// explain.
pub fn decode_file_metadata(footer: &[u8], base: u64) -> (r: Result<FileMetaData, MetadataError>)
    requires
        base + footer@.len() <= u64::MAX,
    ensures
        r matches Err(MetadataError::TrailingBytes { span }) ==> span.start <= span.end,
        footer_decoded(footer@, base, r),
{
    let mut reader = ByteReader::new(footer, base);
    let tree = match read_struct(&mut reader) {
        Ok(t) => t,
        Err(e) => {
            return Err(MetadataError::Thrift(e));
        },
    };
    proof {
        use_type_invariant(&reader);
        ByteReader::lemma_inv(reader);
    }
    if !reader.is_at_end() {
        let start = reader.offset();
        return Err(MetadataError::TrailingBytes { span: Span::new(start, base + footer.len() as u64) });
    }
    let s = match as_struct(&tree) {
        Ok(s) => s,
        Err(e) => {
            return Err(e);
        },
    };
    let version = match req_int(s, "FileMetaData", 1, "version", tree.span) {
        Ok(v) => v,
        Err(e) => {
            return Err(e);
        },
    };
    let schema = match req_list(s, "FileMetaData", 2, "schema", tree.span) {
        Ok(items) => match schema_elements(items) {
            Ok(v) => v,
            Err(e) => {
                return Err(e);
            },
        },
        Err(e) => {
            return Err(e);
        },
    };
    let num_rows = match req_int(s, "FileMetaData", 3, "num_rows", tree.span) {
        Ok(v) => v,
        Err(e) => {
            return Err(e);
        },
    };
    let row_groups = match req_list(s, "FileMetaData", 4, "row_groups", tree.span) {
        Ok(items) => match row_groups(items) {
            Ok(v) => v,
            Err(e) => {
                return Err(e);
            },
        },
        Err(e) => {
            return Err(e);
        },
    };
    let key_value_metadata = match opt_list(s, 5) {
        Some(items) => match key_values(items) {
            Ok(v) => v,
            Err(e) => {
                return Err(e);
            },
        },
        None => Vec::new(),
    };
    let created_by = opt_str(s, 6);
    Ok(FileMetaData { version, schema, num_rows, row_groups, key_value_metadata, created_by, tree })
}

} // verus!
