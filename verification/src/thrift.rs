//! Apache Thrift's compact protocol, decoded without knowing the schema.
//!
//! The protocol is self-delimiting: every field carries its own id and wire type, so a decoder
//! can walk a message it has no schema for. This one does exactly that, and records the span
//! of every field header and every value on the way.
//!
//! - A **field header** is one byte: the high four bits are the difference between this
//!   field's id and the previous one, the low four bits the wire type. A difference of 0 means
//!   the id follows as a zigzag varint.
//! - **Booleans** live in the header: wire type 1 is true, 2 is false.
//! - **Integers** of every width are zigzag varints. **Doubles** are eight bytes,
//!   little-endian, kept here as their bits.
//! - **Binary** (strings too) is a varint length and then the bytes.
//! - A **list** header is one byte: the size in the high four bits (15 means a varint size
//!   follows) and the element type in the low four.
//! - A **struct** is fields until a header byte of 0, the stop field.

use vstd::prelude::*;
use vstd::slice::slice_to_vec;

use crate::bytes::{
    bytes_error_text, le_u64_value, lemma_uleb_from_len, uleb, zigzag, zigzag_decode, ByteReader,
    BytesError, Span, Uleb,
};
use crate::text::{dec, push_u64};

verus! {

/// The compact protocol's wire types.
#[derive(Clone, Copy, Debug, PartialEq, Eq, Structural)]
pub enum WireType {
    BoolTrue,
    BoolFalse,
    Byte,
    I16,
    I32,
    I64,
    Double,
    Binary,
    List,
    SetOf,
    MapOf,
    Struct,
    Uuid,
}

/// The wire type a nibble names, if any.
pub open spec fn wire_of(n: u8) -> Option<WireType> {
    if n == 1 {
        Some(WireType::BoolTrue)
    } else if n == 2 {
        Some(WireType::BoolFalse)
    } else if n == 3 {
        Some(WireType::Byte)
    } else if n == 4 {
        Some(WireType::I16)
    } else if n == 5 {
        Some(WireType::I32)
    } else if n == 6 {
        Some(WireType::I64)
    } else if n == 7 {
        Some(WireType::Double)
    } else if n == 8 {
        Some(WireType::Binary)
    } else if n == 9 {
        Some(WireType::List)
    } else if n == 10 {
        Some(WireType::SetOf)
    } else if n == 11 {
        Some(WireType::MapOf)
    } else if n == 12 {
        Some(WireType::Struct)
    } else if n == 13 {
        Some(WireType::Uuid)
    } else {
        None
    }
}

/// The name of the type a wire type carries.
pub open spec fn wire_name(w: WireType) -> Seq<char> {
    match w {
        WireType::BoolTrue | WireType::BoolFalse => "bool"@,
        WireType::Byte => "i8"@,
        WireType::I16 => "i16"@,
        WireType::I32 => "i32"@,
        WireType::I64 => "i64"@,
        WireType::Double => "double"@,
        WireType::Binary => "binary"@,
        WireType::List => "list"@,
        WireType::SetOf => "set"@,
        WireType::MapOf => "map"@,
        WireType::Struct => "struct"@,
        WireType::Uuid => "uuid"@,
    }
}

impl WireType {
    pub fn from_nibble(n: u8) -> (r: Option<WireType>)
        ensures
            r == wire_of(n),
    {
        match n {
            1 => Some(WireType::BoolTrue),
            2 => Some(WireType::BoolFalse),
            3 => Some(WireType::Byte),
            4 => Some(WireType::I16),
            5 => Some(WireType::I32),
            6 => Some(WireType::I64),
            7 => Some(WireType::Double),
            8 => Some(WireType::Binary),
            9 => Some(WireType::List),
            10 => Some(WireType::SetOf),
            11 => Some(WireType::MapOf),
            12 => Some(WireType::Struct),
            13 => Some(WireType::Uuid),
            _ => None,
        }
    }

    pub fn name(&self) -> (s: &'static str)
        ensures
            s@ == wire_name(*self),
    {
        match self {
            WireType::BoolTrue | WireType::BoolFalse => "bool",
            WireType::Byte => "i8",
            WireType::I16 => "i16",
            WireType::I32 => "i32",
            WireType::I64 => "i64",
            WireType::Double => "double",
            WireType::Binary => "binary",
            WireType::List => "list",
            WireType::SetOf => "set",
            WireType::MapOf => "map",
            WireType::Struct => "struct",
            WireType::Uuid => "uuid",
        }
    }
}

/// A decoded value, with the bytes it came from.
#[derive(Debug, PartialEq)]
pub struct Node {
    pub span: Span,
    pub value: Value,
}

/// A decoded value. A double is kept as the 64 bits it was written as.
#[derive(Debug, PartialEq)]
pub enum Value {
    Bool(bool),
    Int(i64),
    Double(u64),
    Binary(Vec<u8>),
    List(Vec<Node>),
    MapOf(Vec<(Node, Node)>),
    Struct(Struct),
}

/// One field of a struct: its id, its wire type, the span of its header, and its value.
#[derive(Debug, PartialEq)]
pub struct Field {
    pub id: i16,
    pub wire: WireType,
    /// The header byte, plus the id varint when the delta did not fit in four bits.
    pub header: Span,
    pub node: Node,
}

#[derive(Debug, PartialEq)]
pub struct Struct {
    pub fields: Vec<Field>,
}

/// The first field of a list with the given id, if any.
pub open spec fn first_with_id(fields: Seq<Field>, id: i16) -> Option<int>
    decreases fields.len(),
{
    if fields.len() == 0 {
        None
    } else if fields[0].id == id {
        Some(0)
    } else {
        match first_with_id(fields.drop_first(), id) {
            Some(i) => Some(i + 1),
            None => None,
        }
    }
}

impl Field {
    /// Everything this field occupies: header and value together.
    pub fn span(&self) -> (s: Span)
        requires
            self.header.start <= self.header.end,
            self.header.start <= self.node.span.end,
        ensures
            s.start == self.header.start,
            s.end == (if self.node.span.end < self.header.end {
                self.header.end
            } else {
                self.node.span.end
            }),
    {
        let end = if self.node.span.end < self.header.end { self.header.end } else { self.node.span.end };
        Span::new(self.header.start, end)
    }
}

impl Struct {
    /// The first field with id `id`.
    pub fn field(&self, id: i16) -> (r: Option<&Field>)
        ensures
            first_with_id(self.fields@, id) == find_field(field_views(self.fields@), id),
            match first_with_id(self.fields@, id) {
                Some(i) => r == Some(&self.fields@[i]),
                None => r is None,
            },
    {
        proof {
            lemma_find_field_views(self.fields@, id);
        }
        let mut i: usize = 0;
        while i < self.fields.len()
            invariant
                i <= self.fields@.len(),
                forall|k: int| 0 <= k < i ==> self.fields@[k].id != id,
                first_with_id(self.fields@, id) == find_field(field_views(self.fields@), id),
            decreases self.fields@.len() - i,
        {
            if self.fields[i].id == id {
                proof {
                    lemma_first_with_id(self.fields@, id, i as int);
                }
                return Some(&self.fields[i]);
            }
            i = i + 1;
        }
        proof {
            lemma_first_with_id_none(self.fields@, id);
        }
        None
    }
}

/// The position of the first field view with the given id, if any.
pub open spec fn find_field(fields: Seq<FieldV>, id: i16) -> Option<int>
    decreases fields.len(),
{
    if fields.len() == 0 {
        None
    } else if fields[0].id == id {
        Some(0)
    } else {
        match find_field(fields.drop_first(), id) {
            Some(i) => Some(i + 1),
            None => None,
        }
    }
}

/// A field's position is the same in the fields and in their views.
pub proof fn lemma_find_field_views(fields: Seq<Field>, id: i16)
    ensures
        find_field(field_views(fields), id) == first_with_id(fields, id),
        match first_with_id(fields, id) {
            Some(i) => 0 <= i < fields.len() && fields[i].id == id,
            None => true,
        },
    decreases fields.len(),
{
    if fields.len() > 0 {
        assert(field_views(fields).drop_first() =~= field_views(fields.drop_first()));
        lemma_find_field_views(fields.drop_first(), id);
    }
}

proof fn lemma_first_with_id(fields: Seq<Field>, id: i16, i: int)
    requires
        0 <= i < fields.len(),
        fields[i].id == id,
        forall|k: int| 0 <= k < i ==> fields[k].id != id,
    ensures
        first_with_id(fields, id) == Some(i),
    decreases fields.len(),
{
    if i > 0 {
        lemma_first_with_id(fields.drop_first(), id, i - 1);
    }
}

proof fn lemma_first_with_id_none(fields: Seq<Field>, id: i16)
    requires
        forall|k: int| 0 <= k < fields.len() ==> fields[k].id != id,
    ensures
        first_with_id(fields, id) is None,
    decreases fields.len(),
{
    if fields.len() > 0 {
        lemma_first_with_id_none(fields.drop_first(), id);
    }
}

#[derive(Clone, Debug, PartialEq, Eq)]
pub enum ThriftError {
    Bytes(BytesError),
    UnknownWireType { nibble: u8, offset: u64 },
    TooDeep { offset: u64 },
    NegativeLength { offset: u64 },
}

/// What a Thrift error says.
pub open spec fn thrift_error_text(e: ThriftError) -> Seq<char> {
    match e {
        ThriftError::Bytes(b) => bytes_error_text(b),
        ThriftError::UnknownWireType { nibble, offset } => "unknown Thrift wire type "@ + dec(
            nibble as nat,
        ) + " at offset "@ + dec(offset as nat),
        ThriftError::TooDeep { offset } => "structures nested too deeply at offset "@ + dec(
            offset as nat,
        ),
        ThriftError::NegativeLength { offset } => "negative length at offset "@ + dec(offset as nat),
    }
}

impl ThriftError {
    /// The error as a sentence.
    pub fn message(&self) -> (s: String)
        ensures
            s@ == thrift_error_text(*self),
    {
        match self {
            ThriftError::Bytes(b) => b.message(),
            ThriftError::UnknownWireType { nibble, offset } => {
                let mut s = "unknown Thrift wire type ".to_owned();
                push_u64(&mut s, *nibble as u64);
                s.append(" at offset ");
                push_u64(&mut s, *offset);
                s
            },
            ThriftError::TooDeep { offset } => {
                let mut s = "structures nested too deeply at offset ".to_owned();
                push_u64(&mut s, *offset);
                s
            },
            ThriftError::NegativeLength { offset } => {
                let mut s = "negative length at offset ".to_owned();
                push_u64(&mut s, *offset);
                s
            },
        }
    }
}

/// A decoded value as a mathematical tree.
pub struct NodeV {
    pub span: Span,
    pub value: ValueV,
}

pub enum ValueV {
    Bool(bool),
    Int(i64),
    Double(u64),
    Binary(Seq<u8>),
    List(Seq<NodeV>),
    MapOf(Seq<(NodeV, NodeV)>),
    Struct(Seq<FieldV>),
}

pub struct FieldV {
    pub id: i16,
    pub wire: WireType,
    pub header: Span,
    pub node: NodeV,
}

pub open spec fn node_view(n: Node) -> NodeV
    decreases n,
{
    NodeV { span: n.span, value: value_view(n.value) }
}

pub open spec fn value_view(v: Value) -> ValueV
    decreases v,
{
    match v {
        Value::Bool(b) => ValueV::Bool(b),
        Value::Int(i) => ValueV::Int(i),
        Value::Double(d) => ValueV::Double(d),
        Value::Binary(b) => ValueV::Binary(b@),
        Value::List(items) => ValueV::List(node_views(items@)),
        Value::MapOf(entries) => ValueV::MapOf(entry_views(entries@)),
        Value::Struct(s) => ValueV::Struct(field_views(s.fields@)),
    }
}

pub open spec fn field_view(f: Field) -> FieldV
    decreases f,
{
    FieldV { id: f.id, wire: f.wire, header: f.header, node: node_view(f.node) }
}

/// A placeholder node, for positions outside a list.
pub open spec fn no_node() -> NodeV {
    NodeV { span: Span { start: 0, end: 0 }, value: ValueV::Bool(false) }
}

/// The views of a list of nodes.
pub open spec fn node_views(s: Seq<Node>) -> Seq<NodeV>
    decreases s,
{
    Seq::new(s.len(), |i: int| if 0 <= i < s.len() { node_view(s[i]) } else { no_node() })
}

/// The views of a list of map entries.
pub open spec fn entry_views(s: Seq<(Node, Node)>) -> Seq<(NodeV, NodeV)>
    decreases s,
{
    Seq::new(
        s.len(),
        |i: int|
            if 0 <= i < s.len() {
                (node_view(s[i].0), node_view(s[i].1))
            } else {
                (no_node(), no_node())
            },
    )
}

/// The views of a list of fields.
pub open spec fn field_views(s: Seq<Field>) -> Seq<FieldV>
    decreases s,
{
    Seq::new(
        s.len(),
        |i: int|
            if 0 <= i < s.len() {
                field_view(s[i])
            } else {
                FieldV { id: 0, wire: WireType::BoolTrue, header: Span { start: 0, end: 0 }, node: no_node() }
            },
    )
}

/// The span between two positions of data that starts at file offset `base`.
pub open spec fn sp(base: u64, a: int, b: int) -> Span {
    Span { start: (base + a) as u64, end: (base + b) as u64 }
}

/// The error for data that ends at `at` while `wanted` more bytes were needed.
pub open spec fn end_err(base: u64, at: int, wanted: u64) -> ThriftError {
    ThriftError::Bytes(BytesError::UnexpectedEnd { offset: (base + at) as u64, wanted })
}

/// The error for a varint at `at` longer than ten bytes.
pub open spec fn long_err(base: u64, at: int) -> ThriftError {
    ThriftError::Bytes(BytesError::VarintTooLong { offset: (base + at) as u64 })
}

/// A varint read at `pos`: its value and where it ends, or the error.
pub open spec fn varint_at(s: Seq<u8>, base: u64, pos: int) -> Result<(u64, int), ThriftError> {
    match uleb(s, pos) {
        Uleb::Value(v, n) => Ok((v, pos + n)),
        Uleb::End(at) => Err(end_err(base, at, 1)),
        Uleb::TooLong => Err(long_err(base, pos)),
    }
}

/// `n` raw bytes at `pos`, or the error.
pub open spec fn bytes_at(s: Seq<u8>, base: u64, pos: int, n: int) -> Result<Seq<u8>, ThriftError> {
    if pos + n <= s.len() {
        Ok(s.subrange(pos, pos + n))
    } else {
        Err(end_err(base, pos, n as u64))
    }
}

/// A node spanning `pos..end` holding `v`, and the position after it.
pub open spec fn leaf(base: u64, pos: int, end: int, v: ValueV) -> Result<(NodeV, int), ThriftError> {
    Ok((NodeV { span: sp(base, pos, end), value: v }, end))
}

/// The element count of a list header at `pos`, and where the element bytes start.
pub open spec fn list_size(s: Seq<u8>, base: u64, pos: int) -> Result<(int, int), ThriftError> {
    let h = s[pos];
    if h >> 4u8 == 15 {
        match varint_at(s, base, pos + 1) {
            Ok((v, end)) => Ok(((v as usize) as int, end)),
            Err(e) => Err(e),
        }
    } else {
        Ok(((h >> 4u8) as int, pos + 1))
    }
}

/// The value of wire type `wire` at `pos`, nested `depth` deep.
pub open spec fn tvalue(s: Seq<u8>, base: u64, pos: int, wire: WireType, depth: int) -> Result<
    (NodeV, int),
    ThriftError,
>
    decreases 65 - depth, 3int, 0int,
{
    match wire {
        WireType::BoolTrue | WireType::BoolFalse => if 0 <= pos < s.len() {
            leaf(base, pos, pos + 1, ValueV::Bool(s[pos] == 1))
        } else {
            Err(end_err(base, pos, 1))
        },
        WireType::Byte => if 0 <= pos < s.len() {
            leaf(base, pos, pos + 1, ValueV::Int((s[pos] as i8) as i64))
        } else {
            Err(end_err(base, pos, 1))
        },
        WireType::I16 | WireType::I32 | WireType::I64 => match varint_at(s, base, pos) {
            Ok((v, end)) => leaf(base, pos, end, ValueV::Int(zigzag(v as nat) as i64)),
            Err(e) => Err(e),
        },
        WireType::Double => match bytes_at(s, base, pos, 8) {
            Ok(b) => leaf(base, pos, pos + 8, ValueV::Double(le_u64_value(b) as u64)),
            Err(e) => Err(e),
        },
        WireType::Binary => match varint_at(s, base, pos) {
            Ok((v, p)) => match bytes_at(s, base, p, (v as usize) as int) {
                Ok(b) => leaf(base, pos, p + (v as usize) as int, ValueV::Binary(b)),
                Err(e) => Err(e),
            },
            Err(e) => Err(e),
        },
        WireType::Uuid => match bytes_at(s, base, pos, 16) {
            Ok(b) => leaf(base, pos, pos + 16, ValueV::Binary(b)),
            Err(e) => Err(e),
        },
        WireType::List | WireType::SetOf => if !(0 <= pos < s.len()) {
            Err(end_err(base, pos, 1))
        } else {
            match list_size(s, base, pos) {
                Err(e) => Err(e),
                Ok((size, p)) => match wire_of(s[pos] & 15u8) {
                    None => Err(
                        ThriftError::UnknownWireType {
                            nibble: s[pos] & 15u8,
                            offset: (base + pos) as u64,
                        },
                    ),
                    Some(elem) => match titems(s, base, p, elem, depth, size) {
                        Ok((items, end)) => leaf(base, pos, end, ValueV::List(items)),
                        Err(e) => Err(e),
                    },
                },
            }
        },
        WireType::MapOf => match varint_at(s, base, pos) {
            Err(e) => Err(e),
            Ok((v, p)) => if (v as usize) as int == 0 {
                leaf(base, pos, p, ValueV::MapOf(Seq::empty()))
            } else if !(0 <= p < s.len()) {
                Err(end_err(base, p, 1))
            } else {
                let t = s[p];
                match wire_of(t >> 4u8) {
                    None => Err(
                        ThriftError::UnknownWireType { nibble: t >> 4u8, offset: (base + pos) as u64 },
                    ),
                    Some(kw) => match wire_of(t & 15u8) {
                        None => Err(
                            ThriftError::UnknownWireType {
                                nibble: t & 15u8,
                                offset: (base + pos) as u64,
                            },
                        ),
                        Some(vw) => match tentries(s, base, p + 1, kw, vw, depth, (v as usize) as int) {
                            Ok((entries, end)) => leaf(base, pos, end, ValueV::MapOf(entries)),
                            Err(e) => Err(e),
                        },
                    },
                }
            },
        },
        WireType::Struct => tstruct(s, base, pos, depth),
    }
}

/// `count` elements of wire type `elem` from `pos`, inside a list nested `depth` deep.
pub open spec fn titems(
    s: Seq<u8>,
    base: u64,
    pos: int,
    elem: WireType,
    depth: int,
    count: int,
) -> Result<(Seq<NodeV>, int), ThriftError>
    decreases 65 - depth, 1int, count,
{
    if count <= 0 {
        Ok((Seq::empty(), pos))
    } else if depth > 64 {
        Err(ThriftError::TooDeep { offset: (base + pos) as u64 })
    } else {
        match tvalue(s, base, pos, elem, depth + 1) {
            Err(e) => Err(e),
            Ok((n, end)) => match titems(s, base, end, elem, depth, count - 1) {
                Ok((rest, fin)) => Ok((seq![n] + rest, fin)),
                Err(e) => Err(e),
            },
        }
    }
}

/// `count` key-value pairs from `pos`, inside a map nested `depth` deep.
pub open spec fn tentries(
    s: Seq<u8>,
    base: u64,
    pos: int,
    kw: WireType,
    vw: WireType,
    depth: int,
    count: int,
) -> Result<(Seq<(NodeV, NodeV)>, int), ThriftError>
    decreases 65 - depth, 1int, count,
{
    if count <= 0 {
        Ok((Seq::empty(), pos))
    } else if depth > 64 {
        Err(ThriftError::TooDeep { offset: (base + pos) as u64 })
    } else {
        match tvalue(s, base, pos, kw, depth + 1) {
            Err(e) => Err(e),
            Ok((k, p)) => if depth > 64 {
                Err(ThriftError::TooDeep { offset: (base + p) as u64 })
            } else {
                match tvalue(s, base, p, vw, depth + 1) {
                    Err(e) => Err(e),
                    Ok((v, end)) => match tentries(s, base, end, kw, vw, depth, count - 1) {
                        Ok((rest, fin)) => Ok((seq![(k, v)] + rest, fin)),
                        Err(e) => Err(e),
                    },
                }
            },
        }
    }
}

/// A struct at `pos`, nested `depth` deep: fields up to and including the stop byte.
pub open spec fn tstruct(s: Seq<u8>, base: u64, pos: int, depth: int) -> Result<(NodeV, int), ThriftError>
    decreases 65 - depth, 2int, 0int,
{
    if depth > 64 {
        Err(ThriftError::TooDeep { offset: (base + pos) as u64 })
    } else {
        match tfields(s, base, pos, depth, 0) {
            Ok((fields, end)) => leaf(base, pos, end, ValueV::Struct(fields)),
            Err(e) => Err(e),
        }
    }
}

/// The id a field header's delta gives, counted on from the previous field's id.
pub open spec fn next_id(last_id: i16, delta: u8) -> i16 {
    let t = last_id + delta;
    if t > i16::MAX {
        (t - 65536) as i16
    } else {
        t as i16
    }
}

/// A field's id and where its header ends.
pub open spec fn field_id(s: Seq<u8>, base: u64, pos: int, last_id: i16) -> Result<(i16, int), ThriftError> {
    let delta = s[pos] >> 4u8;
    if delta == 0 {
        match varint_at(s, base, pos + 1) {
            Ok((v, end)) => Ok(((zigzag(v as nat) as i64) as i16, end)),
            Err(e) => Err(e),
        }
    } else {
        Ok((next_id(last_id, delta), pos + 1))
    }
}

/// The fields of a struct from `pos` to its stop byte; `last_id` is the previous field's id.
pub open spec fn tfields(s: Seq<u8>, base: u64, pos: int, depth: int, last_id: i16) -> Result<
    (Seq<FieldV>, int),
    ThriftError,
>
    decreases 65 - depth, 0int, s.len() - pos,
{
    if depth > 64 {
        Err(ThriftError::TooDeep { offset: (base + pos) as u64 })
    } else if !(0 <= pos < s.len()) {
        Err(end_err(base, pos, 1))
    } else if s[pos] == 0 {
        Ok((Seq::empty(), pos + 1))
    } else {
        let b = s[pos];
        match wire_of(b & 15u8) {
            None => Err(ThriftError::UnknownWireType { nibble: b & 15u8, offset: (base + pos) as u64 }),
            Some(w) => match field_id(s, base, pos, last_id) {
                Err(e) => Err(e),
                Ok((id, hp)) => {
                    let header = sp(base, pos, hp);
                    let node = match w {
                        WireType::BoolTrue => Ok((NodeV { span: header, value: ValueV::Bool(true) }, hp)),
                        WireType::BoolFalse => Ok(
                            (NodeV { span: header, value: ValueV::Bool(false) }, hp),
                        ),
                        _ => tvalue(s, base, hp, w, depth + 1),
                    };
                    match node {
                        Err(e) => Err(e),
                        Ok((n, end)) => if end <= pos || end > s.len() {
                            Err(ThriftError::TooDeep { offset: (base + pos) as u64 })
                        } else {
                            match tfields(s, base, end, depth, id) {
                                Ok((rest, fin)) => Ok(
                                    (seq![FieldV { id, wire: w, header, node: n }] + rest, fin),
                                ),
                                Err(e) => Err(e),
                            }
                        },
                    }
                },
            },
        }
    }
}

/// What a read left behind: the node and the reader's position, or the error.
pub open spec fn read_outcome(r: Result<Node, ThriftError>, end: nat) -> Result<(NodeV, int), ThriftError> {
    match r {
        Ok(n) => Ok((node_view(n), end as int)),
        Err(e) => Err(e),
    }
}

/// How deep structs and lists may nest. Parquet's deepest is about six; a corrupt or hostile
/// footer should hit this long before it exhausts the stack.
pub const MAX_DEPTH: usize = 64;

/// Decode one struct, starting at the reader's position, up to and including its stop byte.
pub fn read_struct(r: &mut ByteReader) -> (res: Result<Node, ThriftError>)
    ensures
        final(r).bytes() == old(r).bytes(),
        final(r).base() == old(r).base(),
        tstruct(old(r).bytes(), old(r).base(), old(r).pos() as int, 0) == read_outcome(
            res,
            final(r).pos(),
        ),
        res is Ok ==> final(r).pos() > old(r).pos(),
{
    read_struct_at_depth(r, 0)
}

fn bytes_error<T>(e: BytesError) -> (r: Result<T, ThriftError>)
    ensures
        r == Err::<T, ThriftError>(ThriftError::Bytes(e)),
{
    Err(ThriftError::Bytes(e))
}

fn read_struct_at_depth(r: &mut ByteReader, depth: usize) -> (res: Result<Node, ThriftError>)
    requires
        depth <= 65,
    ensures
        final(r).bytes() == old(r).bytes(),
        final(r).base() == old(r).base(),
        tstruct(old(r).bytes(), old(r).base(), old(r).pos() as int, depth as int) == read_outcome(
            res,
            final(r).pos(),
        ),
        res is Ok ==> final(r).pos() > old(r).pos(),
    decreases 65 - depth, 2int,
{
    if depth > MAX_DEPTH {
        return Err(ThriftError::TooDeep { offset: r.offset() });
    }
    let ghost s = r.bytes();
    let ghost base = r.base();
    let ghost p0 = r.pos() as int;
    let start = r.offset();
    let mut fields: Vec<Field> = Vec::new();
    let mut last_id: i16 = 0;
    proof {
        use_type_invariant(&*r);
        ByteReader::lemma_inv(*r);
    }
    loop
        invariant
            depth <= 64,
            r.bytes() == s,
            r.base() == base,
            s == old(r).bytes(),
            base == old(r).base(),
            p0 == old(r).pos(),
            start == base + p0,
            p0 <= r.pos() <= s.len(),
            fields@.len() == 0 ==> r.pos() == p0,
            tfields(s, base, p0, depth as int, 0) == prepend_fields(
                field_views(fields@),
                tfields(s, base, r.pos() as int, depth as int, last_id),
            ),
        decreases s.len() - r.pos(),
    {
        proof {
            use_type_invariant(&*r);
            ByteReader::lemma_inv(*r);
        }
        let ghost pos = r.pos() as int;
        let header_start = r.offset();
        let byte = match r.read_u8() {
            Ok(b) => b,
            Err(e) => {
                proof {
                    assert(field_views(fields@) + Seq::<FieldV>::empty() =~= field_views(fields@));
                }
                return bytes_error(e);
            },
        };
        if byte == 0 {
            proof {
                assert(field_views(fields@) + Seq::<FieldV>::empty() =~= field_views(fields@));
            }
            let end = r.offset();
            return Ok(Node { span: Span::new(start, end), value: Value::Struct(Struct { fields }) });
        }
        let delta = byte >> 4;
        let nibble = byte & 0x0f;
        let wire = match WireType::from_nibble(nibble) {
            Some(w) => w,
            None => {
                return Err(ThriftError::UnknownWireType { nibble, offset: header_start });
            },
        };
        let id: i16 = if delta == 0 {
            let v = match r.read_uleb128() {
                Ok(v) => v,
                Err(e) => {
                    return bytes_error(e);
                },
            };
            let z = zigzag_decode(v);
            z as i16
        } else {
            let t: i32 = last_id as i32 + delta as i32;
            if t > 32767 {
                (t - 65536) as i16
            } else {
                t as i16
            }
        };
        last_id = id;
        proof {
            use_type_invariant(&*r);
            ByteReader::lemma_inv(*r);
        }
        let header = Span::new(header_start, r.offset());
        let ghost hp = r.pos() as int;
        let node = match wire {
            WireType::BoolTrue => Node { span: header, value: Value::Bool(true) },
            WireType::BoolFalse => Node { span: header, value: Value::Bool(false) },
            _ => match read_value(r, wire, depth + 1) {
                Ok(n) => n,
                Err(e) => {
                    return Err(e);
                },
            },
        };
        proof {
            use_type_invariant(&*r);
            ByteReader::lemma_inv(*r);
        }
        let ghost before = field_views(fields@);
        let f = Field { id, wire, header, node };
        fields.push(f);
        proof {
            assert(field_views(fields@) =~= before.push(field_view(f)));
            let rest = tfields(s, base, r.pos() as int, depth as int, last_id);
            match rest {
                Ok((rs, fin)) => {
                    assert(before + (seq![field_view(f)] + rs) =~= field_views(fields@) + rs);
                },
                Err(_) => {},
            }
        }
    }
}

/// Put `prefix` in front of a successful decoding of fields; an error stays the error.
pub open spec fn prepend_fields(prefix: Seq<FieldV>, r: Result<(Seq<FieldV>, int), ThriftError>) -> Result<
    (Seq<FieldV>, int),
    ThriftError,
> {
    match r {
        Ok((rest, fin)) => Ok((prefix + rest, fin)),
        Err(e) => Err(e),
    }
}

/// Put `prefix` in front of a successful decoding of nodes; an error stays the error.
pub open spec fn prepend_nodes(prefix: Seq<NodeV>, r: Result<(Seq<NodeV>, int), ThriftError>) -> Result<
    (Seq<NodeV>, int),
    ThriftError,
> {
    match r {
        Ok((rest, fin)) => Ok((prefix + rest, fin)),
        Err(e) => Err(e),
    }
}

/// Put `prefix` in front of a successful decoding of entries; an error stays the error.
pub open spec fn prepend_entries(
    prefix: Seq<(NodeV, NodeV)>,
    r: Result<(Seq<(NodeV, NodeV)>, int), ThriftError>,
) -> Result<(Seq<(NodeV, NodeV)>, int), ThriftError> {
    match r {
        Ok((rest, fin)) => Ok((prefix + rest, fin)),
        Err(e) => Err(e),
    }
}

fn read_value(r: &mut ByteReader, wire: WireType, depth: usize) -> (res: Result<Node, ThriftError>)
    requires
        depth <= 65,
    ensures
        final(r).bytes() == old(r).bytes(),
        final(r).base() == old(r).base(),
        tvalue(old(r).bytes(), old(r).base(), old(r).pos() as int, wire, depth as int) == read_outcome(
            res,
            final(r).pos(),
        ),
        res is Ok ==> final(r).pos() > old(r).pos(),
    decreases 65 - depth, 3int,
{
    proof {
        use_type_invariant(&*r);
        ByteReader::lemma_inv(*r);
        lemma_uleb_from_len(r.bytes(), r.pos() as int, 0, 0);
    }
    let start = r.offset();
    let value = match wire {
        WireType::BoolTrue | WireType::BoolFalse => match r.read_u8() {
            Ok(b) => Value::Bool(b == 1),
            Err(e) => {
                return bytes_error(e);
            },
        },
        WireType::Byte => match r.read_u8() {
            Ok(b) => Value::Int((b as i8) as i64),
            Err(e) => {
                return bytes_error(e);
            },
        },
        WireType::I16 | WireType::I32 | WireType::I64 => match r.read_uleb128() {
            Ok(v) => Value::Int(zigzag_decode(v)),
            Err(e) => {
                return bytes_error(e);
            },
        },
        WireType::Double => match r.read_le_u64() {
            Ok(v) => Value::Double(v),
            Err(e) => {
                return bytes_error(e);
            },
        },
        WireType::Binary => {
            let len = match r.read_uleb128() {
                Ok(v) => v as usize,
                Err(e) => {
                    return bytes_error(e);
                },
            };
            match r.read_bytes(len) {
                Ok((bytes, _)) => Value::Binary(slice_to_vec(bytes)),
                Err(e) => {
                    return bytes_error(e);
                },
            }
        },
        WireType::Uuid => match r.read_bytes(16) {
            Ok((bytes, _)) => Value::Binary(slice_to_vec(bytes)),
            Err(e) => {
                return bytes_error(e);
            },
        },
        WireType::List | WireType::SetOf => {
            return read_list(r, depth);
        },
        WireType::MapOf => {
            return read_map(r, depth);
        },
        WireType::Struct => {
            return read_struct_at_depth(r, depth);
        },
    };
    proof {
        use_type_invariant(&*r);
        ByteReader::lemma_inv(*r);
    }
    let end = r.offset();
    Ok(Node { span: Span::new(start, end), value })
}

fn read_list(r: &mut ByteReader, depth: usize) -> (res: Result<Node, ThriftError>)
    requires
        depth <= 65,
    ensures
        final(r).bytes() == old(r).bytes(),
        final(r).base() == old(r).base(),
        tvalue(old(r).bytes(), old(r).base(), old(r).pos() as int, WireType::List, depth as int)
            == read_outcome(res, final(r).pos()),
        res is Ok ==> final(r).pos() > old(r).pos(),
    decreases 65 - depth, 2int,
{
    let ghost s = r.bytes();
    let ghost base = r.base();
    let ghost p0 = r.pos() as int;
    proof {
        use_type_invariant(&*r);
        ByteReader::lemma_inv(*r);
    }
    let start = r.offset();
    let header = match r.read_u8() {
        Ok(b) => b,
        Err(e) => {
            return bytes_error(e);
        },
    };
    let size: usize = if header >> 4 == 15 {
        match r.read_uleb128() {
            Ok(v) => v as usize,
            Err(e) => {
                return bytes_error(e);
            },
        }
    } else {
        (header >> 4) as usize
    };
    let nibble = header & 0x0f;
    let elem = match WireType::from_nibble(nibble) {
        Some(w) => w,
        None => {
            return Err(ThriftError::UnknownWireType { nibble, offset: start });
        },
    };
    let ghost p1 = r.pos() as int;
    proof {
        use_type_invariant(&*r);
        ByteReader::lemma_inv(*r);
    }
    let mut items: Vec<Node> = Vec::new();
    let mut i: usize = 0;
    while i < size
        invariant
            i <= size,
            depth <= 65,
            r.bytes() == s,
            r.base() == base,
            s == old(r).bytes(),
            base == old(r).base(),
            p0 == old(r).pos(),
            p1 <= r.pos() <= s.len(),
            p0 < p1,
            tvalue(s, base, p0, WireType::List, depth as int) == match titems(
                s,
                base,
                p1,
                elem,
                depth as int,
                size as int,
            ) {
                Ok((items, end)) => leaf(base, p0, end, ValueV::List(items)),
                Err(e) => Err(e),
            },
            titems(s, base, p1, elem, depth as int, size as int) == prepend_nodes(
                node_views(items@),
                titems(s, base, r.pos() as int, elem, depth as int, size - i),
            ),
        decreases size - i,
    {
        let n = match read_element(r, elem, depth) {
            Ok(n) => n,
            Err(e) => {
                return Err(e);
            },
        };
        proof {
            use_type_invariant(&*r);
            ByteReader::lemma_inv(*r);
        }
        let ghost before = node_views(items@);
        items.push(n);
        proof {
            assert(node_views(items@) =~= before.push(node_view(n)));
            let rest = titems(s, base, r.pos() as int, elem, depth as int, size - i - 1);
            match rest {
                Ok((rs, fin)) => {
                    assert(before + (seq![node_view(n)] + rs) =~= node_views(items@) + rs);
                },
                Err(_) => {},
            }
        }
        i = i + 1;
    }
    proof {
        use_type_invariant(&*r);
        ByteReader::lemma_inv(*r);
        assert(node_views(items@) + Seq::<NodeV>::empty() =~= node_views(items@));
    }
    let end = r.offset();
    let node = Node { span: Span::new(start, end), value: Value::List(items) };
    Ok(node)
}

fn read_map(r: &mut ByteReader, depth: usize) -> (res: Result<Node, ThriftError>)
    requires
        depth <= 65,
    ensures
        final(r).bytes() == old(r).bytes(),
        final(r).base() == old(r).base(),
        tvalue(old(r).bytes(), old(r).base(), old(r).pos() as int, WireType::MapOf, depth as int)
            == read_outcome(res, final(r).pos()),
        res is Ok ==> final(r).pos() > old(r).pos(),
    decreases 65 - depth, 2int,
{
    let ghost s = r.bytes();
    let ghost base = r.base();
    let ghost p0 = r.pos() as int;
    proof {
        use_type_invariant(&*r);
        ByteReader::lemma_inv(*r);
    }
    let start = r.offset();
    proof {
        lemma_uleb_from_len(s, p0, 0, 0);
    }
    let size: usize = match r.read_uleb128() {
        Ok(v) => v as usize,
        Err(e) => {
            return bytes_error(e);
        },
    };
    let mut entries: Vec<(Node, Node)> = Vec::new();
    if size > 0 {
        let types = match r.read_u8() {
            Ok(b) => b,
            Err(e) => {
                return bytes_error(e);
            },
        };
        let kn = types >> 4;
        let vn = types & 0x0f;
        let k = match WireType::from_nibble(kn) {
            Some(w) => w,
            None => {
                return Err(ThriftError::UnknownWireType { nibble: kn, offset: start });
            },
        };
        let v = match WireType::from_nibble(vn) {
            Some(w) => w,
            None => {
                return Err(ThriftError::UnknownWireType { nibble: vn, offset: start });
            },
        };
        let ghost p1 = r.pos() as int;
        proof {
            use_type_invariant(&*r);
            ByteReader::lemma_inv(*r);
        }
        let mut i: usize = 0;
        while i < size
            invariant
                i <= size,
                depth <= 65,
                r.bytes() == s,
                r.base() == base,
                s == old(r).bytes(),
                base == old(r).base(),
                p0 == old(r).pos(),
                p1 <= r.pos() <= s.len(),
                p0 < p1,
                tvalue(s, base, p0, WireType::MapOf, depth as int) == match tentries(
                    s,
                    base,
                    p1,
                    k,
                    v,
                    depth as int,
                    size as int,
                ) {
                    Ok((entries, end)) => leaf(base, p0, end, ValueV::MapOf(entries)),
                    Err(e) => Err(e),
                },
                tentries(s, base, p1, k, v, depth as int, size as int) == prepend_entries(
                    entry_views(entries@),
                    tentries(s, base, r.pos() as int, k, v, depth as int, size - i),
                ),
            decreases size - i,
        {
            let key = match read_element(r, k, depth) {
                Ok(n) => n,
                Err(e) => {
                    return Err(e);
                },
            };
            let val = match read_element(r, v, depth) {
                Ok(n) => n,
                Err(e) => {
                    return Err(e);
                },
            };
            proof {
                use_type_invariant(&*r);
                ByteReader::lemma_inv(*r);
            }
            let ghost before = entry_views(entries@);
            entries.push((key, val));
            proof {
                assert(entry_views(entries@) =~= before.push((node_view(key), node_view(val))));
                let rest = tentries(s, base, r.pos() as int, k, v, depth as int, size - i - 1);
                match rest {
                    Ok((rs, fin)) => {
                        assert(before + (seq![(node_view(key), node_view(val))] + rs)
                            =~= entry_views(entries@) + rs);
                    },
                    Err(_) => {},
                }
            }
            i = i + 1;
        }
        proof {
            assert(entry_views(entries@) + Seq::<(NodeV, NodeV)>::empty() =~= entry_views(
                entries@,
            ));
        }
    }
    proof {
        use_type_invariant(&*r);
        ByteReader::lemma_inv(*r);
    }
    let end = r.offset();
    proof {
        if size == 0 {
            assert(entry_views(entries@) =~= Seq::<(NodeV, NodeV)>::empty());
        }
    }
    let node = Node { span: Span::new(start, end), value: Value::MapOf(entries) };
    Ok(node)
}

fn read_element(r: &mut ByteReader, wire: WireType, depth: usize) -> (res: Result<Node, ThriftError>)
    requires
        depth <= 65,
    ensures
        final(r).bytes() == old(r).bytes(),
        final(r).base() == old(r).base(),
        depth > 64 ==> res == Err::<Node, ThriftError>(
            ThriftError::TooDeep { offset: old(r).at() as u64 },
        ),
        depth <= 64 ==> tvalue(old(r).bytes(), old(r).base(), old(r).pos() as int, wire, depth + 1)
            == read_outcome(res, final(r).pos()),
        res is Ok ==> final(r).pos() > old(r).pos(),
    decreases 65 - depth, 1int,
{
    if depth > MAX_DEPTH {
        return Err(ThriftError::TooDeep { offset: r.offset() });
    }
    read_value(r, wire, depth + 1)
}

} // verus!
