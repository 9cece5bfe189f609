//! Pages: walking a column chunk one page header at a time.
//!
//! A column chunk is a run of pages laid end to end. Each page is a Thrift `PageHeader` followed
//! by `compressed_page_size` bytes of body. The header says how long the body is, and so where
//! the next header starts, which is how a reader walks a chunk without any index.
//!
//! This module reads the headers and measures the bodies. It does not decode the values in the
//! bodies.

use vstd::prelude::*;

use crate::bytes::{ByteReader, BytesError, Span};
use crate::logical::int_in;
use crate::metadata::{
    as_struct, enum_name, enum_text, opt_int, req_int, required_int, statistics, statistics_of,
    struct_of, MetadataError, Statistics,
};
use crate::parquet_thrift::{enum_names, enum_value_name, EnumName};
use crate::thrift::{
    find_field, node_view, read_outcome, read_struct, tstruct, Field, FieldV, Node, NodeV,
    Struct, ThriftError,
};

verus! {

/// One page of a column chunk: its header, decoded, and where its body lies.
#[derive(Debug, PartialEq)]
pub struct Page {
    pub page_type: String,
    /// The Thrift header.
    pub header_span: Span,
    /// The body that follows it: `compressed_page_size` bytes.
    pub body_span: Span,
    pub uncompressed_page_size: i64,
    pub compressed_page_size: i64,
    pub num_values: Option<i64>,
    pub encoding: Option<String>,
    pub statistics: Option<Statistics>,
    pub header: Node,
}

impl Page {
    /// The whole page: its header and its body.
    pub fn span(&self) -> (s: Span)
        requires
            self.header_span.start <= self.body_span.end,
        ensures
            s == (Span { start: self.header_span.start, end: self.body_span.end }),
    {
        Span::new(self.header_span.start, self.body_span.end)
    }
}

/// The field of a page header that holds the sub-header of a page of type `t`: 5 for a v1 data
/// page, 7 for a dictionary page, 8 for a v2 data page.
pub open spec fn sub_header_id(t: i64) -> Option<i16> {
    if t == 0 {
        Some(5i16)
    } else if t == 2 {
        Some(7i16)
    } else if t == 3 {
        Some(8i16)
    } else {
        None
    }
}

/// The field of the sub-header that holds the encoding: 4 for a v2 data page, 2 otherwise.
pub open spec fn encoding_id(t: i64) -> i16 {
    if t == 3 {
        4
    } else if t == 0 || t == 2 {
        2
    } else {
        0
    }
}

/// The field of the sub-header that holds statistics: 5 for a v1 data page, 8 for a v2 one.
pub open spec fn stats_id(t: i64) -> i16 {
    if t == 0 {
        5
    } else if t == 3 {
        8
    } else {
        0
    }
}

/// The node of the first field with the given id.
pub open spec fn node_in(fs: Seq<FieldV>, id: i16) -> Option<NodeV> {
    match find_field(fs, id) {
        Some(i) => Some(fs[i].node),
        None => None,
    }
}

/// The sub-header of a page of type `t`, where the header holds one.
pub open spec fn sub_node(fs: Seq<FieldV>, t: i64) -> Option<NodeV> {
    match sub_header_id(t) {
        Some(id) => node_in(fs, id),
        None => None,
    }
}

/// The first thing wrong with a page header, if anything is: it must be a struct with a type
/// and both sizes, its sub-header must be a struct, and so must the statistics in it.
pub open spec fn header_error(h: NodeV) -> Option<MetadataError> {
    match struct_of(h) {
        Err(e) => Some(e),
        Ok(fs) => match required_int(fs, "PageHeader", 1, "type", h.span) {
            Err(e) => Some(e),
            Ok(t) => match required_int(fs, "PageHeader", 2, "uncompressed_page_size", h.span) {
                Err(e) => Some(e),
                Ok(_) => match required_int(fs, "PageHeader", 3, "compressed_page_size", h.span) {
                    Err(e) => Some(e),
                    Ok(_) => match sub_node(fs, t) {
                        None => None,
                        Some(sn) => match struct_of(sn) {
                            Err(e) => Some(e),
                            Ok(sfs) => match node_in(sfs, stats_id(t)) {
                                None => None,
                                Some(st) => match struct_of(st) {
                                    Err(e) => Some(e),
                                    Ok(_) => None,
                                },
                            },
                        },
                    },
                },
            },
        },
    }
}

/// How many bytes of body a header announces: its compressed size, or as many as a `usize`
/// can count where that size is negative or larger.
pub open spec fn body_len(h: NodeV) -> nat {
    match struct_of(h) {
        Ok(fs) => match int_in(fs, 3) {
            Some(c) => if 0 <= c <= usize::MAX {
                c as nat
            } else {
                usize::MAX as nat
            },
            None => 0,
        },
        Err(_) => 0,
    }
}

/// The headers and body spans of the pages from position `pos` of a chunk to its end, or the
/// first error.
pub open spec fn walk(bytes: Seq<u8>, base: u64, pos: int) -> Result<Seq<(NodeV, Span)>, MetadataError>
    decreases bytes.len() - pos,
{
    if pos < 0 || pos >= bytes.len() {
        Ok(Seq::empty())
    } else {
        match tstruct(bytes, base, pos, 0) {
            Err(e) => Err(MetadataError::Thrift(e)),
            Ok((h, end)) => match header_error(h) {
                Some(e) => Err(e),
                None => if end <= pos {
                    Ok(Seq::empty())
                } else if end + body_len(h) > bytes.len() {
                    Err(
                        MetadataError::Thrift(
                            ThriftError::Bytes(
                                BytesError::UnexpectedEnd {
                                    offset: (base + end) as u64,
                                    wanted: body_len(h) as u64,
                                },
                            ),
                        ),
                    )
                } else {
                    let body = Span {
                        start: (base + end) as u64,
                        end: (base + end + body_len(h)) as u64,
                    };
                    match walk(bytes, base, end + body_len(h)) {
                        Ok(rest) => Ok(seq![(h, body)] + rest),
                        Err(e) => Err(e),
                    }
                },
            },
        }
    }
}

/// The name of an encoding, where the value is one `parquet.thrift` lists.
pub open spec fn encoding_name(v: Option<i64>) -> Option<Seq<char>> {
    match v {
        Some(n) => if 0 <= n < enum_names(EnumName::Encoding).len() {
            Some(enum_names(EnumName::Encoding)[n as int]@)
        } else {
            None
        },
        None => None,
    }
}

pub open spec fn opt_string_view(s: Option<String>) -> Option<Seq<char>> {
    match s {
        Some(t) => Some(t@),
        None => None,
    }
}

/// Page `p` is the page whose header is `h` and whose body lies at `body`.
pub open spec fn page_is(p: Page, h: NodeV, body: Span) -> bool {
    match struct_of(h) {
        Err(_) => false,
        Ok(fs) => {
            let t = match int_in(fs, 1) {
                Some(v) => v,
                None => 0,
            };
            &&& p.page_type@ == enum_text(EnumName::PageType, t)
            &&& p.header_span == h.span
            &&& p.body_span == body
            &&& Some(p.uncompressed_page_size) == int_in(fs, 2)
            &&& Some(p.compressed_page_size) == int_in(fs, 3)
            &&& node_view(p.header) == h
            &&& match sub_node(fs, t) {
                None => p.num_values is None && p.encoding is None && p.statistics is None,
                Some(sn) => match struct_of(sn) {
                    Err(_) => false,
                    Ok(sfs) => {
                        &&& p.num_values == int_in(sfs, 1)
                        &&& opt_string_view(p.encoding) == encoding_name(
                            int_in(sfs, encoding_id(t)),
                        )
                        &&& match node_in(sfs, stats_id(t)) {
                            None => p.statistics is None,
                            Some(st) => p.statistics matches Some(s) && statistics_of(st, s),
                        }
                    },
                },
            }
        },
    }
}

/// The pages are the walked headers and bodies, one for one.
pub open spec fn pages_are(ps: Seq<Page>, ws: Seq<(NodeV, Span)>) -> bool {
    &&& ps.len() == ws.len()
    &&& forall|i: int| 0 <= i < ps.len() ==> page_is(#[trigger] ps[i], ws[i].0, ws[i].1)
}

/// The pages read so far, in front of the walk of the rest.
pub open spec fn after(
    prefix: Seq<(NodeV, Span)>,
    r: Result<Seq<(NodeV, Span)>, MetadataError>,
) -> Result<Seq<(NodeV, Span)>, MetadataError> {
    match r {
        Ok(rest) => Ok(prefix + rest),
        Err(e) => Err(e),
    }
}


/// What reading one page at position `pos` gives, and where the reader then stands.
pub open spec fn page_step(
    bytes: Seq<u8>,
    base: u64,
    pos: int,
    res: Result<Page, MetadataError>,
    next: int,
) -> bool {
    match tstruct(bytes, base, pos, 0) {
        Err(e) => res == Err::<Page, MetadataError>(MetadataError::Thrift(e)),
        Ok((h, end)) => match header_error(h) {
            Some(e) => res == Err::<Page, MetadataError>(e),
            None => end > pos && if end + body_len(h) > bytes.len() {
                res == Err::<Page, MetadataError>(
                    MetadataError::Thrift(
                        ThriftError::Bytes(
                            BytesError::UnexpectedEnd {
                                offset: (base + end) as u64,
                                wanted: body_len(h) as u64,
                            },
                        ),
                    ),
                )
            } else {
                &&& res matches Ok(p) && page_is(
                    p,
                    h,
                    Span { start: (base + end) as u64, end: (base + end + body_len(h)) as u64 },
                )
                &&& next == end + body_len(h)
            },
        },
    }
}

/// Read one page at the reader's position: its header, and then past its body.
fn read_page(r: &mut ByteReader) -> (res: Result<Page, MetadataError>)
    ensures
        final(r).bytes() == old(r).bytes(),
        final(r).base() == old(r).base(),
        page_step(old(r).bytes(), old(r).base(), old(r).pos() as int, res, final(r).pos() as int),
{
    let header = match read_struct(r) {
        Ok(n) => n,
        Err(e) => {
            return Err(MetadataError::Thrift(e));
        },
    };
    let h = match as_struct(&header) {
        Ok(s) => s,
        Err(e) => {
            return Err(e);
        },
    };
    let page_type = match req_int(h, "PageHeader", 1, "type", header.span) {
        Ok(v) => v,
        Err(e) => {
            return Err(e);
        },
    };
    let uncompressed = match req_int(h, "PageHeader", 2, "uncompressed_page_size", header.span) {
        Ok(v) => v,
        Err(e) => {
            return Err(e);
        },
    };
    let compressed = match req_int(h, "PageHeader", 3, "compressed_page_size", header.span) {
        Ok(v) => v,
        Err(e) => {
            return Err(e);
        },
    };
    let ghost fs = crate::thrift::field_views(h.fields@);
    // The sub-header that matches the page type. All three kinds put num_values in field 1.
    let (sub_field, encoding_field): (Option<&Field>, i16) = if page_type == 0 {
        (h.field(5), 2)
    } else if page_type == 2 {
        (h.field(7), 2)
    } else if page_type == 3 {
        (h.field(8), 4)
    } else {
        (None, 0)
    };
    proof {
        if let Some(f) = sub_field {
            let id = sub_header_id(page_type)->Some_0;
            crate::thrift::lemma_find_field_views(h.fields@, id);
            let i = find_field(fs, id)->Some_0;
            assert(fs[i].node == node_view(f.node));
            assert(sub_node(fs, page_type) == Some(node_view(f.node)));
        } else {
            assert(sub_node(fs, page_type) is None);
        }
    }
    let sub: Option<&Struct> = match sub_field {
        Some(f) => match as_struct(&f.node) {
            Ok(s) => Some(s),
            Err(e) => {
                return Err(e);
            },
        },
        None => None,
    };
    let stats_field: i16 = if page_type == 0 {
        5
    } else if page_type == 3 {
        8
    } else {
        0
    };
    let stats = match sub {
        Some(s) => match s.field(stats_field) {
            Some(f) => {
                proof {
                    let sfs = crate::thrift::field_views(s.fields@);
                    crate::thrift::lemma_find_field_views(s.fields@, stats_field);
                    let i = find_field(sfs, stats_field)->Some_0;
                    assert(sfs[i].node == node_view(f.node));
                    assert(node_in(sfs, stats_id(page_type)) == Some(node_view(f.node)));
                }
                match statistics(&f.node) {
                    Ok(st) => Some(st),
                    Err(e) => {
                        return Err(e);
                    },
                }
            },
            None => None,
        },
        None => None,
    };
    let n: usize = if compressed < 0 || compressed as u128 > usize::MAX as u128 {
        usize::MAX
    } else {
        compressed as usize
    };
    let body_span = match r.read_bytes(n) {
        Ok((_, span)) => span,
        Err(e) => {
            return Err(MetadataError::Thrift(ThriftError::Bytes(e)));
        },
    };
    let num_values = match sub {
        Some(s) => opt_int(s, 1),
        None => None,
    };
    let encoding = match sub {
        Some(s) => match opt_int(s, encoding_field) {
            Some(v) => match enum_value_name(EnumName::Encoding, v) {
                Some(name) => Some(name.to_owned()),
                None => None,
            },
            None => None,
        },
        None => None,
    };
    Ok(
        Page {
            page_type: enum_name(EnumName::PageType, page_type),
            header_span: header.span,
            body_span,
            uncompressed_page_size: uncompressed,
            compressed_page_size: compressed,
            num_values,
            encoding,
            statistics: stats,
            header,
        },
    )
}


/// Walk the pages of a column chunk whose bytes are `chunk`, starting at file offset `base`.
///
/// Stops at the end of the chunk. A page whose body would run past the end is an error: the
/// chunk's size in the footer and the sizes in its page headers must agree.
pub fn walk_pages(chunk: &[u8], base: u64) -> (r: Result<Vec<Page>, MetadataError>)
    requires
        base + chunk@.len() <= u64::MAX,
    ensures
        match walk(chunk@, base, 0) {
            Ok(ws) => r matches Ok(ps) && pages_are(ps@, ws),
            Err(e) => r == Err::<Vec<Page>, MetadataError>(e),
        },
{
    let mut r = ByteReader::new(chunk, base);
    let mut pages: Vec<Page> = Vec::new();
    let ghost mut done: Seq<(NodeV, Span)> = Seq::empty();
    assert(walk(chunk@, base, 0) == after(done, walk(chunk@, base, 0))) by {
        match walk(chunk@, base, 0) {
            Ok(ws) => {
                assert(done + ws =~= ws);
            },
            Err(_) => {},
        }
    }
    while !r.is_at_end()
        invariant
            r.bytes() == chunk@,
            r.base() == base,
            pages_are(pages@, done),
            walk(chunk@, base, 0) == after(done, walk(chunk@, base, r.pos() as int)),
        decreases chunk@.len() - r.pos(),
    {
        proof {
            use_type_invariant(&r);
            ByteReader::lemma_inv(r);
        }
        let ghost p0 = r.pos() as int;
        let page = match read_page(&mut r) {
            Ok(p) => p,
            Err(e) => {
                return Err(e);
            },
        };
        proof {
            use_type_invariant(&r);
            ByteReader::lemma_inv(r);
            let (h, end) = tstruct(chunk@, base, p0, 0)->Ok_0;
            let body = Span {
                start: (base + end) as u64,
                end: (base + end + body_len(h)) as u64,
            };
            let next = r.pos() as int;
            let old_done = done;
            done = done.push((h, body));
            match walk(chunk@, base, next) {
                Ok(rest) => {
                    assert(old_done + (seq![(h, body)] + rest) =~= done + rest);
                },
                Err(_) => {},
            }
        }
        let ghost old_pages = pages@;
        pages.push(page);
        proof {
            assert forall|i: int| 0 <= i < pages@.len() implies page_is(
                #[trigger] pages@[i],
                done[i].0,
                done[i].1,
            ) by {
                if i < old_pages.len() {
                    assert(pages@[i] == old_pages[i]);
                }
            }
        }
    }
    proof {
        match walk(chunk@, base, 0) {
            Ok(ws) => {
                assert(done + Seq::<(NodeV, Span)>::empty() =~= done);
            },
            Err(_) => {},
        }
    }
    Ok(pages)
}

} // verus!
