//! Reading a column chunk into levels and values.
//!
//! A column chunk's pages hold, for every value slot, a repetition level, a definition level,
//! and, when the slot is not null, a value. This module reads them out as triples:
//!
//! ```text
//! (r, d, value)    r: where in the nesting a new element starts
//!                  d: how deep along the path the value is defined
//!                  value: present only when d is the column's maximum
//! ```
//!
//! A data page (version 1) body is laid out in three parts, and the levels are only there when
//! the column can have them:
//!
//! ```text
//! [u32 length][repetition levels]   if max repetition level > 0
//! [u32 length][definition levels]   if max definition level > 0
//! [values, PLAIN]                   one per slot whose d is the maximum
//! ```
//!
//! What this reader does not do, and says so rather than guessing: decompress pages, decode
//! dictionary pages and indices, and read data page version 2.

use vstd::prelude::*;

use crate::bytes::{bytes_error_text, push_span, span_text, ByteReader, BytesError, Span};
use crate::logical::int_in;
use crate::metadata::{
    bits64, chunk_range_fits, chunk_start, enum_text, metadata_error_text, struct_of, ColumnChunk,
};
use crate::pages::{
    body_len, encoding_id, encoding_name, header_error, opt_string_view, page_is, sub_node, walk,
    walk_pages, Page,
};
use crate::parquet_thrift::EnumName;
use crate::plain::{self, copy_value, fixed_len, plain_values, plain_views, PlainValue, PlainValueV};
use crate::rle::{self, all_values, bits_needed, lemma_runs_hold_count, rle_runs, run_views, Run, RunView};
use crate::schema::Leaf;
use crate::text::str_eq;
use crate::thrift::{tstruct, FieldV, NodeV};
use vstd::slice::slice_subrange;

verus! {

/// One value slot of a column: its repetition and definition levels, and the value when the
/// slot is not null.
#[derive(Clone, Debug, PartialEq)]
pub struct Triple {
    pub rep: u32,
    pub def: u32,
    pub value: Option<PlainValue>,
    pub value_span: Option<Span>,
    /// Which page it came from.
    pub page: usize,
}

/// A triple as a mathematical value.
pub struct TripleV {
    pub rep: u32,
    pub def: u32,
    pub value: Option<PlainValueV>,
    pub value_span: Option<Span>,
    pub page: nat,
}

pub open spec fn triple_view(t: Triple) -> TripleV {
    TripleV {
        rep: t.rep,
        def: t.def,
        value: match t.value {
            Some(v) => Some(plain::plain_view(v)),
            None => None,
        },
        value_span: t.value_span,
        page: t.page as nat,
    }
}

pub open spec fn triple_views(ts: Seq<Triple>) -> Seq<TripleV> {
    ts.map_values(|t: Triple| triple_view(t))
}

/// A data page's body, split into its parts.
#[derive(Debug, PartialEq)]
pub struct DataPage {
    pub page: Page,
    /// The four-byte length and the repetition-level runs after it.
    pub rep_levels: Option<(Span, Vec<Run>)>,
    pub def_levels: Option<(Span, Vec<Run>)>,
    pub values: Span,
}

/// A column chunk read into its data pages and its value slots.
#[derive(Debug, PartialEq)]
pub struct ColumnData {
    pub pages: Vec<DataPage>,
    pub triples: Vec<Triple>,
}

/// Why a column chunk could not be read.
#[derive(Clone, Debug, PartialEq, Eq)]
pub struct ColumnError(pub String);

impl ColumnError {
    /// What went wrong.
    pub fn message(&self) -> (s: String)
        ensures
            s@ == self.0@,
    {
        self.0.clone()
    }
}

/// A level stream as values: where it lies and its runs.
pub open spec fn levels_view(l: Option<(Span, Vec<Run>)>) -> Option<(Span, Seq<RunView>)> {
    match l {
        Some((s, runs)) => Some((s, run_views(runs@))),
        None => None,
    }
}

/// A data page as values: the header and body it was read from, its level streams and where
/// its values lie.
pub struct DataPageV {
    pub header: NodeV,
    pub body: Span,
    pub rep_levels: Option<(Span, Seq<RunView>)>,
    pub def_levels: Option<(Span, Seq<RunView>)>,
    pub values: Span,
}

/// The data pages are the page values, one for one.
pub open spec fn data_pages_are(ps: Seq<DataPage>, vs: Seq<DataPageV>) -> bool {
    &&& ps.len() == vs.len()
    &&& forall|i: int|
        0 <= i < ps.len() ==> {
            &&& page_is(#[trigger] ps[i].page, vs[i].header, vs[i].body)
            &&& levels_view(ps[i].rep_levels) == vs[i].rep_levels
            &&& levels_view(ps[i].def_levels) == vs[i].def_levels
            &&& ps[i].values == vs[i].values
        }
}

/// The page type a header gives, as a number: 0 where it gives none.
pub open spec fn type_num(h: NodeV) -> i64 {
    match struct_of(h) {
        Ok(fs) => match int_in(fs, 1) {
            Some(v) => v,
            None => 0,
        },
        Err(_) => 0,
    }
}

/// The fields of a header's sub-header, where it has one that is a struct.
pub open spec fn sub_fields(h: NodeV) -> Option<Seq<FieldV>> {
    match struct_of(h) {
        Ok(fs) => match sub_node(fs, type_num(h)) {
            Some(sn) => match struct_of(sn) {
                Ok(sfs) => Some(sfs),
                Err(_) => None,
            },
            None => None,
        },
        Err(_) => None,
    }
}

/// The number of values a page header announces.
pub open spec fn header_num_values(h: NodeV) -> Option<i64> {
    match sub_fields(h) {
        Some(sfs) => int_in(sfs, 1),
        None => None,
    }
}

/// The encoding a page header names for its values.
pub open spec fn header_encoding(h: NodeV) -> Option<Seq<char>> {
    match sub_fields(h) {
        Some(sfs) => encoding_name(int_in(sfs, encoding_id(type_num(h)))),
        None => None,
    }
}

/// How many value slots a page has: the number its header announces, none where that is
/// missing or negative, as a `usize` holds it.
pub open spec fn slot_count(h: NodeV) -> nat {
    let n: i64 = match header_num_values(h) {
        Some(v) => if v < 0 {
            0
        } else {
            v
        },
        None => 0,
    };
    (n as usize) as nat
}

/// A level stream at position `pos` of a page body `b` that starts at `base`: a four-byte
/// length, then that many bytes of runs holding `count` levels of `max_level`'s bit width.
/// Gives the stream's span and runs, and the position after it.
pub open spec fn level_read(b: Seq<u8>, base: u64, pos: nat, max_level: u32, count: nat) -> Result<
    ((Span, Seq<RunView>), nat),
    Seq<char>,
> {
    if pos + 4 > b.len() {
        Err(bytes_error_text(BytesError::UnexpectedEnd { offset: (base + pos) as u64, wanted: 4 }))
    } else {
        let len = ((le_u32_value_at(b, pos) as u32) as usize) as nat;
        let p = pos + 4;
        if p + len > b.len() {
            Err(
                bytes_error_text(
                    BytesError::UnexpectedEnd { offset: (base + p) as u64, wanted: len as u64 },
                ),
            )
        } else {
            match rle_runs(
                b.subrange(p as int, (p + len) as int),
                (base + p) as u64,
                bits_needed(max_level as nat),
                count,
                0,
                0,
            ) {
                Err(e) => Err("levels: "@ + bytes_error_text(e)),
                Ok(runs) => Ok(
                    ((Span { start: (base + pos) as u64, end: (base + p + len) as u64 }, runs), p + len),
                ),
            }
        }
    }
}

/// The four bytes at `pos` read as a little-endian unsigned integer.
pub open spec fn le_u32_value_at(b: Seq<u8>, pos: nat) -> int {
    crate::bytes::le_u32_value(b.subrange(pos as int, pos + 4int))
}

/// A level stream where the column has levels of that kind (`max_level > 0`), and none
/// otherwise.
pub open spec fn levels_read(b: Seq<u8>, base: u64, pos: nat, max_level: u32, count: nat) -> Result<
    (Option<(Span, Seq<RunView>)>, nat),
    Seq<char>,
> {
    if max_level > 0 {
        match level_read(b, base, pos, max_level, count) {
            Ok((l, next)) => Ok((Some(l), next)),
            Err(m) => Err(m),
        }
    } else {
        Ok((None, pos))
    }
}

/// The levels a stream gives, or `count` copies of `default` where there is no stream.
pub open spec fn levels_or(l: Option<(Span, Seq<RunView>)>, count: nat, default: u32) -> Seq<u32> {
    match l {
        Some((_, runs)) => all_values(runs),
        None => Seq::new(count, |i: int| default),
    }
}

/// How many of the first `i` definition levels are `max`: the slots before slot `i` that hold
/// a value.
pub open spec fn present_before(defs: Seq<u32>, max: u32, i: int) -> nat
    decreases i,
{
    if i <= 0 {
        0
    } else {
        present_before(defs, max, i - 1) + if defs[i - 1] == max {
            1nat
        } else {
            0nat
        }
    }
}

/// The slots of one page: slot `i` takes the next value where its definition level is the
/// maximum.
pub open spec fn slots(
    reps: Seq<u32>,
    defs: Seq<u32>,
    max: u32,
    vs: Seq<(PlainValueV, Span)>,
    count: nat,
    page: nat,
) -> Seq<TripleV> {
    Seq::new(
        count,
        |i: int|
            TripleV {
                rep: reps[i],
                def: defs[i],
                value: if defs[i] == max {
                    Some(vs[present_before(defs, max, i) as int].0)
                } else {
                    None
                },
                value_span: if defs[i] == max {
                    Some(vs[present_before(defs, max, i) as int].1)
                } else {
                    None
                },
                page,
            },
    )
}

/// What one data page gives: its level streams, where its values start, and its slots.
pub struct PageReadV {
    pub rep_levels: Option<(Span, Seq<RunView>)>,
    pub def_levels: Option<(Span, Seq<RunView>)>,
    pub values_start: u64,
    pub triples: Seq<TripleV>,
}

pub open spec fn unexpected_type_text(t: Seq<char>) -> Seq<char> {
    if t == "DICTIONARY_PAGE"@ {
        "this column is dictionary-encoded; ch05 decodes dictionaries"@
    } else if t == "DATA_PAGE_V2"@ {
        "this column uses data page version 2; ch06 reads it"@
    } else {
        "unexpected page type "@ + t
    }
}

pub open spec fn encoding_text(e: Option<Seq<char>>) -> Seq<char> {
    "values encoded with "@ + match e {
        Some(n) => n,
        None => "an unknown encoding"@,
    } + "; ch05 decodes encodings other than PLAIN"@
}

/// The slots of one page, or the error where the definition levels ask for more values than
/// the page holds.
pub open spec fn slots_read(
    reps: Seq<u32>,
    defs: Seq<u32>,
    max: u32,
    vs: Seq<(PlainValueV, Span)>,
    count: nat,
    page: nat,
) -> Result<Seq<TripleV>, Seq<char>> {
    if present_before(defs, max, count as int) > vs.len() {
        Err("fewer values than definition levels say are present"@)
    } else {
        Ok(slots(reps, defs, max, vs, count, page))
    }
}

/// The level streams at the front of a page body: the repetition levels, then the definition
/// levels, each where the column has them; and where the values start.
pub open spec fn both_levels(b: Seq<u8>, base: u64, leaf: Leaf, count: nat) -> Result<
    (Option<(Span, Seq<RunView>)>, Option<(Span, Seq<RunView>)>, nat),
    Seq<char>,
> {
    match levels_read(b, base, 0, leaf.max_repetition_level, count) {
        Err(m) => Err(m),
        Ok((rl, p1)) => match levels_read(b, base, p1, leaf.max_definition_level, count) {
            Err(m) => Err(m),
            Ok((dl, p2)) => Ok((rl, dl, p2)),
        },
    }
}

/// The body `b` of data page `index`, starting at `base` and holding `count` slots, read for
/// `leaf`.
pub open spec fn body_read(b: Seq<u8>, base: u64, leaf: Leaf, count: nat, index: nat) -> Result<
    PageReadV,
    Seq<char>,
> {
    match both_levels(b, base, leaf, count) {
        Err(m) => Err(m),
        Ok((rl, dl, p2)) => {
            let reps = levels_or(rl, count, 0);
            let defs = levels_or(dl, count, leaf.max_definition_level);
            let max = leaf.max_definition_level;
            let present = present_before(defs, max, defs.len() as int);
            let values_start = (base + p2) as u64;
            match plain_values(
                leaf.physical_type.0,
                leaf.type_length,
                b.subrange(p2 as int, b.len() as int),
                values_start,
                present,
            ) {
                Err(e) => Err("values: "@ + bytes_error_text(e)),
                Ok(vs) => match slots_read(reps, defs, max, vs, count, index) {
                    Err(m) => Err(m),
                    Ok(ts) => Ok(
                        PageReadV { rep_levels: rl, def_levels: dl, values_start, triples: ts },
                    ),
                },
            }
        },
    }
}

/// Page `index` of a column, with header `h` and its body at `body` in `file`, read for `leaf`.
pub open spec fn page_read(file: Seq<u8>, h: NodeV, body: Span, leaf: Leaf, index: nat) -> Result<
    PageReadV,
    Seq<char>,
> {
    let t = enum_text(EnumName::PageType, type_num(h));
    if t != "DATA_PAGE"@ {
        Err(unexpected_type_text(t))
    } else if header_encoding(h) != Some("PLAIN"@) {
        Err(encoding_text(header_encoding(h)))
    } else {
        body_read(
            file.subrange(body.start as int, body.end as int),
            body.start,
            leaf,
            slot_count(h),
            index,
        )
    }
}

/// The end of the last value among `ts`, if any slot holds one.
pub open spec fn last_value_end(ts: Seq<TripleV>) -> Option<u64>
    decreases ts.len(),
{
    if ts.len() == 0 {
        None
    } else {
        match ts.last().value_span {
            Some(s) => Some(s.end),
            None => last_value_end(ts.drop_last()),
        }
    }
}

/// Where a page's values end: the end of the last value read so far, but not before `start`.
pub open spec fn page_end(ts: Seq<TripleV>, start: u64) -> u64 {
    match last_value_end(ts) {
        Some(e) => if e > start {
            e
        } else {
            start
        },
        None => start,
    }
}

/// The walked pages from `i` on, read in turn after the data pages `acc` and slots `ts` read
/// so far.
pub open spec fn pages_read(
    file: Seq<u8>,
    ws: Seq<(NodeV, Span)>,
    leaf: Leaf,
    i: nat,
    acc: Seq<DataPageV>,
    ts: Seq<TripleV>,
) -> Result<(Seq<DataPageV>, Seq<TripleV>), Seq<char>>
    decreases ws.len() - i,
{
    if i >= ws.len() {
        Ok((acc, ts))
    } else {
        match page_read(file, ws[i as int].0, ws[i as int].1, leaf, i) {
            Err(m) => Err(m),
            Ok(pr) => {
                let all = ts + pr.triples;
                let dp = DataPageV {
                    header: ws[i as int].0,
                    body: ws[i as int].1,
                    rep_levels: pr.rep_levels,
                    def_levels: pr.def_levels,
                    values: Span { start: pr.values_start, end: page_end(all, pr.values_start) },
                };
                pages_read(file, ws, leaf, i + 1, acc.push(dp), all)
            },
        }
    }
}

/// A column chunk of `file` read for `leaf`: its data pages and slots, or what stopped it.
pub open spec fn column_outcome(file: Seq<u8>, chunk: ColumnChunk, leaf: Leaf) -> Result<
    (Seq<DataPageV>, Seq<TripleV>),
    Seq<char>,
> {
    if chunk.codec@ != "UNCOMPRESSED"@ {
        Err(
            "this column is compressed with "@ + chunk.codec@
                + "; the reader decompresses pages from ch07 on"@,
        )
    } else {
        let start = bits64(chunk_start(chunk));
        let end = start + bits64(chunk.total_compressed_size);
        if end > file.len() {
            Err(
                "the column chunk claims bytes "@ + span_text(
                    Span { start: start as u64, end: end as u64 },
                ) + ", past the end of the file"@,
            )
        } else {
            match walk(file.subrange(start, end), start as u64, 0) {
                Err(e) => Err(metadata_error_text(e)),
                Ok(ws) => pages_read(file, ws, leaf, 0, Seq::empty(), Seq::empty()),
            }
        }
    }
}

/// Every body a walk finds lies inside the walked bytes, after position `pos`.
proof fn lemma_walk_bodies(bytes: Seq<u8>, base: u64, pos: int)
    requires
        0 <= pos,
        base + bytes.len() <= u64::MAX,
    ensures
        walk(bytes, base, pos) matches Ok(ws) ==> forall|i: int|
            0 <= i < ws.len() ==> base + pos <= (#[trigger] ws[i]).1.start <= ws[i].1.end <= base
                + bytes.len(),
        walk(bytes, base, pos) matches Err(e) ==> !(e is TrailingBytes),
    decreases bytes.len() - pos,
{
    if pos < bytes.len() {
        match tstruct(bytes, base, pos, 0) {
            Err(_) => {},
            Ok((h, end)) => {
                if header_error(h) is None && end > pos && end + body_len(h) <= bytes.len() {
                    lemma_walk_bodies(bytes, base, end + body_len(h));
                    let body = Span {
                        start: (base + end) as u64,
                        end: (base + end + body_len(h)) as u64,
                    };
                    if let Ok(rest) = walk(bytes, base, end + body_len(h)) {
                        let ws = seq![(h, body)] + rest;
                        assert forall|i: int| 0 <= i < ws.len() implies base + pos <= (
                        #[trigger] ws[i]).1.start <= ws[i].1.end <= base + bytes.len() by {
                            if i > 0 {
                                assert(ws[i] == rest[i - 1]);
                            }
                        }
                    }
                }
            },
        }
    }
}

/// What a page holds of its header: its type, value count and encoding.
proof fn lemma_page_fields(p: Page, h: NodeV, body: Span)
    requires
        page_is(p, h, body),
    ensures
        p.page_type@ == enum_text(EnumName::PageType, type_num(h)),
        p.num_values == header_num_values(h),
        opt_string_view(p.encoding) == header_encoding(h),
        p.body_span == body,
{
}

/// Counting value slots only grows.
proof fn lemma_present_mono(defs: Seq<u32>, max: u32, i: int, j: int)
    requires
        i <= j,
    ensures
        present_before(defs, max, i) <= present_before(defs, max, j),
    decreases j - i,
{
    if i < j {
        lemma_present_mono(defs, max, i, j - 1);
    }
}

/// A message that starts with `prefix` and goes on with `rest`.
fn prefixed_error(prefix: &str, rest: String) -> (e: ColumnError)
    ensures
        e.0@ == prefix@ + rest@,
{
    let mut s = prefix.to_owned();
    s.append(rest.as_str());
    ColumnError(s)
}

/// Read one level stream: a four-byte length, then that many bytes of RLE/bit-packed runs.
fn level_stream(r: &mut ByteReader, max_level: u32, count: usize) -> (res: Result<
    (Span, Vec<Run>),
    ColumnError,
>)
    ensures
        final(r).bytes() == old(r).bytes(),
        final(r).base() == old(r).base(),
        match level_read(old(r).bytes(), old(r).base(), old(r).pos(), max_level, count as nat) {
            Ok((l, next)) => res matches Ok((s, runs)) && l == (s, run_views(runs@))
                && final(r).pos() == next,
            Err(m) => res matches Err(e) && e.0@ == m,
        },
{
    proof {
        use_type_invariant(&*r);
        ByteReader::lemma_inv(*r);
    }
    let start = r.offset();
    let len = match r.read_le_u32() {
        Ok(v) => v,
        Err(e) => return Err(ColumnError(e.message())),
    };
    let (bytes, body) = match r.read_bytes(len as usize) {
        Ok(x) => x,
        Err(e) => return Err(ColumnError(e.message())),
    };
    proof {
        use_type_invariant(&*r);
        ByteReader::lemma_inv(*r);
    }
    let runs = match rle::decode(bytes, body.start, rle::bit_width(max_level), count) {
        Ok(runs) => runs,
        Err(e) => return Err(prefixed_error("levels: ", e.message())),
    };
    Ok((Span { start, end: body.end }, runs))
}

/// `count` copies of `v`.
fn filled(count: usize, v: u32) -> (out: Vec<u32>)
    ensures
        out@ == Seq::new(count as nat, |i: int| v),
{
    let mut out: Vec<u32> = Vec::new();
    let mut i: usize = 0;
    while i < count
        invariant
            i <= count,
            out@ == Seq::new(i as nat, |j: int| v),
        decreases count - i,
    {
        out.push(v);
        i = i + 1;
        assert(out@ =~= Seq::new(i as nat, |j: int| v));
    }
    out
}

/// The levels of a stream, or `count` copies of `default` where the column has none.
fn level_values(l: &Option<(Span, Vec<Run>)>, count: usize, default: u32) -> (out: Vec<u32>)
    ensures
        out@ == levels_or(levels_view(*l), count as nat, default),
{
    match l {
        Some((_, runs)) => rle::values(runs.as_slice()),
        None => filled(count, default),
    }
}

/// Where the values read so far end, but not before `start`.
fn values_end(ts: &Vec<Triple>, start: u64) -> (e: u64)
    ensures
        e == page_end(triple_views(ts@), start),
{
    let ghost tv = triple_views(ts@);
    let mut i: usize = ts.len();
    assert(tv.take(i as int) =~= tv);
    while i > 0
        invariant
            i <= ts@.len(),
            tv == triple_views(ts@),
            last_value_end(tv) == last_value_end(tv.take(i as int)),
        decreases i,
    {
        assert(tv.take(i as int).last() == tv[i - 1]);
        match ts[i - 1].value_span {
            Some(s) => {
                return if s.end > start {
                    s.end
                } else {
                    start
                };
            },
            None => {
                assert(tv.take(i as int).drop_last() =~= tv.take(i - 1));
                i = i - 1;
            },
        }
    }
    start
}

/// The slots of one page: slot `i` takes the next value where its definition level is the
/// maximum.
fn build_slots(
    reps: &Vec<u32>,
    defs: &Vec<u32>,
    maxd: u32,
    values: &Vec<(PlainValue, Span)>,
    count: usize,
    index: usize,
) -> (r: Result<Vec<Triple>, ColumnError>)
    requires
        reps@.len() == count,
        defs@.len() == count,
    ensures
        match slots_read(reps@, defs@, maxd, plain_views(values@), count as nat, index as nat) {
            Ok(ts) => r matches Ok(out) && triple_views(out@) == ts,
            Err(m) => r matches Err(e) && e.0@ == m,
        },
{
    let ghost n = count as nat;
    let ghost vs = plain_views(values@);
    let ghost want = slots(reps@, defs@, maxd, vs, n, index as nat);
    let mut ts: Vec<Triple> = Vec::new();
    let mut k: usize = 0;
    let mut i: usize = 0;
    while i < count
        invariant
            i <= count,
            n == count as nat,
            reps@.len() == n,
            defs@.len() == n,
            vs == plain_views(values@),
            want == slots(reps@, defs@, maxd, vs, n, index as nat),
            k == present_before(defs@, maxd, i as int),
            k <= values@.len(),
            ts@.len() == i,
            forall|j: int| 0 <= j < i ==> triple_view(#[trigger] ts@[j]) == want[j],
        decreases count - i,
    {
        let d = defs[i];
        if d == maxd {
            if k >= values.len() {
                proof {
                    assert(present_before(defs@, maxd, i + 1) == k + 1);
                    lemma_present_mono(defs@, maxd, i + 1, n as int);
                    assert(vs.len() == values@.len());
                }
                return Err(
                    ColumnError("fewer values than definition levels say are present".to_owned()),
                );
            }
            let v = copy_value(&values[k].0);
            let s = values[k].1;
            ts.push(Triple { rep: reps[i], def: d, value: Some(v), value_span: Some(s), page: index });
            k = k + 1;
        } else {
            ts.push(Triple { rep: reps[i], def: d, value: None, value_span: None, page: index });
        }
        i = i + 1;
    }
    assert(triple_views(ts@) =~= want);
    Ok(ts)
}

/// Read the level streams at the front of a page body, and say where the values start.
fn read_levels(body: &[u8], base: u64, leaf: &Leaf, count: usize) -> (r: Result<
    (Option<(Span, Vec<Run>)>, Option<(Span, Vec<Run>)>, usize),
    ColumnError,
>)
    requires
        base + body@.len() <= u64::MAX,
    ensures
        match both_levels(body@, base, *leaf, count as nat) {
            Ok((rl, dl, p)) => r matches Ok((a, d, q)) && levels_view(a) == rl && levels_view(d)
                == dl && q == p && p <= body@.len(),
            Err(m) => r matches Err(e) && e.0@ == m,
        },
        r matches Ok((a, d, q)) ==> levels_or(levels_view(a), count as nat, 0).len() == count
            && levels_or(levels_view(d), count as nat, leaf.max_definition_level).len() == count,
{
    let ghost n = count as nat;
    let ghost b = body@;
    let mut r = ByteReader::new(body, base);
    let rep_levels = if leaf.max_repetition_level > 0 {
        match level_stream(&mut r, leaf.max_repetition_level, count) {
            Ok(l) => Some(l),
            Err(e) => return Err(e),
        }
    } else {
        None
    };
    let def_levels = if leaf.max_definition_level > 0 {
        match level_stream(&mut r, leaf.max_definition_level, count) {
            Ok(l) => Some(l),
            Err(e) => return Err(e),
        }
    } else {
        None
    };
    proof {
        use_type_invariant(&r);
        ByteReader::lemma_inv(r);
        lemma_runs_hold_count_at(b, base, 0, leaf.max_repetition_level, n);
        let p1: nat = match levels_read(b, base, 0, leaf.max_repetition_level, n) {
            Ok((_, p)) => p,
            Err(_) => 0,
        };
        lemma_runs_hold_count_at(b, base, p1, leaf.max_definition_level, n);
    }
    let blen: usize = body.len();
    let vstart = r.offset();
    assert(r.pos() <= blen);
    let p2: usize = (vstart - base) as usize;
    assert(p2 == r.pos());
    Ok((rep_levels, def_levels, p2))
}

/// Read the body of data page `index`: its level streams, where its values start, and its
/// slots.
fn read_body(body: &[u8], base: u64, leaf: &Leaf, count: usize, index: usize) -> (r: Result<
    (Option<(Span, Vec<Run>)>, Option<(Span, Vec<Run>)>, u64, Vec<Triple>),
    ColumnError,
>)
    requires
        base + body@.len() <= u64::MAX,
        leaf.physical_type.0 == 7 ==> fixed_len(leaf.type_length) <= usize::MAX,
    ensures
        match body_read(body@, base, *leaf, count as nat, index as nat) {
            Ok(pr) => r matches Ok((rl, dl, vs, ts)) && levels_view(rl) == pr.rep_levels
                && levels_view(dl) == pr.def_levels && vs == pr.values_start && triple_views(ts@)
                == pr.triples,
            Err(m) => r matches Err(e) && e.0@ == m,
        },
{
    let (rep_levels, def_levels, p2) = match read_levels(body, base, leaf, count) {
        Ok(x) => x,
        Err(e) => return Err(e),
    };
    let reps = level_values(&rep_levels, count, 0);
    let maxd = leaf.max_definition_level;
    let defs = level_values(&def_levels, count, maxd);
    let mut present: usize = 0;
    let mut i: usize = 0;
    while i < defs.len()
        invariant
            i <= defs@.len(),
            present <= i,
            present == present_before(defs@, maxd, i as int),
        decreases defs@.len() - i,
    {
        if defs[i] == maxd {
            present = present + 1;
        }
        i = i + 1;
    }
    let vstart = base + p2 as u64;
    let rest = slice_subrange(body, p2, body.len());
    let values = match plain::decode(leaf.physical_type, leaf.type_length, rest, vstart, present) {
        Ok(v) => v,
        Err(e) => return Err(prefixed_error("values: ", e.message())),
    };
    let ts = match build_slots(&reps, &defs, maxd, &values, count, index) {
        Ok(ts) => ts,
        Err(e) => return Err(e),
    };
    Ok((rep_levels, def_levels, vstart, ts))
}

/// Read one data page of a column into its level streams, where its values start, and its
/// slots.
fn read_page(file: &[u8], page: &Page, leaf: &Leaf, index: usize, Ghost(h): Ghost<NodeV>) -> (r:
    Result<(Option<(Span, Vec<Run>)>, Option<(Span, Vec<Run>)>, u64, Vec<Triple>), ColumnError>)
    requires
        page_is(*page, h, page.body_span),
        page.body_span.start <= page.body_span.end <= file@.len(),
        leaf.physical_type.0 == 7 ==> fixed_len(leaf.type_length) <= usize::MAX,
    ensures
        match page_read(file@, h, page.body_span, *leaf, index as nat) {
            Ok(pr) => r matches Ok((rl, dl, vs, ts)) && levels_view(rl) == pr.rep_levels
                && levels_view(dl) == pr.def_levels && vs == pr.values_start && triple_views(ts@)
                == pr.triples,
            Err(m) => r matches Err(e) && e.0@ == m,
        },
{
    proof {
        lemma_page_fields(*page, h, page.body_span);
    }
    let t = page.page_type.as_str();
    if !str_eq(t, "DATA_PAGE") {
        if str_eq(t, "DICTIONARY_PAGE") {
            return Err(
                ColumnError("this column is dictionary-encoded; ch05 decodes dictionaries".to_owned()),
            );
        }
        if str_eq(t, "DATA_PAGE_V2") {
            return Err(ColumnError("this column uses data page version 2; ch06 reads it".to_owned()));
        }
        let mut s = "unexpected page type ".to_owned();
        s.append(t);
        return Err(ColumnError(s));
    }
    let plain_ok = match &page.encoding {
        Some(e) => str_eq(e.as_str(), "PLAIN"),
        None => false,
    };
    if !plain_ok {
        let mut s = "values encoded with ".to_owned();
        match &page.encoding {
            Some(e) => s.append(e.as_str()),
            None => s.append("an unknown encoding"),
        }
        s.append("; ch05 decodes encodings other than PLAIN");
        return Err(ColumnError(s));
    }
    let nv: i64 = match page.num_values {
        Some(v) => if v < 0 {
            0
        } else {
            v
        },
        None => 0,
    };
    let count: usize = nv as usize;
    let flen: usize = file.len();
    assert(page.body_span.end <= flen);
    let bs: usize = page.body_span.start as usize;
    let be: usize = page.body_span.end as usize;
    let body = slice_subrange(file, bs, be);
    read_body(body, page.body_span.start, leaf, count, index)
}

/// The runs of a level stream that reads without error hold exactly `count` levels.
proof fn lemma_runs_hold_count_at(b: Seq<u8>, base: u64, pos: nat, max_level: u32, count: nat)
    ensures
        level_read(b, base, pos, max_level, count) matches Ok(((_, runs), _)) ==> all_values(runs).len()
            == count,
{
    if pos + 4 <= b.len() {
        let len = ((le_u32_value_at(b, pos) as u32) as usize) as nat;
        let p = pos + 4;
        if p + len <= b.len() {
            lemma_runs_hold_count(
                b.subrange(p as int, (p + len) as int),
                (base + p) as u64,
                bits_needed(max_level as nat),
                count,
                0,
                0,
            );
        }
    }
}

/// Read every data page of a column chunk into triples.
///
/// The chunk must be stored uncompressed and lie inside the file; its pages must be version 1
/// data pages with PLAIN values. Anything else is an error that says what was found.
pub fn read_column(file: &[u8], chunk: &ColumnChunk, leaf: &Leaf) -> (r: Result<
    ColumnData,
    ColumnError,
>)
    requires
        chunk_range_fits(*chunk),
        leaf.physical_type.0 == 7 ==> fixed_len(leaf.type_length) <= usize::MAX,
    ensures
        match column_outcome(file@, *chunk, *leaf) {
            Ok((pv, ts)) => r matches Ok(d) && data_pages_are(d.pages@, pv) && triple_views(
                d.triples@,
            ) == ts,
            Err(m) => r matches Err(e) && e.0@ == m,
        },
{
    if !str_eq(chunk.codec.as_str(), "UNCOMPRESSED") {
        let mut s = "this column is compressed with ".to_owned();
        s.append(chunk.codec.as_str());
        s.append("; the reader decompresses pages from ch07 on");
        return Err(ColumnError(s));
    }
    let range = chunk.byte_range();
    let flen: usize = file.len();
    if range.end > flen as u64 {
        let mut s = "the column chunk claims bytes ".to_owned();
        push_span(&mut s, range);
        s.append(", past the end of the file");
        return Err(ColumnError(s));
    }
    let rs: usize = range.start as usize;
    let re: usize = range.end as usize;
    let bytes = slice_subrange(file, rs, re);
    let ghost walked = walk(bytes@, range.start, 0);
    proof {
        lemma_walk_bodies(bytes@, range.start, 0);
    }
    let mut pages = match walk_pages(bytes, range.start) {
        Ok(p) => p,
        Err(e) => return Err(ColumnError(e.message())),
    };
    let ghost ws = walked->Ok_0;
    let ghost n = ws.len();
    let np: usize = pages.len();
    assert(n == np);
    // Turn the pages around, so that popping hands them out first to last.
    let mut rev: Vec<Page> = Vec::new();
    while pages.len() > 0
        invariant
            pages@.len() + rev@.len() == n,
            n <= usize::MAX,
            forall|j: int| 0 <= j < pages@.len() ==> page_is(#[trigger] pages@[j], ws[j].0, ws[j].1),
            forall|j: int|
                0 <= j < rev@.len() ==> page_is(#[trigger] rev@[j], ws[n - 1 - j].0, ws[n - 1 - j].1),
        decreases pages@.len(),
    {
        let ghost before = pages@;
        match pages.pop() {
            Some(p) => {
                rev.push(p);
            },
            None => {},
        }
        proof {
            assert(pages@ =~= before.drop_last());
        }
    }
    let mut out_pages: Vec<DataPage> = Vec::new();
    let mut triples: Vec<Triple> = Vec::new();
    let mut index: usize = 0;
    let ghost mut acc: Seq<DataPageV> = Seq::empty();
    assert(bytes@ == file@.subrange(range.start as int, range.end as int));
    assert(triple_views(triples@) =~= Seq::<TripleV>::empty());
    while rev.len() > 0
        invariant
            index + rev@.len() == n,
            n == ws.len(),
            n <= usize::MAX,
            forall|j: int|
                0 <= j < rev@.len() ==> page_is(#[trigger] rev@[j], ws[n - 1 - j].0, ws[n - 1 - j].1),
            forall|j: int|
                0 <= j < ws.len() ==> range.start <= (#[trigger] ws[j]).1.start <= ws[j].1.end
                    <= range.end,
            range.end <= file@.len(),
            leaf.physical_type.0 == 7 ==> fixed_len(leaf.type_length) <= usize::MAX,
            data_pages_are(out_pages@, acc),
            column_outcome(file@, *chunk, *leaf) == pages_read(
                file@,
                ws,
                *leaf,
                index as nat,
                acc,
                triple_views(triples@),
            ),
        decreases rev@.len(),
    {
        let ghost before = rev@;
        let page = rev.pop().unwrap();
        assert(rev@ =~= before.drop_last());
        let ghost h = ws[index as int].0;
        assert(page_is(page, h, ws[index as int].1));
        let (rl, dl, vstart, mut ts) = match read_page(file, &page, leaf, index, Ghost(h)) {
            Ok(x) => x,
            Err(e) => return Err(e),
        };
        let ghost prior = triple_views(triples@);
        let ghost added = triple_views(ts@);
        triples.append(&mut ts);
        assert(triple_views(triples@) =~= prior + added);
        let end = values_end(&triples, vstart);
        let ghost dp = DataPageV {
            header: h,
            body: ws[index as int].1,
            rep_levels: levels_view(rl),
            def_levels: levels_view(dl),
            values: Span { start: vstart, end },
        };
        out_pages.push(DataPage { page, rep_levels: rl, def_levels: dl, values: Span { start: vstart, end } });
        proof {
            acc = acc.push(dp);
            assert forall|j: int| 0 <= j < out_pages@.len() implies {
                &&& page_is(#[trigger] out_pages@[j].page, acc[j].header, acc[j].body)
                &&& levels_view(out_pages@[j].rep_levels) == acc[j].rep_levels
                &&& levels_view(out_pages@[j].def_levels) == acc[j].def_levels
                &&& out_pages@[j].values == acc[j].values
            } by {}
        }
        index = index + 1;
    }
    Ok(ColumnData { pages: out_pages, triples })
}

/// A slot read from a page holds a value exactly when its definition level is the maximum.
proof fn lemma_page_values_where_defined(file: Seq<u8>, h: NodeV, body: Span, leaf: Leaf, index: nat)
    ensures
        page_read(file, h, body, leaf, index) matches Ok(pr) ==> forall|k: int|
            0 <= k < pr.triples.len() ==> ((#[trigger] pr.triples[k]).value is Some <==> pr.triples[k].def
                == leaf.max_definition_level),
{
}

proof fn lemma_pages_values_where_defined(
    file: Seq<u8>,
    ws: Seq<(NodeV, Span)>,
    leaf: Leaf,
    i: nat,
    acc: Seq<DataPageV>,
    ts: Seq<TripleV>,
)
    requires
        forall|k: int|
            0 <= k < ts.len() ==> ((#[trigger] ts[k]).value is Some <==> ts[k].def
                == leaf.max_definition_level),
    ensures
        pages_read(file, ws, leaf, i, acc, ts) matches Ok((_, out)) ==> forall|k: int|
            0 <= k < out.len() ==> ((#[trigger] out[k]).value is Some <==> out[k].def
                == leaf.max_definition_level),
    decreases ws.len() - i,
{
    if i < ws.len() {
        lemma_page_values_where_defined(file, ws[i as int].0, ws[i as int].1, leaf, i);
        if let Ok(pr) = page_read(file, ws[i as int].0, ws[i as int].1, leaf, i) {
            let all = ts + pr.triples;
            assert forall|k: int| 0 <= k < all.len() implies ((#[trigger] all[k]).value is Some
                <==> all[k].def == leaf.max_definition_level) by {
                if k >= ts.len() {
                    assert(all[k] == pr.triples[k - ts.len()]);
                }
            }
            let dp = DataPageV {
                header: ws[i as int].0,
                body: ws[i as int].1,
                rep_levels: pr.rep_levels,
                def_levels: pr.def_levels,
                values: Span { start: pr.values_start, end: page_end(all, pr.values_start) },
            };
            lemma_pages_values_where_defined(file, ws, leaf, i + 1, acc.push(dp), all);
        }
    }
}

/// Where a column chunk reads, a slot holds a value exactly when its definition level is the
/// column's maximum: a lower level says that some field on the path is null.
pub proof fn lemma_values_where_defined(file: Seq<u8>, chunk: ColumnChunk, leaf: Leaf)
    ensures
        column_outcome(file, chunk, leaf) matches Ok((_, ts)) ==> forall|k: int|
            0 <= k < ts.len() ==> ((#[trigger] ts[k]).value is Some <==> ts[k].def
                == leaf.max_definition_level),
{
    let start = bits64(chunk_start(chunk));
    let end = start + bits64(chunk.total_compressed_size);
    if chunk.codec@ == "UNCOMPRESSED"@ && end <= file.len() {
        if let Ok(ws) = walk(file.subrange(start, end), start as u64, 0) {
            lemma_pages_values_where_defined(file, ws, leaf, 0, Seq::empty(), Seq::empty());
        }
    }
}

} // verus!
