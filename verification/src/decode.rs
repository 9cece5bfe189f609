//! The record a decoder keeps of how it read a page's values.
//!
//! Every encoding turns bytes into values differently, but a reader wants the same thing from
//! each: the values, which bytes produced each one, and the steps in between.

use vstd::prelude::*;

use crate::bytes::{bytes_error_text, Span};
use crate::delta::{
    byte_array, byte_arrays, byte_arrays_readable, byte_stream_split, delta_outcome, binary_packed,
    length_arrays, length_byte_array, split_spans, split_value, DeltaOutcome,
};
use crate::metadata::PhysicalType;
use crate::plain::{
    copy_value, decode as plain_decode, fixed_len, lemma_no_floats, plain_values, plain_views,
};
use crate::rle::{self, run_views, RunKind, RunView};
use crate::encoding::{hex, hex_text};
use crate::bytes::{le_u32_value, le_u64_value};
use crate::logical::{le_i32_value, le_i64_value};
use crate::text::{
    dec, hex_byte, ints_text, push_char, str_eq, push_hex_byte, push_i64, push_i64_list, push_u64, signed_dec,
    utf8_str,
};
use vstd::utf8::{decode_utf8, valid_utf8};
use crate::plain::{plain_view, PlainValue, PlainValueV};

verus! {

/// One step of a decode: a labelled range of bytes and what the decoder read from it.
#[derive(Clone, Debug, PartialEq)]
pub struct Step {
    pub label: String,
    pub span: Span,
    pub detail: String,
}

/// A step as a value.
pub struct StepV {
    pub label: Seq<char>,
    pub span: Span,
    pub detail: Seq<char>,
}

impl View for Step {
    type V = StepV;

    open spec fn view(&self) -> StepV {
        StepV { label: self.label@, span: self.span, detail: self.detail@ }
    }
}

/// A list of steps as values.
pub open spec fn steps_view(steps: Seq<Step>) -> Seq<StepV> {
    steps.map_values(|s: Step| s@)
}

impl Step {
    pub fn new(label: &str, span: Span, detail: String) -> (s: Step)
        ensures
            s@ == (StepV { label: label@, span, detail: detail@ }),
    {
        Step { label: label.to_owned(), span, detail }
    }
}


/// One decoded value, and the bytes it came from.
#[derive(Clone, Debug, PartialEq)]
pub struct DecodedValue {
    pub value: PlainValue,
    /// The bytes that hold the value itself: its PLAIN bytes, its dictionary entry, its suffix.
    pub span: Span,
    /// Other bytes it needed: an index run, a length, a prefix length, scattered stream bytes.
    pub extra: Vec<Span>,
}

/// A decoded value as a mathematical value.
pub struct DecodedValueV {
    pub value: PlainValueV,
    pub span: Span,
    pub extra: Seq<Span>,
}

pub open spec fn decoded_value_view(d: DecodedValue) -> DecodedValueV {
    DecodedValueV { value: plain_view(d.value), span: d.span, extra: d.extra@ }
}

pub open spec fn decoded_values_view(ds: Seq<DecodedValue>) -> Seq<DecodedValueV> {
    ds.map_values(|d: DecodedValue| decoded_value_view(d))
}

/// A page's values, the steps that read them, and the first byte after them.
#[derive(Clone, Debug, PartialEq)]
pub struct Decoded {
    pub values: Vec<DecodedValue>,
    pub steps: Vec<Step>,
    /// The first byte after the encoded values.
    pub end: u64,
}

/// Steps with a prefix put in front of each label.
pub open spec fn relabeled(prefix: Seq<char>, steps: Seq<StepV>) -> Seq<StepV> {
    steps.map_values(|s: StepV| StepV { label: prefix + s.label, span: s.span, detail: s.detail })
}

/// Put `prefix` in front of the label of every step.
pub fn relabel(prefix: &str, steps: &Vec<Step>) -> (out: Vec<Step>)
    ensures
        steps_view(out@) == relabeled(prefix@, steps_view(steps@)),
{
    let mut out: Vec<Step> = Vec::new();
    let mut i: usize = 0;
    while i < steps.len()
        invariant
            i <= steps@.len(),
            steps_view(out@) == relabeled(prefix@, steps_view(steps@)).take(i as int),
        decreases steps@.len() - i,
    {
        let mut label = prefix.to_owned();
        label.append(steps[i].label.as_str());
        let detail = steps[i].detail.clone();
        assert(label@ == prefix@ + steps@[i as int].label@);
        assert(detail@ == steps@[i as int].detail@);
        let s = Step { label, span: steps[i].span, detail };
        let ghost o = steps_view(out@);
        out.push(s);
        assert(steps_view(out@) =~= o.push(s@));
        assert(relabeled(prefix@, steps_view(steps@))[i as int] == s@);
        assert(steps_view(out@) =~= relabeled(prefix@, steps_view(steps@)).take(i + 1));
        i = i + 1;
    }
    assert(relabeled(prefix@, steps_view(steps@)).take(i as int) =~= relabeled(
        prefix@,
        steps_view(steps@),
    ));
    out
}


/// How JSON writes one character of a string.
pub open spec fn json_char(c: char) -> Seq<char> {
    if c == '"' {
        seq!['\\', '"']
    } else if c == '\\' {
        seq!['\\', '\\']
    } else if c == '\n' {
        seq!['\\', 'n']
    } else if c == '\r' {
        seq!['\\', 'r']
    } else if c == '\t' {
        seq!['\\', 't']
    } else if (c as u32) < 0x20 {
        seq!['\\', 'u', '0', '0'] + hex_byte(c as u8)
    } else {
        seq![c]
    }
}

/// The characters of a string, escaped as JSON escapes them.
pub open spec fn json_chars(s: Seq<char>) -> Seq<char>
    decreases s.len(),
{
    if s.len() == 0 {
        Seq::empty()
    } else {
        json_chars(s.drop_last()) + json_char(s.last())
    }
}

/// A string as JSON writes it.
pub open spec fn json_string(s: Seq<char>) -> Seq<char> {
    seq!['"'] + json_chars(s) + seq!['"']
}

/// The largest integer a JSON reader holds exactly; larger ones are written as strings.
pub open spec fn max_safe() -> int {
    0x1f_ffff_ffff_ffff
}

/// A value that is not a float, as JSON: a boolean, a number (a string when too large to be
/// read back exactly), or bytes as text when they are UTF-8 and as hex when they are not.
pub open spec fn value_json_text(v: PlainValueV) -> Seq<char> {
    match v {
        PlainValueV::Bool(b) => if b {
            "true"@
        } else {
            "false"@
        },
        PlainValueV::Int(i) => if i > max_safe() || i < -max_safe() {
            seq!['"'] + signed_dec(i as int) + seq!['"']
        } else {
            signed_dec(i as int)
        },
        PlainValueV::Bytes(b) => if valid_utf8(b) {
            json_string(decode_utf8(b))
        } else {
            json_string(hex_text(b))
        },
        _ => Seq::empty(),
    }
}

/// Append a string as JSON writes it.
fn push_json_string(out: &mut String, s: &str)
    ensures
        final(out)@ == old(out)@ + json_string(s@),
{
    push_char(out, '"');
    let n = s.unicode_len();
    let mut i: usize = 0;
    while i < n
        invariant
            n == s@.len(),
            i <= n,
            out@ == old(out)@ + seq!['"'] + json_chars(s@.take(i as int)),
        decreases n - i,
    {
        let c = s.get_char(i);
        let ghost before = out@;
        if c == '"' {
            push_char(out, '\\');
            push_char(out, '"');
        } else if c == '\\' {
            push_char(out, '\\');
            push_char(out, '\\');
        } else if c == '\n' {
            push_char(out, '\\');
            push_char(out, 'n');
        } else if c == '\r' {
            push_char(out, '\\');
            push_char(out, 'r');
        } else if c == '\t' {
            push_char(out, '\\');
            push_char(out, 't');
        } else if (c as u32) < 0x20 {
            push_char(out, '\\');
            push_char(out, 'u');
            push_char(out, '0');
            push_char(out, '0');
            push_hex_byte(out, c as u8);
        } else {
            push_char(out, c);
        }
        proof {
            assert(s@.take(i + 1).drop_last() =~= s@.take(i as int));
            assert(s@.take(i + 1).last() == c);
            assert(out@ =~= before + json_char(c));
        }
        i = i + 1;
    }
    assert(s@.take(n as int) =~= s@);
    push_char(out, '"');
    assert(out@ =~= old(out)@ + json_string(s@));
}

/// A value that is not a float, as JSON.
fn value_json(v: &PlainValue) -> (s: String)
    requires
        !(*v is Float32),
        !(*v is Float64),
    ensures
        s@ == value_json_text(plain_view(*v)),
{
    let mut s = String::new();
    match v {
        PlainValue::Bool(b) => {
            if *b {
                s.append("true");
            } else {
                s.append("false");
            }
        },
        PlainValue::Int(i) => {
            if *i > 0x1f_ffff_ffff_ffff || *i < -0x1f_ffff_ffff_ffff {
                push_char(&mut s, '"');
                push_i64(&mut s, *i);
                push_char(&mut s, '"');
            } else {
                push_i64(&mut s, *i);
            }
        },
        PlainValue::Bytes(b) => match utf8_str(b.as_slice()) {
            Ok(t) => push_json_string(&mut s, t),
            Err(_) => {
                let h = hex(b.as_slice());
                push_json_string(&mut s, h.as_str());
            },
        },
        _ => {},
    }
    assert(s@ =~= value_json_text(plain_view(*v)));
    s
}


/// A decoded dictionary page: its values, each with the bytes it came from.
pub type Dictionary = Vec<(PlainValue, Span)>;

/// An error at a file offset.
pub open spec fn at_offset(offset: u64, what: Seq<char>) -> Seq<char> {
    "offset "@ + dec(offset as nat) + ": "@ + what
}

/// What a decode gives, as values: the values, the steps, and the first byte after them.
pub type DecodedV = (Seq<DecodedValueV>, Seq<StepV>, u64);

pub open spec fn decoded_of(d: Decoded) -> DecodedV {
    (decoded_values_view(d.values@), steps_view(d.steps@), d.end)
}

/// PLAIN values as a decode: each value alone, one step per value showing it as JSON.
pub open spec fn plain_decoded(vs: Seq<(PlainValueV, Span)>, base: u64) -> DecodedV {
    (
        Seq::new(
            vs.len(),
            |i: int| DecodedValueV { value: vs[i].0, span: vs[i].1, extra: Seq::empty() },
        ),
        Seq::new(
            vs.len(),
            |i: int|
                StepV {
                    label: "value "@ + dec(i as nat),
                    span: vs[i].1,
                    detail: value_json_text(vs[i].0),
                },
        ),
        if vs.len() == 0 {
            base
        } else {
            vs.last().1.end
        },
    )
}

/// The values of one run of dictionary indices, or the first index past the dictionary.
pub open spec fn indexed(dict: Seq<(PlainValueV, Span)>, run: RunView, n: nat) -> Result<
    Seq<DecodedValueV>,
    Seq<char>,
>
    decreases n,
{
    if n == 0 {
        Ok(Seq::empty())
    } else {
        match indexed(dict, run, (n - 1) as nat) {
            Err(e) => Err(e),
            Ok(vs) => {
                let i = run.values[n - 1];
                if i >= dict.len() {
                    Err(
                        at_offset(
                            run.body.start,
                            "index "@ + dec(i as nat) + " is past the dictionary's "@ + dec(
                                dict.len(),
                            ) + " entries"@,
                        ),
                    )
                } else {
                    Ok(
                        vs.push(
                            DecodedValueV {
                                value: dict[i as int].0,
                                span: dict[i as int].1,
                                extra: seq![run.body],
                            },
                        ),
                    )
                }
            },
        }
    }
}

/// The values of runs of dictionary indices, in order, or the first index past the dictionary.
pub open spec fn runs_indexed(dict: Seq<(PlainValueV, Span)>, runs: Seq<RunView>) -> Result<
    Seq<DecodedValueV>,
    Seq<char>,
>
    decreases runs.len(),
{
    if runs.len() == 0 {
        Ok(Seq::empty())
    } else {
        match runs_indexed(dict, runs.drop_last()) {
            Err(e) => Err(e),
            Ok(vs) => match indexed(dict, runs.last(), runs.last().values.len()) {
                Err(e) => Err(e),
                Ok(ws) => Ok(vs + ws),
            },
        }
    }
}

pub open spec fn kind_name(k: RunKind) -> Seq<char> {
    match k {
        RunKind::Rle => "RLE"@,
        RunKind::BitPacked => "bit-packed"@,
    }
}

/// The step that shows one run of indices.
pub open spec fn run_step(n: int, run: RunView) -> StepV {
    StepV {
        label: "run "@ + dec(n as nat),
        span: Span { start: run.header.start, end: run.body.end },
        detail: kind_name(run.kind) + ": indices "@ + ints_text(
            run.values.map_values(|v: u32| v as int),
        ),
    }
}

/// Dictionary indices as a decode: one byte of bit width, then the indices as runs.
pub open spec fn dictionary_decoded(
    dict: Seq<(PlainValueV, Span)>,
    bytes: Seq<u8>,
    base: u64,
    count: nat,
) -> Result<DecodedV, Seq<char>> {
    if bytes.len() == 0 {
        Err(at_offset(base, "an empty page where the index bit width should be"@))
    } else {
        let width = bytes[0];
        match rle::rle_runs(bytes.skip(1), (base + 1) as u64, width as nat, count, 0, 0) {
            Err(e) => Err(bytes_error_text(e)),
            Ok(runs) => match runs_indexed(dict, runs) {
                Err(e) => Err(e),
                Ok(values) => Ok(
                    (
                        values,
                        seq![
                            StepV {
                                label: "bit width"@,
                                span: Span { start: base, end: (base + 1) as u64 },
                                detail: dec(width as nat) + " bits per index: enough for "@ + dec(
                                    dict.len(),
                                ) + " dictionary entries"@,
                            },
                        ] + Seq::new(runs.len(), |n: int| run_step(n, runs[n])),
                        if runs.len() == 0 {
                            (base + 1) as u64
                        } else {
                            runs.last().body.end
                        },
                    ),
                ),
            },
        }
    }
}

/// DELTA_BINARY_PACKED integers as a decode; an INT32 column's deltas wrap at 32 bits.
pub open spec fn delta_decoded(physical: i64, bytes: Seq<u8>, base: u64, count: nat) -> Result<
    DecodedV,
    Seq<char>,
> {
    match delta_outcome(bytes, base) {
        DeltaOutcome::Done(ints, steps, end) => if ints.len() != count {
            Err(
                at_offset(
                    base,
                    "the header counts "@ + dec(ints.len()) + " values, the page "@ + dec(count),
                ),
            )
        } else {
            Ok(
                (
                    Seq::new(
                        ints.len(),
                        |i: int|
                            DecodedValueV {
                                value: PlainValueV::Int(
                                    if physical == 1 {
                                        (ints[i].0 as i32) as i64
                                    } else {
                                        ints[i].0
                                    },
                                ),
                                span: ints[i].1,
                                extra: Seq::empty(),
                            },
                    ),
                    steps,
                    (base + end) as u64,
                ),
            )
        },
        DeltaOutcome::Failed(e) => Err(bytes_error_text(e)),
        DeltaOutcome::Unreadable => Err(Seq::empty()),
    }
}

/// How wide BYTE_STREAM_SPLIT's values are for a physical type, where it applies.
pub open spec fn split_width(physical: i64, type_length: Option<i64>) -> Option<int> {
    if physical == 1 || physical == 4 {
        Some(4)
    } else if physical == 2 || physical == 5 {
        Some(8)
    } else if physical == 7 {
        Some(fixed_len(type_length))
    } else {
        None
    }
}

/// One BYTE_STREAM_SPLIT value's bytes as a value of the physical type.
pub open spec fn split_typed(physical: i64, raw: Seq<u8>) -> PlainValueV {
    if physical == 4 && raw.len() == 4 {
        PlainValueV::Float32(le_u32_value(raw) as u32)
    } else if physical == 5 && raw.len() == 8 {
        PlainValueV::Float64(le_u64_value(raw) as u64)
    } else if physical == 1 && raw.len() == 4 {
        PlainValueV::Int(le_i32_value(raw) as i64)
    } else if physical == 2 && raw.len() == 8 {
        PlainValueV::Int(le_i64_value(raw) as i64)
    } else {
        PlainValueV::Bytes(raw)
    }
}

/// BYTE_STREAM_SPLIT as a decode: one step per stream, and each value with the bytes of its
/// first stream and, as extra, those of the others.
pub open spec fn split_decoded(
    physical: i64,
    type_length: Option<i64>,
    bytes: Seq<u8>,
    base: u64,
    count: nat,
) -> Result<DecodedV, Seq<char>> {
    match split_width(physical, type_length) {
        None => Err(at_offset(base, "BYTE_STREAM_SPLIT on a type it does not apply to"@)),
        Some(w) => if bytes.len() < w * count {
            Err(
                bytes_error_text(
                    crate::bytes::BytesError::UnexpectedEnd {
                        offset: (base + bytes.len()) as u64,
                        wanted: (w * count - bytes.len()) as u64,
                    },
                ),
            )
        } else {
            Ok(
                (
                    Seq::new(
                        count,
                        |i: int|
                            DecodedValueV {
                                value: split_typed(physical, split_value(bytes, w as nat, count, i)),
                                span: split_spans(base, w as nat, count, i)[0],
                                extra: split_spans(base, w as nat, count, i).skip(1),
                            },
                    ),
                    Seq::new(
                        w as nat,
                        |k: int|
                            StepV {
                                label: "stream "@ + dec(k as nat),
                                span: Span {
                                    start: (base + k * count) as u64,
                                    end: (base + k * count + count) as u64,
                                },
                                detail: "byte "@ + dec(k as nat) + " of every value"@,
                            },
                    ),
                    (base + w * count) as u64,
                ),
            )
        },
    }
}

/// What decoding `count` values with an encoding gives: the decode, or why not, as a sentence.
pub open spec fn values_outcome(
    encoding: Seq<char>,
    physical: i64,
    type_length: Option<i64>,
    bytes: Seq<u8>,
    base: u64,
    count: nat,
    dictionary: Option<Seq<(PlainValueV, Span)>>,
) -> Result<DecodedV, Seq<char>> {
    if encoding == "PLAIN"@ {
        match plain_values(physical, type_length, bytes, base, count) {
            Ok(vs) => Ok(plain_decoded(vs, base)),
            Err(e) => Err(bytes_error_text(e)),
        }
    } else if encoding == "RLE_DICTIONARY"@ || encoding == "PLAIN_DICTIONARY"@ {
        match dictionary {
            None => Err(at_offset(base, "dictionary indices, but no dictionary page came first"@)),
            Some(dict) => dictionary_decoded(dict, bytes, base, count),
        }
    } else if encoding == "DELTA_BINARY_PACKED"@ {
        delta_decoded(physical, bytes, base, count)
    } else if encoding == "DELTA_LENGTH_BYTE_ARRAY"@ {
        match length_arrays(bytes, base) {
            Ok((values, steps, end)) => Ok((values, steps, (base + end) as u64)),
            Err(e) => Err(bytes_error_text(e)),
        }
    } else if encoding == "DELTA_BYTE_ARRAY"@ {
        match byte_arrays(bytes, base) {
            Ok((values, steps, end)) => Ok((values, steps, (base + end) as u64)),
            Err(e) => Err(bytes_error_text(e)),
        }
    } else if encoding == "BYTE_STREAM_SPLIT"@ {
        split_decoded(physical, type_length, bytes, base, count)
    } else {
        Err(at_offset(base, "the "@ + encoding + " encoding is not implemented by this reader"@))
    }
}

pub open spec fn dictionary_view(d: Option<&Dictionary>) -> Option<Seq<(PlainValueV, Span)>> {
    match d {
        Some(v) => Some(crate::plain::plain_views(v@)),
        None => None,
    }
}

/// What `values` returns, as values.
pub open spec fn values_view(r: Result<Decoded, String>) -> Result<DecodedV, Seq<char>> {
    match r {
        Ok(d) => Ok(decoded_of(d)),
        Err(e) => Err(e@),
    }
}


/// PLAIN values, with a step per value that shows it as JSON.
fn plain_branch(
    physical: PhysicalType,
    type_length: Option<i64>,
    bytes: &[u8],
    base: u64,
    count: usize,
) -> (r: Result<Decoded, String>)
    requires
        base + bytes@.len() <= u64::MAX,
        physical.0 != 4,
        physical.0 != 5,
        physical.0 == 7 ==> fixed_len(type_length) <= usize::MAX,
    ensures
        values_view(r) == match plain_values(physical.0, type_length, bytes@, base, count as nat) {
            Ok(vs) => Ok::<DecodedV, Seq<char>>(plain_decoded(vs, base)),
            Err(e) => Err(bytes_error_text(e)),
        },
{
    let vs = match plain_decode(physical, type_length, bytes, base, count) {
        Ok(v) => v,
        Err(e) => {
            return Err(e.message());
        },
    };
    let ghost vv = plain_views(vs@);
    proof {
        if physical.0 != 0 {
            lemma_no_floats(physical.0, type_length, bytes@, base, 0, count as nat);
        }
    }
    let mut values: Vec<DecodedValue> = Vec::new();
    let mut steps: Vec<Step> = Vec::new();
    let mut i: usize = 0;
    while i < vs.len()
        invariant
            i <= vs@.len(),
            vv == plain_views(vs@),
            forall|t: int| 0 <= t < vv.len() ==> !(#[trigger] vv[t].0 is Float32) && !(vv[t].0 is Float64),
            decoded_values_view(values@) == plain_decoded(vv, base).0.take(i as int),
            steps_view(steps@) == plain_decoded(vv, base).1.take(i as int),
        decreases vs@.len() - i,
    {
        let (v, span) = &vs[i];
        assert(vv[i as int] == (plain_view(*v), *span));
        assert(!(vv[i as int].0 is Float32) && !(vv[i as int].0 is Float64));
        assert(!(*v is Float32) && !(*v is Float64)) by {
            match *v {
                PlainValue::Float32(_) => {},
                PlainValue::Float64(_) => {},
                _ => {},
            }
        }
        let json = value_json(v);
        let mut label = "value ".to_owned();
        push_u64(&mut label, i as u64);
        let ghost s0 = steps_view(steps@);
        let ghost v0 = decoded_values_view(values@);
        steps.push(Step { label, span: *span, detail: json });
        values.push(DecodedValue { value: copy_value(v), span: *span, extra: Vec::new() });
        proof {
            assert(steps_view(steps@) =~= s0.push(steps@.last()@));
            assert(decoded_values_view(values@) =~= v0.push(decoded_value_view(values@.last())));
            assert(decoded_value_view(values@.last()).extra =~= Seq::<Span>::empty());
            assert(plain_decoded(vv, base).0.take(i + 1) =~= plain_decoded(vv, base).0.take(
                i as int,
            ).push(plain_decoded(vv, base).0[i as int]));
            assert(plain_decoded(vv, base).1.take(i + 1) =~= plain_decoded(vv, base).1.take(
                i as int,
            ).push(plain_decoded(vv, base).1[i as int]));
        }
        i = i + 1;
    }
    assert(plain_decoded(vv, base).0.take(i as int) =~= plain_decoded(vv, base).0);
    assert(plain_decoded(vv, base).1.take(i as int) =~= plain_decoded(vv, base).1);
    let end = if vs.len() == 0 {
        base
    } else {
        vs[vs.len() - 1].1.end
    };
    Ok(Decoded { values, steps, end })
}


proof fn lemma_indexed_err(dict: Seq<(PlainValueV, Span)>, run: RunView, m: nat, n: nat)
    requires
        m <= n,
        indexed(dict, run, m) is Err,
    ensures
        indexed(dict, run, n) == indexed(dict, run, m),
    decreases n,
{
    if m < n {
        lemma_indexed_err(dict, run, m, (n - 1) as nat);
    }
}

proof fn lemma_runs_indexed_err(dict: Seq<(PlainValueV, Span)>, runs: Seq<RunView>, m: int)
    requires
        0 <= m <= runs.len(),
        runs_indexed(dict, runs.take(m)) is Err,
    ensures
        runs_indexed(dict, runs) == runs_indexed(dict, runs.take(m)),
    decreases runs.len() - m,
{
    if m < runs.len() {
        assert(runs.take(m + 1).drop_last() =~= runs.take(m));
        lemma_runs_indexed_err(dict, runs, m + 1);
    } else {
        assert(runs.take(m) =~= runs);
    }
}

/// Dictionary indices: a byte of bit width, then the indices as runs, each replaced by its
/// dictionary entry.
fn dictionary_branch(dict: &Dictionary, bytes: &[u8], base: u64, count: usize) -> (r: Result<
    Decoded,
    String,
>)
    requires
        base + bytes@.len() <= u64::MAX,
        count > 0 && bytes@.len() > 0 ==> bytes@[0] <= 32,
    ensures
        values_view(r) == dictionary_decoded(plain_views(dict@), bytes@, base, count as nat),
{
    let ghost dv = plain_views(dict@);
    if bytes.len() == 0 {
        let mut s = "offset ".to_owned();
        push_u64(&mut s, base);
        s.append(": ");
        s.append("an empty page where the index bit width should be");
        return Err(s);
    }
    let width = bytes[0];
    let rest = vstd::slice::slice_subrange(bytes, 1, bytes.len());
    assert(rest@ =~= bytes@.skip(1));
    let runs: Vec<rle::Run> = if count == 0 {
        Vec::new()
    } else {
        match rle::decode(rest, base + 1, width as u32, count) {
            Ok(r) => r,
            Err(e) => {
                return Err(e.message());
            },
        }
    };
    let ghost rv = run_views(runs@);
    proof {
        if count == 0 {
            assert(rv =~= Seq::<RunView>::empty());
        }
    }
    assert(rle::rle_runs(bytes@.skip(1), (base + 1) as u64, width as nat, count as nat, 0, 0)
        == Ok::<Seq<RunView>, crate::bytes::BytesError>(rv));
    let mut detail = String::new();
    push_u64(&mut detail, width as u64);
    detail.append(" bits per index: enough for ");
    push_u64(&mut detail, dict.len() as u64);
    detail.append(" dictionary entries");
    let mut steps: Vec<Step> = Vec::new();
    steps.push(Step::new("bit width", Span::new(base, base + 1), detail));
    let mut values: Vec<DecodedValue> = Vec::new();
    let ghost first = steps_view(steps@);
    let ghost width_step = StepV {
        label: "bit width"@,
        span: Span { start: base, end: (base + 1) as u64 },
        detail: dec(width as nat) + " bits per index: enough for "@ + dec(dv.len())
            + " dictionary entries"@,
    };
    assert(first =~= seq![width_step]);
    let ghost ok_runs = rle::rle_runs(bytes@.skip(1), (base + 1) as u64, width as nat, count as nat, 0, 0);
    let mut n: usize = 0;
    assert(runs_indexed(dv, rv.take(0)) == Ok::<Seq<DecodedValueV>, Seq<char>>(Seq::empty()));
    assert(decoded_values_view(values@) =~= Seq::<DecodedValueV>::empty());
    assert(steps_view(steps@) =~= first + Seq::new(0, |k: int| run_step(k, rv[k])));
    while n < runs.len()
        invariant
            n <= rv.len(),
            rv == run_views(runs@),
            dv == plain_views(dict@),
            first == seq![width_step],
            ok_runs == Ok::<Seq<RunView>, crate::bytes::BytesError>(rv),
            ok_runs == rle::rle_runs(bytes@.skip(1), (base + 1) as u64, width as nat, count as nat, 0, 0),
            bytes@.len() > 0,
            width == bytes@[0],
            width_step == (StepV {
                label: "bit width"@,
                span: Span { start: base, end: (base + 1) as u64 },
                detail: dec(width as nat) + " bits per index: enough for "@ + dec(dv.len())
                    + " dictionary entries"@,
            }),
            steps_view(steps@) == first + Seq::new(n as nat, |k: int| run_step(k, rv[k])),
            runs_indexed(dv, rv.take(n as int)) == Ok::<Seq<DecodedValueV>, Seq<char>>(
                decoded_values_view(values@),
            ),
        decreases rv.len() - n,
    {
        let run = &runs[n];
        assert(rv[n as int] == run@);
        let mut label = "run ".to_owned();
        push_u64(&mut label, n as u64);
        let mut d = run.kind.name().to_owned();
        d.append(": indices ");
        let mut ints: Vec<i64> = Vec::new();
        let mut j: usize = 0;
        while j < run.values.len()
            invariant
                j <= run.values@.len(),
                ints@.len() == j,
                forall|t: int| 0 <= t < j ==> #[trigger] ints@[t] == run.values@[t] as i64,
            decreases run.values@.len() - j,
        {
            ints.push(run.values[j] as i64);
            j = j + 1;
        }
        assert(ints@.map_values(|x: i64| x as int) =~= run.values@.map_values(|v: u32| v as int));
        push_i64_list(&mut d, ints.as_slice());
        let ghost s0 = steps_view(steps@);
        steps.push(
            Step::new(label.as_str(), Span { start: run.header.start, end: run.body.end }, d),
        );
        proof {
            assert(steps_view(steps@) =~= s0.push(run_step(n as int, rv[n as int])));
            assert(first + Seq::new((n + 1) as nat, |k: int| run_step(k, rv[k])) =~= (first
                + Seq::new(n as nat, |k: int| run_step(k, rv[k]))).push(
                run_step(n as int, rv[n as int]),
            ));
        }
        let ghost before = decoded_values_view(values@);
        let mut j: usize = 0;
        assert(indexed(dv, run@, 0) == Ok::<Seq<DecodedValueV>, Seq<char>>(Seq::empty()));
        assert(before + Seq::<DecodedValueV>::empty() =~= before);
        while j < run.values.len()
            invariant
                j <= run.values@.len(),
                dv == plain_views(dict@),
                n < rv.len(),
                rv == run_views(runs@),
                rv[n as int] == run@,
                ok_runs == Ok::<Seq<RunView>, crate::bytes::BytesError>(rv),
                ok_runs == rle::rle_runs(bytes@.skip(1), (base + 1) as u64, width as nat, count as nat, 0, 0),
                bytes@.len() > 0,
                width == bytes@[0],
                runs_indexed(dv, rv.take(n as int)) == Ok::<Seq<DecodedValueV>, Seq<char>>(before),
                indexed(dv, run@, j as nat) matches Ok(ws) && decoded_values_view(values@)
                    == before + ws,
            decreases run.values@.len() - j,
        {
            let i = run.values[j];
            if i as usize >= dict.len() {
                let mut s = "offset ".to_owned();
                push_u64(&mut s, run.body.start);
                s.append(": ");
                s.append("index ");
                push_u64(&mut s, i as u64);
                s.append(" is past the dictionary's ");
                push_u64(&mut s, dict.len() as u64);
                s.append(" entries");
                proof {
                    assert(indexed(dv, run@, (j + 1) as nat) == Err::<Seq<DecodedValueV>, Seq<char>>(
                        at_offset(
                            run.body.start,
                            "index "@ + dec(i as nat) + " is past the dictionary's "@ + dec(dv.len())
                                + " entries"@,
                        ),
                    ));
                    lemma_indexed_err(dv, run@, (j + 1) as nat, run.values@.len());
                    assert(runs_indexed(dv, rv.take(n + 1)) == indexed(dv, run@, (j + 1) as nat)) by {
                        assert(rv.take(n + 1).drop_last() =~= rv.take(n as int));
                        assert(rv.take(n + 1).last() == run@);
                    }
                    lemma_runs_indexed_err(dv, rv, n + 1);
                    assert(s@ =~= at_offset(
                        run.body.start,
                        "index "@ + dec(i as nat) + " is past the dictionary's "@ + dec(dv.len())
                            + " entries"@,
                    ));
                }
                return Err(s);
            }
            let (v, span) = &dict[i as usize];
            assert(dv[i as int] == (plain_view(*v), *span));
            let mut extra: Vec<Span> = Vec::new();
            extra.push(run.body);
            let ghost v0 = decoded_values_view(values@);
            values.push(DecodedValue { value: copy_value(v), span: *span, extra });
            proof {
                assert(decoded_value_view(values@.last()).extra =~= seq![run.body]);
                assert(decoded_values_view(values@) =~= v0.push(decoded_value_view(values@.last())));
                let ws = indexed(dv, run@, j as nat)->Ok_0;
                assert(before + ws.push(decoded_value_view(values@.last())) =~= (before + ws).push(
                    decoded_value_view(values@.last()),
                ));
            }
            j = j + 1;
        }
        proof {
            assert(rv.take(n + 1).drop_last() =~= rv.take(n as int));
            assert(rv.take(n + 1).last() == run@);
        }
        n = n + 1;
    }
    proof {
        assert(rv.take(n as int) =~= rv);
    }
    let end = if runs.len() == 0 {
        base + 1
    } else {
        runs[runs.len() - 1].body.end
    };
    proof {
        if runs@.len() > 0 {
            assert(rv.last() == runs@.last()@);
        }
    }
    Ok(Decoded { values, steps, end })
}


/// DELTA_BINARY_PACKED integers, which must be as many as the page says.
fn delta_branch(physical: PhysicalType, bytes: &[u8], base: u64, count: usize) -> (r: Result<
    Decoded,
    String,
>)
    requires
        base + bytes@.len() <= u64::MAX,
        !(delta_outcome(bytes@, base) is Unreadable),
    ensures
        values_view(r) == delta_decoded(physical.0, bytes@, base, count as nat),
{
    let ints = match binary_packed(bytes, base) {
        Ok(x) => x,
        Err(e) => {
            return Err(e.message());
        },
    };
    if ints.values.len() != count {
        let mut s = "offset ".to_owned();
        push_u64(&mut s, base);
        s.append(": ");
        s.append("the header counts ");
        push_u64(&mut s, ints.values.len() as u64);
        s.append(" values, the page ");
        push_u64(&mut s, count as u64);
        assert(s@ =~= at_offset(
            base,
            "the header counts "@ + dec(ints.values@.len()) + " values, the page "@ + dec(
                count as nat,
            ),
        ));
        return Err(s);
    }
    let ghost target = delta_decoded(physical.0, bytes@, base, count as nat)->Ok_0.0;
    let mut values: Vec<DecodedValue> = Vec::new();
    let mut i: usize = 0;
    while i < ints.values.len()
        invariant
            i <= ints.values@.len(),
            target.len() == ints.values@.len(),
            forall|t: int|
                0 <= t < target.len() ==> #[trigger] target[t] == (DecodedValueV {
                    value: PlainValueV::Int(
                        if physical.0 == 1 {
                            (ints.values@[t].0 as i32) as i64
                        } else {
                            ints.values@[t].0
                        },
                    ),
                    span: ints.values@[t].1,
                    extra: Seq::empty(),
                }),
            decoded_values_view(values@) == target.take(i as int),
        decreases ints.values@.len() - i,
    {
        let (v, span) = ints.values[i];
        let value = if physical.0 == 1 {
            (v as i32) as i64
        } else {
            v
        };
        let ghost v0 = decoded_values_view(values@);
        values.push(DecodedValue { value: PlainValue::Int(value), span, extra: Vec::new() });
        proof {
            assert(decoded_value_view(values@.last()).extra =~= Seq::<Span>::empty());
            assert(decoded_values_view(values@) =~= v0.push(decoded_value_view(values@.last())));
            assert(target.take(i + 1) =~= target.take(i as int).push(target[i as int]));
        }
        i = i + 1;
    }
    assert(target.take(i as int) =~= target);
    Ok(Decoded { values, steps: ints.steps, end: ints.end })
}

/// The `le` value of one split value's bytes as a value of the physical type.
fn split_value_typed(physical: PhysicalType, raw: Vec<u8>) -> (v: PlainValue)
    ensures
        plain_view(v) == split_typed(physical.0, raw@),
{
    let p = physical.0;
    let n = raw.len();
    if p == 4 && n == 4 {
        assert(raw@.subrange(0, 4) =~= raw@);
        PlainValue::Float32(crate::logical::le_u32_at(raw.as_slice(), 0))
    } else if p == 5 && n == 8 {
        assert(raw@.subrange(0, 8) =~= raw@);
        PlainValue::Float64(crate::logical::le_u64_at(raw.as_slice(), 0))
    } else if p == 1 && n == 4 {
        assert(raw@.subrange(0, 4) =~= raw@);
        PlainValue::Int(crate::logical::le_i32_at(raw.as_slice(), 0) as i64)
    } else if p == 2 && n == 8 {
        assert(raw@.subrange(0, 8) =~= raw@);
        PlainValue::Int(crate::logical::le_i64_at(raw.as_slice(), 0))
    } else {
        PlainValue::Bytes(raw)
    }
}


/// BYTE_STREAM_SPLIT: one step per stream, and each value put back together from its bytes.
fn split_branch(
    physical: PhysicalType,
    type_length: Option<i64>,
    bytes: &[u8],
    base: u64,
    count: usize,
) -> (r: Result<Decoded, String>)
    requires
        base + bytes@.len() <= u64::MAX,
        split_width(physical.0, type_length) matches Some(w) ==> w * count <= usize::MAX && (count
            > 0 ==> w > 0) && w <= usize::MAX,
    ensures
        values_view(r) == split_decoded(physical.0, type_length, bytes@, base, count as nat),
{
    let p = physical.0;
    let width: usize = if p == 1 || p == 4 {
        4
    } else if p == 2 || p == 5 {
        8
    } else if p == 7 {
        match type_length {
            Some(t) => if t > 0 {
                t as usize
            } else {
                0
            },
            None => 0,
        }
    } else {
        let mut s = "offset ".to_owned();
        push_u64(&mut s, base);
        s.append(": ");
        s.append("BYTE_STREAM_SPLIT on a type it does not apply to");
        return Err(s);
    };
    assert(split_width(p, type_length) == Some(width as int));
    let split = match byte_stream_split(bytes, base, width, count) {
        Ok(v) => v,
        Err(e) => {
            return Err(e.message());
        },
    };
    let ghost target = split_decoded(p, type_length, bytes@, base, count as nat)->Ok_0;
    let mut steps: Vec<Step> = Vec::new();
    let mut k: usize = 0;
    while k < width
        invariant
            k <= width,
            width * count <= usize::MAX,
            base + bytes@.len() <= u64::MAX,
            bytes@.len() >= width * count,
            target.1.len() == width,
            forall|t: int|
                0 <= t < width ==> #[trigger] target.1[t] == (StepV {
                    label: "stream "@ + dec(t as nat),
                    span: Span {
                        start: (base + t * count) as u64,
                        end: (base + t * count + count) as u64,
                    },
                    detail: "byte "@ + dec(t as nat) + " of every value"@,
                }),
            steps_view(steps@) == target.1.take(k as int),
        decreases width - k,
    {
        assert((k + 1) * count <= width * count) by (nonlinear_arith)
            requires
                k < width,
        ;
        assert((k + 1) * count == k * count + count) by (nonlinear_arith);
        let at = base + (k * count) as u64;
        let mut label = "stream ".to_owned();
        push_u64(&mut label, k as u64);
        let mut detail = "byte ".to_owned();
        push_u64(&mut detail, k as u64);
        detail.append(" of every value");
        let ghost s0 = steps_view(steps@);
        steps.push(Step::new(label.as_str(), Span::new(at, at + count as u64), detail));
        proof {
            assert(steps_view(steps@) =~= s0.push(steps@.last()@));
            assert(target.1.take(k + 1) =~= target.1.take(k as int).push(target.1[k as int]));
        }
        k = k + 1;
    }
    assert(target.1.take(k as int) =~= target.1);
    let mut values: Vec<DecodedValue> = Vec::new();
    let mut i: usize = 0;
    while i < count
        invariant
            i <= count,
            p == physical.0,
            split@.len() == count,
            count > 0 ==> width > 0,
            forall|t: int|
                0 <= t < count ==> (#[trigger] split@[t]).0@ == split_value(
                    bytes@,
                    width as nat,
                    count as nat,
                    t,
                ) && split@[t].1@ == split_spans(base, width as nat, count as nat, t),
            target.0.len() == count,
            forall|t: int|
                0 <= t < count ==> #[trigger] target.0[t] == (DecodedValueV {
                    value: split_typed(p, split_value(bytes@, width as nat, count as nat, t)),
                    span: split_spans(base, width as nat, count as nat, t)[0],
                    extra: split_spans(base, width as nat, count as nat, t).skip(1),
                }),
            decoded_values_view(values@) == target.0.take(i as int),
        decreases count - i,
    {
        let (raw, spans) = &split[i];
        assert(split@[i as int].1@ == split_spans(base, width as nat, count as nat, i as int));
        let copy = vstd::slice::slice_to_vec(raw.as_slice());
        assert(copy@ == raw@);
        let value = split_value_typed(physical, copy);
        let span = spans[0];
        let extra = vstd::slice::slice_to_vec(vstd::slice::slice_subrange(spans.as_slice(), 1, spans.len()));
        let ghost v0 = decoded_values_view(values@);
        values.push(DecodedValue { value, span, extra });
        proof {
            let sv = split_value(bytes@, width as nat, count as nat, i as int);
            let ss = split_spans(base, width as nat, count as nat, i as int);
            assert(raw@ == sv);
            assert(spans@ == ss);
            assert(span == ss[0]);
            assert(target.0[i as int] == (DecodedValueV {
                value: split_typed(p, sv),
                span: ss[0],
                extra: ss.skip(1),
            }));
            assert(decoded_value_view(values@.last()).value == split_typed(p, sv));
            assert(decoded_value_view(values@.last()).extra =~= split_spans(
                base,
                width as nat,
                count as nat,
                i as int,
            ).skip(1));
            assert(decoded_values_view(values@) =~= v0.push(decoded_value_view(values@.last())));
            assert(target.0.take(i + 1) =~= target.0.take(i as int).push(target.0[i as int]));
        }
        i = i + 1;
    }
    assert(target.0.take(i as int) =~= target.0);
    Ok(Decoded { values, steps, end: base + (width * count) as u64 })
}


/// Decode `count` values of a column's physical type, encoded with `encoding`.
///
/// A `FLOAT` or `DOUBLE` page in PLAIN is shown as numbers, which is float work this function
/// leaves to its caller; `plain::decode` reads such a page's values as bits.
#[verifier::rlimit(50)]
#[verifier::spinoff_prover]
pub fn values(
    encoding: &str,
    physical: PhysicalType,
    type_length: Option<i64>,
    bytes: &[u8],
    base: u64,
    count: usize,
    dictionary: Option<&Dictionary>,
) -> (r: Result<Decoded, String>)
    requires
        base + bytes@.len() <= u64::MAX,
        encoding@ == "PLAIN"@ ==> physical.0 != 4 && physical.0 != 5 && (physical.0 == 7
            ==> fixed_len(type_length) <= usize::MAX),
        encoding@ == "RLE_DICTIONARY"@ || encoding@ == "PLAIN_DICTIONARY"@ ==> (count > 0
            && bytes@.len() > 0 ==> bytes@[0] <= 32),
        encoding@ == "DELTA_BINARY_PACKED"@ || encoding@ == "DELTA_LENGTH_BYTE_ARRAY"@ ==> !(
        delta_outcome(bytes@, base) is Unreadable),
        encoding@ == "DELTA_BYTE_ARRAY"@ ==> byte_arrays_readable(bytes@, base),
        encoding@ == "BYTE_STREAM_SPLIT"@ ==> (split_width(physical.0, type_length) matches Some(w)
            ==> w * count <= usize::MAX && (count > 0 ==> w > 0) && w <= usize::MAX),
    ensures
        values_view(r) == values_outcome(
            encoding@,
            physical.0,
            type_length,
            bytes@,
            base,
            count as nat,
            dictionary_view(dictionary),
        ),
{
    if str_eq(encoding, "PLAIN") {
        plain_branch(physical, type_length, bytes, base, count)
    } else if str_eq(encoding, "RLE_DICTIONARY") || str_eq(encoding, "PLAIN_DICTIONARY") {
        match dictionary {
            Some(dict) => dictionary_branch(dict, bytes, base, count),
            None => {
                let mut s = "offset ".to_owned();
                push_u64(&mut s, base);
                s.append(": ");
                s.append("dictionary indices, but no dictionary page came first");
                Err(s)
            },
        }
    } else if str_eq(encoding, "DELTA_BINARY_PACKED") {
        delta_branch(physical, bytes, base, count)
    } else if str_eq(encoding, "DELTA_LENGTH_BYTE_ARRAY") {
        match length_byte_array(bytes, base) {
            Ok(d) => Ok(d),
            Err(e) => Err(e.message()),
        }
    } else if str_eq(encoding, "DELTA_BYTE_ARRAY") {
        match byte_array(bytes, base) {
            Ok(d) => Ok(d),
            Err(e) => Err(e.message()),
        }
    } else if str_eq(encoding, "BYTE_STREAM_SPLIT") {
        split_branch(physical, type_length, bytes, base, count)
    } else {
        let mut s = "offset ".to_owned();
        push_u64(&mut s, base);
        s.append(": ");
        s.append("the ");
        s.append(encoding);
        s.append(" encoding is not implemented by this reader");
        assert(s@ =~= at_offset(base, "the "@ + encoding@ + " encoding is not implemented by this reader"@));
        Err(s)
    }
}

} // verus!
