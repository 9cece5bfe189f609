//! PLAIN encoding: values written back to back.
//!
//! The simplest encoding, and the one every other encoding falls back to:
//!
//! - fixed-width numbers (`INT32`, `INT64`, `FLOAT`, `DOUBLE`) are little-endian, in full;
//! - `FIXED_LEN_BYTE_ARRAY` values are their bytes, each the length the schema declares;
//! - `BYTE_ARRAY` values are a four-byte little-endian length, then the bytes;
//! - `BOOLEAN` values are bit-packed, one bit each, least significant bit first.
//!
//! Only non-null values are stored. A null has a definition level and nothing here.

use vstd::prelude::*;

use crate::bytes::{le_u32_value, le_u64_value, ByteReader, BytesError, Span};
use crate::logical::{le_i32_value, le_i64_value};
use crate::layout::{le_bytes, push_le};
use crate::metadata::PhysicalType;

verus! {

/// A decoded value, before any logical type is applied. A floating-point value is kept as the
/// bits it was written as: `FLOAT`'s 32 and `DOUBLE`'s 64.
#[derive(Clone, Debug, PartialEq)]
pub enum PlainValue {
    Bool(bool),
    Int(i64),
    Float32(u32),
    Float64(u64),
    Bytes(Vec<u8>),
}

/// A decoded value as a mathematical value.
pub enum PlainValueV {
    Bool(bool),
    Int(i64),
    Float32(u32),
    Float64(u64),
    Bytes(Seq<u8>),
}

pub open spec fn plain_view(v: PlainValue) -> PlainValueV {
    match v {
        PlainValue::Bool(b) => PlainValueV::Bool(b),
        PlainValue::Int(i) => PlainValueV::Int(i),
        PlainValue::Float32(f) => PlainValueV::Float32(f),
        PlainValue::Float64(f) => PlainValueV::Float64(f),
        PlainValue::Bytes(b) => PlainValueV::Bytes(b@),
    }
}

/// A value's PLAIN bytes for a column of physical type `physical`, without the length prefix a
/// byte array has in a page: the way statistics store values.
pub open spec fn plain_bytes(v: PlainValueV, physical: i64) -> Seq<u8> {
    match v {
        PlainValueV::Bool(b) => seq![if b { 1u8 } else { 0u8 }],
        PlainValueV::Int(i) => if physical == 1 {
            le_bytes(((i as i32) as u32) as nat, 4)
        } else {
            le_bytes((i as u64) as nat, 8)
        },
        PlainValueV::Float32(f) => le_bytes(f as nat, 4),
        PlainValueV::Float64(f) => le_bytes(f as nat, 8),
        PlainValueV::Bytes(b) => b,
    }
}

impl PlainValue {
    /// The value's PLAIN bytes for a column of physical type `physical`, without the length
    /// prefix a byte array has in a page. A `FLOAT` is its 32 bits and a `DOUBLE` its 64; a
    /// float stored in a column of the other width would first be converted as a number, which
    /// is left to the caller.
    pub fn to_plain_bytes(&self, physical: PhysicalType) -> (r: Vec<u8>)
        requires
            *self is Float32 ==> physical.0 == 4,
            *self is Float64 ==> physical.0 != 4,
        ensures
            r@ == plain_bytes(plain_view(*self), physical.0),
    {
        let mut out: Vec<u8> = Vec::new();
        match self {
            PlainValue::Bool(b) => {
                out.push(if *b { 1 } else { 0 });
                assert(out@ =~= seq![if *b { 1u8 } else { 0u8 }]);
            },
            PlainValue::Int(v) => if physical.0 == 1 {
                push_le(&mut out, ((*v as i32) as u32) as u64, 4);
                assert(out@ =~= le_bytes(((*v as i32) as u32) as nat, 4));
            } else {
                push_le(&mut out, *v as u64, 8);
                assert(out@ =~= le_bytes((*v as u64) as nat, 8));
            },
            PlainValue::Float32(f) => {
                push_le(&mut out, *f as u64, 4);
                assert(out@ =~= le_bytes(*f as nat, 4));
            },
            PlainValue::Float64(f) => {
                push_le(&mut out, *f, 8);
                assert(out@ =~= le_bytes(*f as nat, 8));
            },
            PlainValue::Bytes(b) => {
                out = vstd::slice::slice_to_vec(b.as_slice());
            },
        }
        out
    }
}

/// The values and their spans, as mathematical values.
pub open spec fn plain_views(vs: Seq<(PlainValue, Span)>) -> Seq<(PlainValueV, Span)> {
    vs.map_values(|p: (PlainValue, Span)| (plain_view(p.0), p.1))
}

/// The length a `FIXED_LEN_BYTE_ARRAY` value takes: the declared length, or none.
pub open spec fn fixed_len(type_length: Option<i64>) -> int {
    match type_length {
        Some(n) => if n > 0 {
            n as int
        } else {
            0
        },
        None => 0,
    }
}

/// The bytes ran out: `wanted` were asked for at position `pos`.
pub open spec fn short(base: u64, pos: int, wanted: int) -> BytesError {
    BytesError::UnexpectedEnd { offset: (base + pos) as u64, wanted: wanted as u64 }
}

/// One value of a physical type other than `BOOLEAN` at position `pos`, and the position after
/// it.
pub open spec fn plain_one(physical: i64, type_length: Option<i64>, b: Seq<u8>, base: u64, pos: int) -> Result<
    (PlainValueV, int),
    BytesError,
> {
    let fixed = |n: int|
        if pos + n > b.len() {
            Err(short(base, pos, n))
        } else {
            Ok(b.subrange(pos, pos + n))
        };
    if physical == 1 {
        match fixed(4) {
            Ok(s) => Ok((PlainValueV::Int(le_i32_value(s) as i64), pos + 4)),
            Err(e) => Err(e),
        }
    } else if physical == 2 {
        match fixed(8) {
            Ok(s) => Ok((PlainValueV::Int(le_i64_value(s) as i64), pos + 8)),
            Err(e) => Err(e),
        }
    } else if physical == 3 {
        match fixed(12) {
            Ok(s) => Ok((PlainValueV::Bytes(s), pos + 12)),
            Err(e) => Err(e),
        }
    } else if physical == 4 {
        match fixed(4) {
            Ok(s) => Ok((PlainValueV::Float32(le_u32_value(s) as u32), pos + 4)),
            Err(e) => Err(e),
        }
    } else if physical == 5 {
        match fixed(8) {
            Ok(s) => Ok((PlainValueV::Float64(le_u64_value(s) as u64), pos + 8)),
            Err(e) => Err(e),
        }
    } else if physical == 6 {
        match fixed(4) {
            Ok(s) => {
                let n = le_u32_value(s);
                if pos + 4 + n > b.len() {
                    Err(short(base, pos + 4, n))
                } else {
                    Ok((PlainValueV::Bytes(b.subrange(pos + 4, pos + 4 + n)), pos + 4 + n))
                }
            },
            Err(e) => Err(e),
        }
    } else if physical == 7 {
        let n = fixed_len(type_length);
        match fixed(n) {
            Ok(s) => Ok((PlainValueV::Bytes(s), pos + n)),
            Err(e) => Err(e),
        }
    } else {
        Err(short(base, pos, 0))
    }
}

/// `count` values of a physical type other than `BOOLEAN` from position `pos` on, each with
/// the span it occupied, or the first that does not fit.
pub open spec fn plain_run(
    physical: i64,
    type_length: Option<i64>,
    b: Seq<u8>,
    base: u64,
    pos: int,
    count: nat,
) -> Result<Seq<(PlainValueV, Span)>, BytesError>
    decreases count,
{
    if count == 0 {
        Ok(Seq::empty())
    } else {
        match plain_one(physical, type_length, b, base, pos) {
            Err(e) => Err(e),
            Ok((v, next)) => match plain_run(physical, type_length, b, base, next, (count - 1) as nat) {
                Ok(rest) => Ok(
                    seq![(v, Span { start: (base + pos) as u64, end: (base + next) as u64 })] + rest,
                ),
                Err(e) => Err(e),
            },
        }
    }
}

/// How many bytes `count` bits take.
pub open spec fn bit_bytes(count: nat) -> nat {
    count / 8 + if count % 8 == 0 {
        0nat
    } else {
        1nat
    }
}

/// `count` PLAIN values of a physical type: bits for `BOOLEAN`, each with the byte its bit sits
/// in, and values one after another for the other types.
pub open spec fn plain_values(
    physical: i64,
    type_length: Option<i64>,
    b: Seq<u8>,
    base: u64,
    count: nat,
) -> Result<Seq<(PlainValueV, Span)>, BytesError> {
    if physical == 0 {
        if bit_bytes(count) > b.len() {
            Err(short(base, 0, bit_bytes(count) as int))
        } else {
            Ok(
                Seq::new(
                    count,
                    |i: int|
                        (
                            PlainValueV::Bool((b[i / 8] >> ((i % 8) as u8)) & 1 == 1),
                            Span { start: (base + i / 8) as u64, end: (base + i / 8 + 1) as u64 },
                        ),
                ),
            )
        }
    } else {
        plain_run(physical, type_length, b, base, 0, count)
    }
}

/// The values read so far, in front of the rest.
pub open spec fn then_values(
    prefix: Seq<(PlainValueV, Span)>,
    r: Result<Seq<(PlainValueV, Span)>, BytesError>,
) -> Result<Seq<(PlainValueV, Span)>, BytesError> {
    match r {
        Ok(rest) => Ok(prefix + rest),
        Err(e) => Err(e),
    }
}

/// Read the little-endian signed 32-bit integer at the reader's position.
fn read_i32(r: &mut ByteReader) -> (res: Result<i64, BytesError>)
    ensures
        final(r).bytes() == old(r).bytes(),
        final(r).base() == old(r).base(),
        old(r).pos() + 4 <= old(r).bytes().len() ==> res == Ok::<i64, BytesError>(
            le_i32_value(old(r).bytes().subrange(old(r).pos() as int, old(r).pos() + 4int)) as i64,
        ) && final(r).pos() == old(r).pos() + 4,
        old(r).pos() + 4 > old(r).bytes().len() ==> res == Err::<i64, BytesError>(
            short(old(r).base(), old(r).pos() as int, 4),
        ),
{
    let u = r.read_le_u32()?;
    if u >= 0x8000_0000 {
        Ok(u as i64 - 0x1_0000_0000)
    } else {
        Ok(u as i64)
    }
}

/// Read the little-endian signed 64-bit integer at the reader's position.
fn read_i64(r: &mut ByteReader) -> (res: Result<i64, BytesError>)
    ensures
        final(r).bytes() == old(r).bytes(),
        final(r).base() == old(r).base(),
        old(r).pos() + 8 <= old(r).bytes().len() ==> res == Ok::<i64, BytesError>(
            le_i64_value(old(r).bytes().subrange(old(r).pos() as int, old(r).pos() + 8int)) as i64,
        ) && final(r).pos() == old(r).pos() + 8,
        old(r).pos() + 8 > old(r).bytes().len() ==> res == Err::<i64, BytesError>(
            short(old(r).base(), old(r).pos() as int, 8),
        ),
{
    let u = r.read_le_u64()?;
    if u >= 0x8000_0000_0000_0000 {
        Ok((u - 0x8000_0000_0000_0000) as i64 + i64::MIN)
    } else {
        Ok(u as i64)
    }
}

/// One value of a physical type other than `BOOLEAN`, at the reader's position.
fn read_one(physical: PhysicalType, type_length: Option<i64>, r: &mut ByteReader) -> (res: Result<
    PlainValue,
    BytesError,
>)
    requires
        physical.0 == 7 ==> fixed_len(type_length) <= usize::MAX,
    ensures
        final(r).bytes() == old(r).bytes(),
        final(r).base() == old(r).base(),
        match plain_one(physical.0, type_length, old(r).bytes(), old(r).base(), old(r).pos() as int) {
            Ok((v, next)) => res matches Ok(x) && plain_view(x) == v && final(r).pos() == next,
            Err(e) => res == Err::<PlainValue, BytesError>(e),
        },
{
    proof {
        use_type_invariant(&*r);
        ByteReader::lemma_inv(*r);
    }
    let p = physical.0;
    if p == 1 {
        Ok(PlainValue::Int(read_i32(r)?))
    } else if p == 2 {
        Ok(PlainValue::Int(read_i64(r)?))
    } else if p == 3 {
        let (b, _) = r.read_bytes(12)?;
        Ok(PlainValue::Bytes(vstd::slice::slice_to_vec(b)))
    } else if p == 4 {
        let u = r.read_le_u32()?;
        Ok(PlainValue::Float32(u))
    } else if p == 5 {
        let u = r.read_le_u64()?;
        Ok(PlainValue::Float64(u))
    } else if p == 6 {
        let n = r.read_le_u32()?;
        let (b, _) = r.read_bytes(n as usize)?;
        Ok(PlainValue::Bytes(vstd::slice::slice_to_vec(b)))
    } else if p == 7 {
        let n: usize = match type_length {
            Some(t) => if t > 0 {
                t as usize
            } else {
                0
            },
            None => 0,
        };
        let (b, _) = r.read_bytes(n)?;
        Ok(PlainValue::Bytes(vstd::slice::slice_to_vec(b)))
    } else {
        Err(BytesError::UnexpectedEnd { offset: r.offset(), wanted: 0 })
    }
}

/// Decode `count` PLAIN values of a physical type from `bytes`, which start at `base`. Each value
/// comes back with the span it occupied.
pub fn decode(
    physical: PhysicalType,
    type_length: Option<i64>,
    bytes: &[u8],
    base: u64,
    count: usize,
) -> (r: Result<Vec<(PlainValue, Span)>, BytesError>)
    requires
        base + bytes@.len() <= u64::MAX,
        physical.0 == 7 ==> fixed_len(type_length) <= usize::MAX,
    ensures
        match plain_values(physical.0, type_length, bytes@, base, count as nat) {
            Ok(vs) => r matches Ok(out) && plain_views(out@) == vs,
            Err(e) => r == Err::<Vec<(PlainValue, Span)>, BytesError>(e),
        },
{
    let mut r = ByteReader::new(bytes, base);
    let mut out: Vec<(PlainValue, Span)> = Vec::new();
    if physical.0 == 0 {
        // BOOLEAN: one bit per value. A value's span is the byte its bit sits in.
        let n = count / 8 + if count % 8 == 0 {
            0
        } else {
            1
        };
        let (raw, span) = r.read_bytes(n)?;
        let mut i: usize = 0;
        while i < count
            invariant
                i <= count,
                physical.0 == 0,
                raw@ == bytes@.subrange(0, n as int),
                n == bit_bytes(count as nat),
                n <= bytes@.len(),
                span.start == base,
                base + bytes@.len() <= u64::MAX,
                plain_views(out@) =~= plain_values(physical.0, type_length, bytes@, base, count as nat)->Ok_0.take(i as int),
            decreases count - i,
        {
            let byte = span.start + (i / 8) as u64;
            let bit = raw[i / 8] >> ((i % 8) as u8) & 1 == 1;
            let ghost old_out = out@;
            out.push((PlainValue::Bool(bit), Span::new(byte, byte + 1)));
            proof {
                let vs = plain_values(physical.0, type_length, bytes@, base, count as nat)->Ok_0;
                assert(raw@[(i / 8) as int] == bytes@[(i / 8) as int]);
                assert(vs[i as int] == (
                    PlainValueV::Bool(bit),
                    Span { start: byte, end: (byte + 1) as u64 },
                ));
                assert(plain_views(out@) =~= plain_views(old_out).push(vs[i as int]));
                assert(vs.take(i + 1) =~= vs.take(i as int).push(vs[i as int]));
            }
            i = i + 1;
        }
        return Ok(out);
    }
    let mut i: usize = 0;
    let ghost mut done: Seq<(PlainValueV, Span)> = Seq::empty();
    assert(plain_values(physical.0, type_length, bytes@, base, count as nat) == then_values(
        done,
        plain_run(physical.0, type_length, bytes@, base, 0, count as nat),
    )) by {
        if let Ok(vs) = plain_run(physical.0, type_length, bytes@, base, 0, count as nat) {
            assert(done + vs =~= vs);
        }
    }
    while i < count
        invariant
            i <= count,
            r.bytes() == bytes@,
            r.base() == base,
            physical.0 != 0,
            physical.0 == 7 ==> fixed_len(type_length) <= usize::MAX,
            plain_views(out@) == done,
            plain_values(physical.0, type_length, bytes@, base, count as nat) == then_values(
                done,
                plain_run(physical.0, type_length, bytes@, base, r.pos() as int, (count - i) as nat),
            ),
        decreases count - i,
    {
        proof {
            use_type_invariant(&r);
            ByteReader::lemma_inv(r);
        }
        let start = r.offset();
        let ghost p0 = r.pos() as int;
        let value = read_one(physical, type_length, &mut r)?;
        proof {
            use_type_invariant(&r);
            ByteReader::lemma_inv(r);
        }
        let end = r.offset();
        let ghost old_done = done;
        let ghost item = (plain_view(value), Span { start, end });
        proof {
            done = done.push(item);
            match plain_run(physical.0, type_length, bytes@, base, r.pos() as int, (count - i - 1) as nat) {
                Ok(rest) => {
                    assert(old_done + (seq![item] + rest) =~= done + rest);
                },
                Err(_) => {},
            }
        }
        out.push((value, Span::new(start, end)));
        assert(plain_views(out@) =~= done);
        i = i + 1;
    }
    proof {
        if let Ok(vs) = plain_values(physical.0, type_length, bytes@, base, count as nat) {
            assert(done + Seq::<(PlainValueV, Span)>::empty() =~= done);
        }
    }
    Ok(out)
}


proof fn lemma_le_bytes_4(s: Seq<u8>)
    requires
        s.len() == 4,
    ensures
        le_bytes(le_u32_value(s) as nat, 4) == s,
        0 <= le_u32_value(s) < 0x1_0000_0000,
{
    let (a, b, c, d) = (s[0] as int, s[1] as int, s[2] as int, s[3] as int);
    let v = le_u32_value(s);
    assert(v == a + 256 * b + 65536 * c + 16777216 * d);
    assert(v % 256 == a && v / 256 == b + 256 * c + 65536 * d) by (nonlinear_arith)
        requires
            v == a + 256 * b + 65536 * c + 16777216 * d,
            0 <= a < 256,
            0 <= b < 256,
            0 <= c < 256,
            0 <= d < 256,
    ;
    let v1 = b + 256 * c + 65536 * d;
    assert(v1 % 256 == b && v1 / 256 == c + 256 * d) by (nonlinear_arith)
        requires
            v1 == b + 256 * c + 65536 * d,
            0 <= b < 256,
            0 <= c < 256,
            0 <= d < 256,
    ;
    let v2 = c + 256 * d;
    assert(v2 % 256 == c && v2 / 256 == d) by (nonlinear_arith)
        requires
            v2 == c + 256 * d,
            0 <= c < 256,
            0 <= d < 256,
    ;
    assert(d % 256 == d && d / 256 == 0);
    assert((d % 256) as u8 == s[3]);
    assert(le_bytes(0, 0) =~= Seq::<u8>::empty());
    assert(le_bytes(d as nat, 1) =~= seq![s[3]]);
    assert(le_bytes((v2 / 256) as nat, 1) =~= seq![s[3]]);
    assert(le_bytes((v1 / 256) as nat, 2) =~= seq![s[2], s[3]]);
    assert(le_bytes((v / 256) as nat, 3) =~= seq![s[1], s[2], s[3]]);
    assert(le_bytes(v as nat, 4) =~= s);
}

proof fn lemma_le_bytes_split(v: nat, lo: nat, hi: nat)
    requires
        lo < 0x1_0000_0000,
        v == lo + 0x1_0000_0000 * hi,
    ensures
        le_bytes(v, 8) == le_bytes(lo, 4) + le_bytes(hi, 4),
{
    let mut k: nat = 0;
    assert(v % 256 == lo % 256 && v / 256 == lo / 256 + 0x100_0000 * hi) by (nonlinear_arith)
        requires
            lo < 0x1_0000_0000,
            v == lo + 0x1_0000_0000 * hi,
    ;
    let v1 = v / 256;
    let l1 = lo / 256;
    assert(v1 % 256 == l1 % 256 && v1 / 256 == l1 / 256 + 0x1_0000 * hi) by (nonlinear_arith)
        requires
            l1 < 0x100_0000,
            v1 == l1 + 0x100_0000 * hi,
    ;
    let v2 = v1 / 256;
    let l2 = l1 / 256;
    assert(v2 % 256 == l2 % 256 && v2 / 256 == l2 / 256 + 0x100 * hi) by (nonlinear_arith)
        requires
            l2 < 0x1_0000,
            v2 == l2 + 0x1_0000 * hi,
    ;
    let v3 = v2 / 256;
    let l3 = l2 / 256;
    assert(v3 % 256 == l3 % 256 && v3 / 256 == hi) by (nonlinear_arith)
        requires
            l3 < 0x100,
            v3 == l3 + 0x100 * hi,
    ;
    assert(le_bytes(hi, 4) =~= le_bytes(v3 / 256, 4));
    assert(le_bytes(l3 / 256, 0) =~= Seq::<u8>::empty());
    assert(le_bytes(l3, 1) =~= seq![(l3 % 256) as u8]);
    assert(le_bytes(v3, 5) == seq![(v3 % 256) as u8] + le_bytes(v3 / 256, 4));
    assert(le_bytes(v3, 5) =~= le_bytes(l3, 1) + le_bytes(hi, 4));
    assert(le_bytes(v2, 6) =~= le_bytes(l2, 2) + le_bytes(hi, 4));
    assert(le_bytes(v1, 7) =~= le_bytes(l1, 3) + le_bytes(hi, 4));
    assert(le_bytes(v, 8) =~= le_bytes(lo, 4) + le_bytes(hi, 4));
}

proof fn lemma_le_bytes_8(s: Seq<u8>)
    requires
        s.len() == 8,
    ensures
        le_bytes(le_u64_value(s) as nat, 8) == s,
        0 <= le_u64_value(s) < 0x1_0000_0000_0000_0000,
{
    let lo = s.subrange(0, 4);
    let hi = s.subrange(4, 8);
    lemma_le_bytes_4(lo);
    lemma_le_bytes_4(hi);
    assert(le_u32_value(s) == le_u32_value(lo));
    lemma_le_bytes_split(le_u64_value(s) as nat, le_u32_value(lo) as nat, le_u32_value(hi) as nat);
    assert(s =~= lo + hi);
}

/// What one value's bytes are in the data: for a `BYTE_ARRAY`, without its length prefix.
pub open spec fn value_bytes(physical: i64, b: Seq<u8>, pos: int, next: int) -> Seq<u8> {
    if physical == 6 {
        b.subrange(pos + 4, next)
    } else {
        b.subrange(pos, next)
    }
}

/// Writing a decoded value back gives the bytes it was read from: decoding one value of any
/// type but `BOOLEAN` and turning it back into PLAIN bytes for the same type undoes the decode,
/// except that a byte array loses its length prefix.
pub proof fn lemma_plain_bytes_round_trip(
    physical: i64,
    type_length: Option<i64>,
    b: Seq<u8>,
    base: u64,
    pos: int,
)
    requires
        0 <= pos,
    ensures
        plain_one(physical, type_length, b, base, pos) matches Ok((v, next)) ==> plain_bytes(
            v,
            physical,
        ) == value_bytes(physical, b, pos, next),
{
    if let Ok((v, next)) = plain_one(physical, type_length, b, base, pos) {
        if physical == 1 {
            let s = b.subrange(pos, pos + 4);
            lemma_le_bytes_4(s);
            let u = le_u32_value(s);
            let x = le_i32_value(s);
            let u32v = u as u32;
            let xi: i32 = u32v as i32;
            assert(xi as u32 == u32v) by (bit_vector)
                requires
                    xi == u32v as i32,
            ;
            if u >= 0x8000_0000 {
                assert(xi as i64 == u32v as i64 - 0x1_0000_0000i64) by (bit_vector)
                    requires
                        xi == u32v as i32,
                        u32v >= 0x8000_0000u32,
                ;
            } else {
                assert(xi as i64 == u32v as i64) by (bit_vector)
                    requires
                        xi == u32v as i32,
                        u32v < 0x8000_0000u32,
                ;
            }
            assert(x == xi);
            assert(((x as i64) as i32) as u32 == u);
        } else if physical == 2 {
            let s = b.subrange(pos, pos + 8);
            lemma_le_bytes_8(s);
            let u = le_u64_value(s);
            let x = le_i64_value(s);
            let u64v = u as u64;
            let xi: i64 = u64v as i64;
            assert(xi as u64 == u64v) by (bit_vector)
                requires
                    xi == u64v as i64,
            ;
            if u >= 0x8000_0000_0000_0000 {
                assert(xi as i128 == u64v as i128 - 0x1_0000_0000_0000_0000i128) by (bit_vector)
                    requires
                        xi == u64v as i64,
                        u64v >= 0x8000_0000_0000_0000u64,
                ;
            } else {
                assert(xi as i128 == u64v as i128) by (bit_vector)
                    requires
                        xi == u64v as i64,
                        u64v < 0x8000_0000_0000_0000u64,
                ;
            }
            assert(x == xi);
            assert((x as i64) as u64 == u);
        } else if physical == 4 {
            lemma_le_bytes_4(b.subrange(pos, pos + 4));
        } else if physical == 5 {
            lemma_le_bytes_8(b.subrange(pos, pos + 8));
        }
    }
}


/// Values read with a physical type other than `FLOAT` and `DOUBLE` are never floats.
pub proof fn lemma_no_floats(
    physical: i64,
    type_length: Option<i64>,
    b: Seq<u8>,
    base: u64,
    pos: int,
    count: nat,
)
    requires
        physical != 4,
        physical != 5,
        physical != 0,
    ensures
        plain_run(physical, type_length, b, base, pos, count) matches Ok(vs) ==> forall|i: int|
            0 <= i < vs.len() ==> !(#[trigger] vs[i].0 is Float32) && !(vs[i].0 is Float64),
    decreases count,
{
    if count > 0 {
        if let Ok((v, next)) = plain_one(physical, type_length, b, base, pos) {
            lemma_no_floats(physical, type_length, b, base, next, (count - 1) as nat);
            if let Ok(rest) = plain_run(physical, type_length, b, base, next, (count - 1) as nat) {
                let vs = plain_run(physical, type_length, b, base, pos, count)->Ok_0;
                assert forall|i: int| 0 <= i < vs.len() implies !(#[trigger] vs[i].0 is Float32)
                    && !(vs[i].0 is Float64) by {
                    if i > 0 {
                        assert(vs[i] == rest[i - 1]);
                    }
                }
            }
        }
    }
}

/// A copy of a value.
pub fn copy_value(v: &PlainValue) -> (r: PlainValue)
    ensures
        plain_view(r) == plain_view(*v),
{
    match v {
        PlainValue::Bool(b) => PlainValue::Bool(*b),
        PlainValue::Int(i) => PlainValue::Int(*i),
        PlainValue::Float32(f) => PlainValue::Float32(*f),
        PlainValue::Float64(f) => PlainValue::Float64(*f),
        PlainValue::Bytes(b) => PlainValue::Bytes(vstd::slice::slice_to_vec(b.as_slice())),
    }
}

} // verus!
