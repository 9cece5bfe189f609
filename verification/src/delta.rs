//! DELTA_BINARY_PACKED, and BYTE_STREAM_SPLIT.
//!
//! **DELTA_BINARY_PACKED** stores integers as differences. Sorted or slowly changing values
//! (ids, timestamps, counters) have small differences, and small differences pack into few
//! bits:
//!
//! ```text
//! header:  block size · miniblocks per block · value count · first value (zigzag)
//! block:   min delta (zigzag) · one bit width per miniblock · the miniblocks, bit-packed
//! ```
//!
//! Each block subtracts its smallest delta from every delta, so all of them are zero or more,
//! and each miniblock packs its adjusted deltas in the fewest bits that hold its largest. A run of
//! values one apart has every adjusted delta zero, and bit width zero: the miniblock takes no
//! bytes at all.
//!
//! **BYTE_STREAM_SPLIT** does not shrink anything. It writes every value's first byte, then
//! every value's second byte, and so on, which puts the slowly varying bytes of floats together
//! for a compressor to find.

use vstd::prelude::*;

use crate::bytes::{lemma_uleb_from_len, uleb, zigzag, ByteReader, BytesError, Span, Uleb};
use crate::decode::{
    decoded_values_view, relabel, relabeled, steps_view, Decoded, DecodedValue, DecodedValueV, Step,
    StepV,
};
use crate::plain::{PlainValue, PlainValueV};
use crate::rle::{bits_at, read_bits};
use crate::text::{
    dec, ints_text, push_i64, push_i64_list, push_u64, push_u8_list, signed_dec,
};

verus! {

/// What DELTA_BINARY_PACKED decodes to: integers with the bytes of their miniblock, the steps
/// that produced them, and the first byte after the encoding.
#[derive(Clone, Debug, PartialEq)]
pub struct Integers {
    pub values: Vec<(i64, Span)>,
    pub steps: Vec<Step>,
    pub end: u64,
}

/// The file offsets of bytes `start..end` of data that starts at `base`.
pub open spec fn span_at(base: u64, start: int, end: int) -> Span {
    Span { start: (base + start) as u64, end: (base + end) as u64 }
}

/// Reading a varint at index `pos`: its value and the index after it, or the error.
pub open spec fn varint_at(s: Seq<u8>, base: u64, pos: int) -> Result<(u64, int), BytesError> {
    match uleb(s, pos) {
        Uleb::Value(v, n) => Ok((v, pos + n)),
        Uleb::End(at) => Err(BytesError::UnexpectedEnd { offset: (base + at) as u64, wanted: 1 }),
        Uleb::TooLong => Err(BytesError::VarintTooLong { offset: (base + pos) as u64 }),
    }
}

pub proof fn lemma_varint_at(s: Seq<u8>, base: u64, pos: int)
    ensures
        0 <= pos ==> (varint_at(s, base, pos) matches Ok((v, p)) ==> pos < p <= s.len()),
{
    if 0 <= pos {
        lemma_uleb_from_len(s, pos, 0, 0);
    }
}

/// The header: the block size, the miniblocks per block (a count of zero is taken as one), the
/// value count, the first value, and where the first block starts.
pub struct DeltaHeader {
    pub block_size: u64,
    pub miniblocks: u64,
    pub total: u64,
    pub first: i64,
    pub end: int,
}

pub open spec fn delta_header(s: Seq<u8>, base: u64) -> Result<DeltaHeader, BytesError> {
    match varint_at(s, base, 0) {
        Err(e) => Err(e),
        Ok((bs, p1)) => match varint_at(s, base, p1) {
            Err(e) => Err(e),
            Ok((mb, p2)) => match varint_at(s, base, p2) {
                Err(e) => Err(e),
                Ok((total, p3)) => match varint_at(s, base, p3) {
                    Err(e) => Err(e),
                    Ok((z, p4)) => Ok(
                        DeltaHeader {
                            block_size: bs,
                            miniblocks: if mb == 0 {
                                1
                            } else {
                                mb
                            },
                            total,
                            first: zigzag(z as nat) as i64,
                            end: p4,
                        },
                    ),
                },
            },
        },
    }
}

/// `x + y`, wrapping around as 64-bit signed integers do.
pub open spec fn wrap_add(x: i64, y: i64) -> i64 {
    if x + y > i64::MAX {
        (x + y - 0x1_0000_0000_0000_0000) as i64
    } else if x + y < i64::MIN {
        (x + y + 0x1_0000_0000_0000_0000) as i64
    } else {
        (x + y) as i64
    }
}

/// Whether reading value `i` of a miniblock of `w`-bit values would read past the miniblock's
/// bytes, or find a set bit beyond the 64 that a value holds.
pub open spec fn value_unreadable(raw: Seq<u8>, w: nat, i: nat) -> bool {
    (i + 1) * w > raw.len() * 8 || (w > 64 && bits_at(raw, i * w + 64, (w - 64) as nat) != 0)
}

/// The values of one miniblock from value `i` on: each adds the block's smallest delta and its
/// packed bits to the value before it. Stops at the end of the miniblock or once `total` values
/// are out; `None` where a value cannot be read.
pub open spec fn miniblock_values(
    raw: Seq<u8>,
    w: nat,
    per: nat,
    total: nat,
    i: nat,
    out: Seq<(i64, Span)>,
    prev: i64,
    deltas: Seq<i64>,
    min_delta: i64,
    sp: Span,
) -> Option<(Seq<(i64, Span)>, i64, Seq<i64>)>
    decreases per - i,
{
    if i >= per || out.len() >= total {
        Some((out, prev, deltas))
    } else if value_unreadable(raw, w, i) {
        None
    } else {
        let packed = bits_at(raw, i * w, if w > 64 { 64 } else { w });
        let delta = wrap_add(min_delta, packed as u64 as i64);
        let v = wrap_add(prev, delta);
        miniblock_values(
            raw,
            w,
            per,
            total,
            i + 1,
            out.push((v, sp)),
            v,
            deltas.push(delta),
            min_delta,
            sp,
        )
    }
}

/// Where a walk through a block's miniblocks gets to: the next byte, the values, the last value
/// and the steps; or the error; or a miniblock that cannot be read.
pub enum Walk {
    Next(int, Seq<(i64, Span)>, i64, Seq<StepV>),
    Failed(BytesError),
    Unreadable,
}

/// The text of a list of deltas.
pub open spec fn deltas_text(deltas: Seq<i64>) -> Seq<char> {
    ints_text(deltas.map_values(|d: i64| d as int))
}

/// The miniblocks of block number `block`, from miniblock `m` on, whose bytes start at `pos`.
pub open spec fn block_miniblocks(
    s: Seq<u8>,
    base: u64,
    per: nat,
    total: nat,
    widths: Seq<u8>,
    m: nat,
    pos: int,
    out: Seq<(i64, Span)>,
    prev: i64,
    steps: Seq<StepV>,
    block: nat,
    min_delta: i64,
) -> Walk
    decreases widths.len() - m,
{
    if m >= widths.len() || out.len() >= total {
        Walk::Next(pos, out, prev, steps)
    } else {
        let w = widths[m as int] as nat;
        if per * w > u64::MAX {
            Walk::Unreadable
        } else {
            let len = per * w / 8;
            if pos + len > s.len() {
                Walk::Failed(
                    BytesError::UnexpectedEnd { offset: (base + pos) as u64, wanted: len as u64 },
                )
            } else {
                let raw = s.subrange(pos, pos + len);
                let sp = span_at(base, pos, pos + len);
                match miniblock_values(raw, w, per, total, 0, out, prev, seq![], min_delta, sp) {
                    None => Walk::Unreadable,
                    Some((out2, prev2, deltas)) => block_miniblocks(
                        s,
                        base,
                        per,
                        total,
                        widths,
                        m + 1,
                        pos + len,
                        out2,
                        prev2,
                        steps.push(
                            StepV {
                                label: "block "@ + dec(block) + ", miniblock "@ + dec(m),
                                span: sp,
                                detail: dec(w) + " bits per delta; deltas "@ + deltas_text(deltas),
                            },
                        ),
                        block,
                        min_delta,
                    ),
                }
            }
        }
    }
}

pub proof fn lemma_block_miniblocks_ends(
    s: Seq<u8>,
    base: u64,
    per: nat,
    total: nat,
    widths: Seq<u8>,
    m: nat,
    pos: int,
    out: Seq<(i64, Span)>,
    prev: i64,
    steps: Seq<StepV>,
    block: nat,
    min_delta: i64,
)
    ensures
        pos <= s.len() ==> (block_miniblocks(
            s,
            base,
            per,
            total,
            widths,
            m,
            pos,
            out,
            prev,
            steps,
            block,
            min_delta,
        ) matches Walk::Next(p, o, v, st) ==> pos <= p <= s.len()),
    decreases widths.len() - m,
{
    if m < widths.len() && out.len() < total {
        let w = widths[m as int] as nat;
        let len = per * w / 8;
        if per * w <= u64::MAX && pos + len <= s.len() {
            let raw = s.subrange(pos, pos + len);
            let sp = span_at(base, pos, pos + len);
            if let Some((out2, prev2, deltas)) = miniblock_values(
                raw,
                w,
                per,
                total,
                0,
                out,
                prev,
                seq![],
                min_delta,
                sp,
            ) {
                lemma_block_miniblocks_ends(
                    s,
                    base,
                    per,
                    total,
                    widths,
                    m + 1,
                    pos + len,
                    out2,
                    prev2,
                    steps.push(
                        StepV {
                            label: "block "@ + dec(block) + ", miniblock "@ + dec(m),
                            span: sp,
                            detail: dec(w) + " bits per delta; deltas "@ + deltas_text(deltas),
                        },
                    ),
                    block,
                    min_delta,
                );
            }
        }
    }
}

/// What decoding gives: the values, the steps and the index of the first byte after them; or
/// the error; or a miniblock that cannot be read.
pub enum DeltaOutcome {
    Done(Seq<(i64, Span)>, Seq<StepV>, int),
    Failed(BytesError),
    Unreadable,
}

/// The blocks from the one starting at `pos` on, until `total` values are out.
pub open spec fn delta_blocks(
    s: Seq<u8>,
    base: u64,
    per: nat,
    total: nat,
    mb: nat,
    pos: int,
    out: Seq<(i64, Span)>,
    prev: i64,
    steps: Seq<StepV>,
    block: nat,
) -> DeltaOutcome
    decreases s.len() - pos,
{
    if out.len() >= total || pos < 0 || pos > s.len() {
        DeltaOutcome::Done(out, steps, pos)
    } else {
        match varint_at(s, base, pos) {
            Err(e) => DeltaOutcome::Failed(e),
            Ok((z, p1)) => if p1 + mb > s.len() {
                DeltaOutcome::Failed(
                    BytesError::UnexpectedEnd { offset: (base + p1) as u64, wanted: mb as u64 },
                )
            } else {
                let min_delta = zigzag(z as nat) as i64;
                let widths = s.subrange(p1, p1 + mb);
                let p2 = p1 + mb;
                let step = StepV {
                    label: "block "@ + dec(block),
                    span: span_at(base, pos, p2),
                    detail: "smallest delta "@ + signed_dec(min_delta as int) + "; bit widths "@
                        + ints_text(widths.map_values(|b: u8| b as int)),
                };
                match block_miniblocks(
                    s,
                    base,
                    per,
                    total,
                    widths,
                    0,
                    p2,
                    out,
                    prev,
                    steps.push(step),
                    block,
                    min_delta,
                ) {
                    Walk::Next(p3, out3, prev3, steps3) => {
                        proof {
                            lemma_varint_at(s, base, pos);
                            lemma_block_miniblocks_ends(
                                s,
                                base,
                                per,
                                total,
                                widths,
                                0,
                                p2,
                                out,
                                prev,
                                steps.push(step),
                                block,
                                min_delta,
                            );
                        }
                        delta_blocks(s, base, per, total, mb, p3, out3, prev3, steps3, block + 1)
                    },
                    Walk::Failed(e) => DeltaOutcome::Failed(e),
                    Walk::Unreadable => DeltaOutcome::Unreadable,
                }
            },
        }
    }
}

/// The step that describes the header.
pub open spec fn header_step(base: u64, h: DeltaHeader) -> StepV {
    StepV {
        label: "header"@,
        span: span_at(base, 0, h.end),
        detail: "blocks of "@ + dec(h.block_size as nat) + " values in "@ + dec(
            h.miniblocks as nat,
        ) + " miniblocks; "@ + dec(h.total as nat) + " values; the first is "@ + signed_dec(
            h.first as int,
        ),
    }
}

/// What DELTA_BINARY_PACKED data decodes to.
pub open spec fn delta_outcome(s: Seq<u8>, base: u64) -> DeltaOutcome {
    match delta_header(s, base) {
        Err(e) => DeltaOutcome::Failed(e),
        Ok(h) => if h.total == 0 {
            DeltaOutcome::Done(seq![], seq![header_step(base, h)], h.end)
        } else {
            delta_blocks(
                s,
                base,
                (h.block_size / h.miniblocks) as nat,
                h.total as nat,
                h.miniblocks as nat,
                h.end,
                seq![(h.first, span_at(base, 0, h.end))],
                h.first,
                seq![header_step(base, h)],
                0,
            )
        },
    }
}


fn unpack_miniblock(
    raw: &[u8],
    w: u8,
    per: u64,
    total: u64,
    out: &mut Vec<(i64, Span)>,
    prev: i64,
    min_delta: i64,
    sp: Span,
) -> (r: (i64, Vec<i64>))
    requires
        miniblock_values(
            raw@,
            w as nat,
            per as nat,
            total as nat,
            0,
            old(out)@,
            prev,
            seq![],
            min_delta,
            sp,
        ) is Some,
    ensures
        miniblock_values(
            raw@,
            w as nat,
            per as nat,
            total as nat,
            0,
            old(out)@,
            prev,
            seq![],
            min_delta,
            sp,
        ) == Some((final(out)@, r.0, r.1@)),
{
    let ghost target = miniblock_values(
        raw@,
        w as nat,
        per as nat,
        total as nat,
        0,
        out@,
        prev,
        seq![],
        min_delta,
        sp,
    );
    let mut deltas: Vec<i64> = Vec::new();
    let mut last = prev;
    let mut i: u64 = 0;
    while i < per && (out.len() as u64) < total
        invariant
            i <= per,
            target is Some,
            miniblock_values(
                raw@,
                w as nat,
                per as nat,
                total as nat,
                i as nat,
                out@,
                last,
                deltas@,
                min_delta,
                sp,
            ) == target,
        decreases per - i,
    {
        let width: u32 = if w > 64 { 64 } else { w as u32 };
        assert(!value_unreadable(raw@, w as nat, i as nat));
        assert((i as int) * (w as int) + (w as int) == (i as int + 1) * (w as int)) by (
        nonlinear_arith);
        assert((i as int) * (w as int) <= 0xffff_ffff_ffff_ffff * 255) by (nonlinear_arith)
            requires
                i <= 0xffff_ffff_ffff_ffff,
                w <= 255,
        ;
        let start: u128 = i as u128 * w as u128;
        let packed = read_bits(raw, start, width);
        let delta = min_delta.wrapping_add(packed as i64);
        last = last.wrapping_add(delta);
        deltas.push(delta);
        out.push((last, sp));
        i = i + 1;
    }
    (last, deltas)
}

fn read_miniblocks(
    r: &mut ByteReader,
    widths: &[u8],
    per: u64,
    total: u64,
    out: &mut Vec<(i64, Span)>,
    prev: &mut i64,
    steps: &mut Vec<Step>,
    block: u64,
    min_delta: i64,
) -> (res: Result<(), BytesError>)
    requires
        !(block_miniblocks(
            old(r).bytes(),
            old(r).base(),
            per as nat,
            total as nat,
            widths@,
            0,
            old(r).pos() as int,
            old(out)@,
            *old(prev),
            steps_view(old(steps)@),
            block as nat,
            min_delta,
        ) is Unreadable),
    ensures
        final(r).bytes() == old(r).bytes(),
        final(r).base() == old(r).base(),
        match block_miniblocks(
            old(r).bytes(),
            old(r).base(),
            per as nat,
            total as nat,
            widths@,
            0,
            old(r).pos() as int,
            old(out)@,
            *old(prev),
            steps_view(old(steps)@),
            block as nat,
            min_delta,
        ) {
            Walk::Next(p, o, v, st) => res is Ok && final(r).pos() == p && final(out)@ == o
                && *final(prev) == v && steps_view(final(steps)@) == st,
            Walk::Failed(e) => res == Err::<(), BytesError>(e),
            Walk::Unreadable => false,
        },
{
    let ghost s = r.bytes();
    let ghost base = r.base();
    let ghost target = block_miniblocks(
        s,
        base,
        per as nat,
        total as nat,
        widths@,
        0,
        r.pos() as int,
        out@,
        *prev,
        steps_view(steps@),
        block as nat,
        min_delta,
    );
    let mut m: usize = 0;
    while m < widths.len() && (out.len() as u64) < total
        invariant
            m <= widths@.len(),
            r.bytes() == s,
            r.base() == base,
            s == old(r).bytes(),
            base == old(r).base(),
            target == block_miniblocks(
                old(r).bytes(),
                old(r).base(),
                per as nat,
                total as nat,
                widths@,
                0,
                old(r).pos() as int,
                old(out)@,
                *old(prev),
                steps_view(old(steps)@),
                block as nat,
                min_delta,
            ),
            !(target is Unreadable),
            block_miniblocks(
                s,
                base,
                per as nat,
                total as nat,
                widths@,
                m as nat,
                r.pos() as int,
                out@,
                *prev,
                steps_view(steps@),
                block as nat,
                min_delta,
            ) == target,
        decreases widths@.len() - m,
    {
        let w = widths[m];
        let product: u128 = per as u128 * w as u128;
        assert(product <= u64::MAX);
        let len: u64 = (product / 8) as u64;
        proof {
            use_type_invariant(&*r);
            ByteReader::lemma_inv(*r);
        }
        if (r.remaining() as u64) < len {
            let e = BytesError::UnexpectedEnd { offset: r.offset(), wanted: len };
            assert(len == (per as nat) * (w as nat) / 8);
            assert(r.pos() + len > s.len());
            assert(block_miniblocks(
                s,
                base,
                per as nat,
                total as nat,
                widths@,
                m as nat,
                r.pos() as int,
                out@,
                *prev,
                steps_view(steps@),
                block as nat,
                min_delta,
            ) == Walk::Failed(e));
            return Err(e);
        }
        let (raw, sp) = match r.read_bytes(len as usize) {
            Ok(x) => x,
            Err(e) => return Err(e),
        };
        let (last, deltas) = unpack_miniblock(raw, w, per, total, out, *prev, min_delta, sp);
        *prev = last;
        let mut label = "block ".to_owned();
        push_u64(&mut label, block);
        label.append(", miniblock ");
        push_u64(&mut label, m as u64);
        let mut detail = String::new();
        push_u64(&mut detail, w as u64);
        detail.append(" bits per delta; deltas ");
        push_i64_list(&mut detail, deltas.as_slice());
        let ghost before = steps_view(steps@);
        let step = Step::new(label.as_str(), sp, detail);
        steps.push(step);
        assert(steps_view(steps@) =~= before.push(step@));
        m = m + 1;
    }
    Ok(())
}

/// Integers from DELTA_BINARY_PACKED, with the steps that produced them.
///
/// A miniblock whose values would read past its bytes, or that sets a bit beyond the 64 a value
/// holds, cannot be decoded: `requires` leaves such data out.
pub fn binary_packed(bytes: &[u8], base: u64) -> (res: Result<Integers, BytesError>)
    requires
        base + bytes@.len() <= u64::MAX,
        !(delta_outcome(bytes@, base) is Unreadable),
    ensures
        match delta_outcome(bytes@, base) {
            DeltaOutcome::Done(values, steps, end) => res matches Ok(x) && x.values@ == values
                && steps_view(x.steps@) == steps && x.end == base + end,
            DeltaOutcome::Failed(e) => res == Err::<Integers, BytesError>(e),
            DeltaOutcome::Unreadable => false,
        },
{
    let mut r = ByteReader::new(bytes, base);
    let start = r.offset();
    proof {
        lemma_varint_at(bytes@, base, 0);
    }
    let block_size = r.read_uleb128()?;
    proof {
        lemma_varint_at(bytes@, base, r.pos() as int);
    }
    let mb_raw = r.read_uleb128()?;
    let miniblocks: u64 = if mb_raw == 0 { 1 } else { mb_raw };
    proof {
        lemma_varint_at(bytes@, base, r.pos() as int);
    }
    let total = r.read_uleb128()?;
    proof {
        lemma_varint_at(bytes@, base, r.pos() as int);
    }
    let first = r.read_zigzag()?;
    let ghost h = delta_header(bytes@, base)->Ok_0;
    assert(h.end == r.pos());
    let mut detail = "blocks of ".to_owned();
    push_u64(&mut detail, block_size);
    detail.append(" values in ");
    push_u64(&mut detail, miniblocks);
    detail.append(" miniblocks; ");
    push_u64(&mut detail, total);
    detail.append(" values; the first is ");
    push_i64(&mut detail, first);
    let header_span = Span::new(start, r.offset());
    let mut steps: Vec<Step> = Vec::new();
    steps.push(Step::new("header", header_span, detail));
    assert(steps_view(steps@) =~= seq![header_step(base, h)]);
    let per = block_size / miniblocks;
    let mut out: Vec<(i64, Span)> = Vec::new();
    if total == 0 {
        return Ok(Integers { values: out, steps, end: r.offset() });
    }
    out.push((first, header_span));
    let mut prev = first;
    let mut block: u64 = 0;
    while (out.len() as u64) < total
        invariant
            r.bytes() == bytes@,
            r.base() == base,
            block <= r.pos(),
            delta_blocks(
                bytes@,
                base,
                per as nat,
                total as nat,
                miniblocks as nat,
                r.pos() as int,
                out@,
                prev,
                steps_view(steps@),
                block as nat,
            ) == delta_outcome(bytes@, base),
            !(delta_outcome(bytes@, base) is Unreadable),
        decreases bytes@.len() - r.pos(),
    {
        proof {
            use_type_invariant(&r);
            ByteReader::lemma_inv(r);
            lemma_varint_at(bytes@, base, r.pos() as int);
        }
        let block_start = r.offset();
        let min_delta = r.read_zigzag()?;
        let ghost p1 = r.pos();
        proof {
            use_type_invariant(&r);
            ByteReader::lemma_inv(r);
        }
        if (r.remaining() as u64) < miniblocks {
            return Err(BytesError::UnexpectedEnd { offset: r.offset(), wanted: miniblocks });
        }
        let (widths, _) = r.read_bytes(miniblocks as usize)?;
        let mut detail = "smallest delta ".to_owned();
        push_i64(&mut detail, min_delta);
        detail.append("; bit widths ");
        push_u8_list(&mut detail, widths);
        let mut label = "block ".to_owned();
        push_u64(&mut label, block);
        let ghost before = steps_view(steps@);
        let step = Step::new(label.as_str(), Span::new(block_start, r.offset()), detail);
        steps.push(step);
        assert(steps_view(steps@) =~= before.push(step@));
        proof {
            lemma_block_miniblocks_ends(
                bytes@,
                base,
                per as nat,
                total as nat,
                widths@,
                0,
                r.pos() as int,
                out@,
                prev,
                steps_view(steps@),
                block as nat,
                min_delta,
            );
        }
        read_miniblocks(&mut r, widths, per, total, &mut out, &mut prev, &mut steps, block, min_delta)?;
        block = block + 1;
    }
    Ok(Integers { values: out, steps, end: r.offset() })
}


/// Value `i` of BYTE_STREAM_SPLIT data: its byte `k` is byte `k * count + i` of the data.
pub open spec fn split_value(s: Seq<u8>, width: nat, count: nat, i: int) -> Seq<u8> {
    Seq::new(width, |k: int| s[k * count + i])
}

/// Where each byte of value `i` was.
pub open spec fn split_spans(base: u64, width: nat, count: nat, i: int) -> Seq<Span> {
    Seq::new(width, |k: int| span_at(base, k * count + i, k * count + i + 1))
}

/// BYTE_STREAM_SPLIT: `count` values of `width` bytes, stored as `width` streams of `count`
/// bytes. Value `i`'s byte `k` is at `k * count + i`.
pub fn byte_stream_split(bytes: &[u8], base: u64, width: usize, count: usize) -> (r: Result<
    Vec<(Vec<u8>, Vec<Span>)>,
    BytesError,
>)
    requires
        width * count <= usize::MAX,
        base + bytes@.len() <= u64::MAX,
    ensures
        bytes@.len() < width * count ==> r == Err::<Vec<(Vec<u8>, Vec<Span>)>, BytesError>(
            BytesError::UnexpectedEnd {
                offset: (base + bytes@.len()) as u64,
                wanted: (width * count - bytes@.len()) as u64,
            },
        ),
        bytes@.len() >= width * count ==> (r matches Ok(v) && v@.len() == count && forall|i: int|
            0 <= i < count ==> (#[trigger] v@[i]).0@ == split_value(bytes@, width as nat, count as nat, i)
                && v@[i].1@ == split_spans(base, width as nat, count as nat, i)),
{
    let n = width * count;
    if bytes.len() < n {
        return Err(
            BytesError::UnexpectedEnd {
                offset: base + bytes.len() as u64,
                wanted: (n - bytes.len()) as u64,
            },
        );
    }
    let mut values: Vec<(Vec<u8>, Vec<Span>)> = Vec::new();
    let mut i: usize = 0;
    while i < count
        invariant
            n == width * count,
            n <= bytes@.len(),
            base + bytes@.len() <= u64::MAX,
            i <= count,
            values@.len() == i,
            forall|j: int|
                0 <= j < i ==> (#[trigger] values@[j]).0@ == split_value(
                    bytes@,
                    width as nat,
                    count as nat,
                    j,
                ) && values@[j].1@ == split_spans(base, width as nat, count as nat, j),
        decreases count - i,
    {
        let mut value: Vec<u8> = Vec::new();
        let mut spans: Vec<Span> = Vec::new();
        let mut k: usize = 0;
        while k < width
            invariant
                n == width * count,
                n <= bytes@.len(),
                base + bytes@.len() <= u64::MAX,
                i < count,
                k <= width,
                value@ =~= split_value(bytes@, k as nat, count as nat, i as int),
                spans@ =~= split_spans(base, k as nat, count as nat, i as int),
            decreases width - k,
        {
            assert(k * count + i < width * count) by (nonlinear_arith)
                requires
                    k < width,
                    i < count,
            ;
            let at = k * count + i;
            value.push(bytes[at]);
            let off = base + at as u64;
            spans.push(Span::new(off, off + 1));
            k = k + 1;
        }
        assert(value@ =~= split_value(bytes@, width as nat, count as nat, i as int));
        values.push((value, spans));
        i = i + 1;
    }
    Ok(values)
}


/// The length a delta-packed length asks for, as a reader counts it.
pub open spec fn wanted_len(n: i64) -> int {
    (n as usize) as int
}

/// The byte arrays whose lengths are `lengths`, one after another from position `pos`, each
/// with its bytes and the bytes of its length, and the position after them.
pub open spec fn arrays_from(
    bytes: Seq<u8>,
    base: u64,
    lengths: Seq<(i64, Span)>,
    pos: int,
) -> Result<(Seq<DecodedValueV>, int), BytesError>
    decreases lengths.len(),
{
    if lengths.len() == 0 {
        Ok((Seq::empty(), pos))
    } else {
        let n = wanted_len(lengths[0].0);
        if pos + n > bytes.len() {
            Err(BytesError::UnexpectedEnd { offset: (base + pos) as u64, wanted: n as u64 })
        } else {
            let v = DecodedValueV {
                value: PlainValueV::Bytes(bytes.subrange(pos, pos + n)),
                span: span_at(base, pos, pos + n),
                extra: seq![lengths[0].1],
            };
            match arrays_from(bytes, base, lengths.drop_first(), pos + n) {
                Ok((rest, end)) => Ok((seq![v] + rest, end)),
                Err(e) => Err(e),
            }
        }
    }
}

/// What DELTA_LENGTH_BYTE_ARRAY decodes to: the values, the steps (the lengths' steps, then one
/// for all the bytes), and the position after the bytes.
pub open spec fn length_arrays(bytes: Seq<u8>, base: u64) -> Result<
    (Seq<DecodedValueV>, Seq<StepV>, int),
    BytesError,
> {
    match delta_outcome(bytes, base) {
        DeltaOutcome::Done(lengths, steps, end) => if end < 0 || end > bytes.len() {
            Err(BytesError::UnexpectedEnd { offset: base, wanted: 0 })
        } else {
            match arrays_from(bytes, base, lengths, end) {
                Ok((values, fin)) => Ok(
                    (
                        values,
                        relabeled("lengths: "@, steps).push(
                            StepV {
                                label: "bytes"@,
                                span: span_at(base, end, fin),
                                detail: dec(values.len()) + " values' bytes, back to back"@,
                            },
                        ),
                        fin,
                    ),
                ),
                Err(e) => Err(e),
            }
        },
        DeltaOutcome::Failed(e) => Err(e),
        DeltaOutcome::Unreadable => Err(BytesError::VarintTooLong { offset: base }),
    }
}

/// What a decode returns, as mathematical values.
pub open spec fn decoded_view(d: Decoded) -> (Seq<DecodedValueV>, Seq<StepV>, u64) {
    (decoded_values_view(d.values@), steps_view(d.steps@), d.end)
}

pub open spec fn then_arrays(
    prefix: Seq<DecodedValueV>,
    r: Result<(Seq<DecodedValueV>, int), BytesError>,
) -> Result<(Seq<DecodedValueV>, int), BytesError> {
    match r {
        Ok((rest, end)) => Ok((prefix + rest, end)),
        Err(e) => Err(e),
    }
}

/// DELTA_LENGTH_BYTE_ARRAY: delta-packed lengths, then the bytes of every value in one run.
pub fn length_byte_array(bytes: &[u8], base: u64) -> (res: Result<Decoded, BytesError>)
    requires
        base + bytes@.len() <= u64::MAX,
        !(delta_outcome(bytes@, base) is Unreadable),
    ensures
        match length_arrays(bytes@, base) {
            Ok((values, steps, end)) => res matches Ok(d) && decoded_view(d) == (
                values,
                steps,
                (base + end) as u64,
            ),
            Err(e) => res == Err::<Decoded, BytesError>(e),
        },
{
    let ints = binary_packed(bytes, base)?;
    let ghost e0 = match delta_outcome(bytes@, base) {
        DeltaOutcome::Done(_, _, e) => e,
        _ => 0,
    };
    let lengths = ints.values;
    let ghost lv = lengths@;
    let mut steps = relabel("lengths: ", &ints.steps);
    if ints.end < base || ints.end - base > bytes.len() as u64 {
        return Err(BytesError::UnexpectedEnd { offset: base, wanted: 0 });
    }
    let rel = (ints.end - base) as usize;
    let mut r = ByteReader::new(bytes, base);
    let _ = r.read_bytes(rel)?;
    let data_start = r.offset();
    let mut values: Vec<DecodedValue> = Vec::new();
    let ghost mut done: Seq<DecodedValueV> = Seq::empty();
    let ghost start = e0;
    assert(start == rel);
    let mut k: usize = 0;
    assert(arrays_from(bytes@, base, lv, start) == then_arrays(
        done,
        arrays_from(bytes@, base, lv.skip(0), start),
    )) by {
        assert(lv.skip(0) =~= lv);
        if let Ok((vs, e)) = arrays_from(bytes@, base, lv, start) {
            assert(done + vs =~= vs);
        }
    }
    while k < lengths.len()
        invariant
            k <= lv.len(),
            lv == lengths@,
            r.bytes() == bytes@,
            r.base() == base,
            decoded_values_view(values@) == done,
            delta_outcome(bytes@, base) matches DeltaOutcome::Done(l2, _, e2) && l2 == lv && e2
                == start,
            0 <= start <= r.pos(),
            data_start == base + start,
            arrays_from(bytes@, base, lv, start) == then_arrays(
                done,
                arrays_from(bytes@, base, lv.skip(k as int), r.pos() as int),
            ),
        decreases lv.len() - k,
    {
        proof {
            use_type_invariant(&r);
            ByteReader::lemma_inv(r);
            assert(lv.skip(k as int).drop_first() =~= lv.skip(k + 1));
            assert(lv.skip(k as int)[0] == lv[k as int]);
        }
        let (len, len_span) = lengths[k];
        let ghost p0 = r.pos() as int;
        let (b, span) = r.read_bytes(len as usize)?;
        let v = DecodedValue {
            value: PlainValue::Bytes(vstd::slice::slice_to_vec(b)),
            span,
            extra: vec![len_span],
        };
        let ghost vv = crate::decode::decoded_value_view(v);
        proof {
            assert(vv.extra =~= seq![len_span]);
            let old_done = done;
            done = done.push(vv);
            match arrays_from(bytes@, base, lv.skip(k + 1), r.pos() as int) {
                Ok((rest, e)) => {
                    assert(old_done + (seq![vv] + rest) =~= done + rest);
                },
                Err(_) => {},
            }
        }
        let ghost old_values = values@;
        values.push(v);
        assert(decoded_values_view(values@) =~= decoded_values_view(old_values).push(vv));
        k = k + 1;
    }
    proof {
        use_type_invariant(&r);
        ByteReader::lemma_inv(r);
        assert(lv.skip(k as int) =~= Seq::<(i64, Span)>::empty());
        if let Ok((vs, e)) = arrays_from(bytes@, base, lv, start) {
            assert(done + Seq::<DecodedValueV>::empty() =~= done);
        }
    }
    let end = r.offset();
    let mut detail = String::new();
    push_u64(&mut detail, values.len() as u64);
    detail.append(" values' bytes, back to back");
    let ghost before = steps_view(steps@);
    steps.push(Step::new("bytes", Span::new(data_start, end), detail));
    assert(steps_view(steps@) =~= before.push(steps@.last()@));
    Ok(Decoded { values, steps, end })
}


/// The smaller of two lengths.
pub open spec fn min_len(a: int, b: int) -> int {
    if a < b {
        a
    } else {
        b
    }
}

/// DELTA_BYTE_ARRAY's values: each keeps as many leading bytes of the value before it as its
/// prefix length says, then adds its suffix; a value whose suffix is not bytes is left out.
pub open spec fn prefixed(
    prefixes: Seq<(i64, Span)>,
    suffixes: Seq<DecodedValueV>,
    prev: Seq<u8>,
) -> Seq<DecodedValueV>
    decreases prefixes.len(),
{
    if prefixes.len() == 0 || suffixes.len() == 0 {
        Seq::empty()
    } else {
        match suffixes[0].value {
            PlainValueV::Bytes(tail) => {
                let v = prev.take(min_len(wanted_len(prefixes[0].0), prev.len() as int)) + tail;
                seq![
                    DecodedValueV {
                        value: PlainValueV::Bytes(v),
                        span: suffixes[0].span,
                        extra: seq![prefixes[0].1] + suffixes[0].extra,
                    },
                ] + prefixed(prefixes.drop_first(), suffixes.drop_first(), v)
            },
            _ => prefixed(prefixes.drop_first(), suffixes.drop_first(), prev),
        }
    }
}

/// Whether both runs of delta-packed integers in a DELTA_BYTE_ARRAY can be read.
pub open spec fn byte_arrays_readable(bytes: Seq<u8>, base: u64) -> bool {
    &&& !(delta_outcome(bytes, base) is Unreadable)
    &&& match delta_outcome(bytes, base) {
        DeltaOutcome::Done(_, _, end) => 0 <= end <= bytes.len() ==> !(delta_outcome(
            bytes.skip(end),
            (base + end) as u64,
        ) is Unreadable),
        _ => true,
    }
}

/// What DELTA_BYTE_ARRAY decodes to: the values, the steps (the prefix lengths', then the
/// suffixes'), and the position after the suffixes.
pub open spec fn byte_arrays(bytes: Seq<u8>, base: u64) -> Result<
    (Seq<DecodedValueV>, Seq<StepV>, int),
    BytesError,
> {
    match delta_outcome(bytes, base) {
        DeltaOutcome::Done(prefixes, steps, end) => if end < 0 || end > bytes.len() {
            Err(BytesError::UnexpectedEnd { offset: base, wanted: 0 })
        } else {
            match length_arrays(bytes.skip(end), (base + end) as u64) {
                Ok((suffixes, more, fin)) => Ok(
                    (
                        prefixed(prefixes, suffixes, Seq::empty()),
                        relabeled("prefix lengths: "@, steps) + relabeled("suffixes: "@, more),
                        end + fin,
                    ),
                ),
                Err(e) => Err(e),
            }
        },
        DeltaOutcome::Failed(e) => Err(e),
        DeltaOutcome::Unreadable => Err(BytesError::VarintTooLong { offset: base }),
    }
}

/// DELTA_BYTE_ARRAY: shared-prefix lengths, then the suffixes as DELTA_LENGTH_BYTE_ARRAY.
pub fn byte_array(bytes: &[u8], base: u64) -> (res: Result<Decoded, BytesError>)
    requires
        base + bytes@.len() <= u64::MAX,
        byte_arrays_readable(bytes@, base),
    ensures
        match byte_arrays(bytes@, base) {
            Ok((values, steps, end)) => res matches Ok(d) && decoded_view(d) == (
                values,
                steps,
                (base + end) as u64,
            ),
            Err(e) => res == Err::<Decoded, BytesError>(e),
        },
{
    let ints = binary_packed(bytes, base)?;
    let ghost e0 = match delta_outcome(bytes@, base) {
        DeltaOutcome::Done(_, _, e) => e,
        _ => 0,
    };
    let prefixes = ints.values;
    let ghost pv = prefixes@;
    let mut steps = relabel("prefix lengths: ", &ints.steps);
    if ints.end < base || ints.end - base > bytes.len() as u64 {
        return Err(BytesError::UnexpectedEnd { offset: base, wanted: 0 });
    }
    let rel = (ints.end - base) as usize;
    let rest = vstd::slice::slice_subrange(bytes, rel, bytes.len());
    assert(rest@ =~= bytes@.skip(e0));
    let suffixes = length_byte_array(rest, ints.end)?;
    let mut more = relabel("suffixes: ", &suffixes.steps);
    let ghost s0 = steps_view(steps@);
    let ghost m0 = steps_view(more@);
    steps.append(&mut more);
    assert(steps_view(steps@) =~= s0 + m0);
    let ghost sv = decoded_values_view(suffixes.values@);
    let mut prev: Vec<u8> = Vec::new();
    let mut values: Vec<DecodedValue> = Vec::new();
    let ghost mut done: Seq<DecodedValueV> = Seq::empty();
    let mut k: usize = 0;
    proof {
        assert(pv.skip(0) =~= pv);
        assert(sv.skip(0) =~= sv);
        assert(done + prefixed(pv, sv, Seq::empty()) =~= prefixed(pv, sv, Seq::empty()));
    }
    while k < prefixes.len() && k < suffixes.values.len()
        invariant
            pv == prefixes@,
            sv == decoded_values_view(suffixes.values@),
            k <= pv.len(),
            k <= sv.len(),
            decoded_values_view(values@) == done,
            prefixed(pv, sv, Seq::empty()) == done + prefixed(pv.skip(k as int), sv.skip(k as int), prev@),
        decreases pv.len() - k,
    {
        proof {
            assert(pv.skip(k as int).drop_first() =~= pv.skip(k + 1));
            assert(sv.skip(k as int).drop_first() =~= sv.skip(k + 1));
            assert(pv.skip(k as int)[0] == pv[k as int]);
            assert(sv.skip(k as int)[0] == sv[k as int]);
        }
        let (prefix, prefix_span) = prefixes[k];
        let suffix = &suffixes.values[k];
        let ghost old_prev = prev@;
        match &suffix.value {
            PlainValue::Bytes(tail) => {
                let keep = if (prefix as usize) < prev.len() {
                    prefix as usize
                } else {
                    prev.len()
                };
                let mut v = vstd::slice::slice_to_vec(
                    vstd::slice::slice_subrange(prev.as_slice(), 0, keep),
                );
                let mut t = vstd::slice::slice_to_vec(tail.as_slice());
                v.append(&mut t);
                let mut extra: Vec<Span> = Vec::new();
                extra.push(prefix_span);
                let mut e2 = vstd::slice::slice_to_vec(suffix.extra.as_slice());
                extra.append(&mut e2);
                prev = vstd::slice::slice_to_vec(v.as_slice());
                let d = DecodedValue { value: PlainValue::Bytes(v), span: suffix.span, extra };
                let ghost dv = crate::decode::decoded_value_view(d);
                proof {
                    let keepv = min_len(wanted_len(prefix), old_prev.len() as int);
                    assert(keep == keepv);
                    assert(v@ =~= old_prev.take(keepv) + tail@);
                    assert(dv.extra =~= seq![prefix_span] + suffix.extra@);
                    assert(sv[k as int] == crate::decode::decoded_value_view(*suffix));
                    let rest = prefixed(pv.skip(k + 1), sv.skip(k + 1), v@);
                    assert(prefixed(pv.skip(k as int), sv.skip(k as int), old_prev) == seq![dv]
                        + rest);
                    let old_done = done;
                    done = done.push(dv);
                    assert(old_done + (seq![dv] + rest) =~= done + rest);
                }
                let ghost old_values = values@;
                values.push(d);
                assert(decoded_values_view(values@) =~= decoded_values_view(old_values).push(dv));
            },
            _ => {
                assert(sv[k as int] == crate::decode::decoded_value_view(*suffix));
            },
        }
        k = k + 1;
    }
    proof {
        if k == pv.len() {
            assert(pv.skip(k as int).len() == 0);
        } else {
            assert(sv.skip(k as int).len() == 0);
        }
        assert(done + Seq::<DecodedValueV>::empty() =~= done);
    }
    Ok(Decoded { values, steps, end: suffixes.end })
}

} // verus!
