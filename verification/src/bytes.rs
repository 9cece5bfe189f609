//! Binary primitives: the handful of ways Parquet turns bytes into numbers.
//!
//! A Parquet file uses three integer encodings, and this module has one function for each:
//! fixed-width little-endian integers, ULEB128 variable-length integers ("varints"), and
//! zigzag, which maps signed integers onto unsigned ones so small negatives stay small.
//!
//! Every read reports *where* it read from, as a [`Span`] of absolute file offsets.

use vstd::prelude::*;
use vstd::relations::{sorted_by, total_ordering};
use vstd::seq_lib::{lemma_sorted_unique, to_multiset_insert};
use vstd::slice::slice_subrange;

use crate::text::{dec, push_char, push_u64};

verus! {

/// A half-open range of absolute file offsets: `start` is included, `end` is not.
#[derive(Clone, Copy, Debug, PartialEq, Eq, Structural, Hash)]
pub struct Span {
    pub start: u64,
    pub end: u64,
}

/// A span is well formed when it does not end before it starts.
pub open spec fn span_wf(s: Span) -> bool {
    s.start <= s.end
}

impl Span {
    /// A span from `start` to `end`; one that would end before it starts cannot be made.
    pub fn new(start: u64, end: u64) -> (s: Span)
        requires
            start <= end,
        ensures
            s.start == start,
            s.end == end,
    {
        Span { start, end }
    }

    /// The number of bytes the span covers.
    pub fn len(&self) -> (n: u64)
        requires
            self.start <= self.end,
        ensures
            n == self.end - self.start,
    {
        self.end - self.start
    }

    pub fn is_empty(&self) -> (b: bool)
        ensures
            b == (self.start == self.end),
    {
        self.start == self.end
    }

    /// Whether every byte of `other` lies inside this span.
    pub fn contains(&self, other: Span) -> (b: bool)
        ensures
            b == (self.start <= other.start && other.end <= self.end),
    {
        self.start <= other.start && other.end <= self.end
    }

    /// The HTTP `Range` header for these bytes. HTTP ranges are inclusive at both ends, so the
    /// last byte is `end - 1`.
    pub fn http_range(&self) -> (r: String)
        requires
            self.end >= 1,
        ensures
            r@ == http_range_text(self.start as nat, (self.end - 1) as nat),
    {
        let mut s = String::new();
        push_char(&mut s, 'b');
        push_char(&mut s, 'y');
        push_char(&mut s, 't');
        push_char(&mut s, 'e');
        push_char(&mut s, 's');
        push_char(&mut s, '=');
        push_u64(&mut s, self.start);
        push_char(&mut s, '-');
        push_u64(&mut s, self.end - 1);
        assert(s@ =~= http_range_text(self.start as nat, (self.end - 1) as nat));
        s
    }
}

/// `bytes=first-last`, the text of an HTTP range header with inclusive bounds.
pub open spec fn http_range_text(first: nat, last: nat) -> Seq<char> {
    seq!['b', 'y', 't', 'e', 's', '='] + dec(first) + seq!['-'] + dec(last)
}

/// The order spans sort in: by start, then by end.
pub open spec fn span_le(a: Span, b: Span) -> bool {
    a.start < b.start || (a.start == b.start && a.end <= b.end)
}

/// `span_le` as a relation value, for sorting.
pub open spec fn span_order() -> spec_fn(Span, Span) -> bool {
    |a: Span, b: Span| span_le(a, b)
}

/// Spans sorted by start, then by end.
pub open spec fn sorted_spans(s: Seq<Span>) -> Seq<Span> {
    s.sort_by(span_order())
}

/// Ordering spans by start and then end is a total order.
pub proof fn lemma_span_order_total()
    ensures
        total_ordering(span_order()),
{
    let r = span_order();
    assert forall|a: Span, b: Span| #[trigger] r(a, b) && r(b, a) implies a == b by {}
}

/// Sort spans by start, then by end.
pub fn sort_spans(v: Vec<Span>) -> (out: Vec<Span>)
    ensures
        out@ == sorted_spans(v@),
{
    let mut out: Vec<Span> = Vec::new();
    let mut i: usize = 0;
    proof {
        lemma_span_order_total();
        assert(v@.subrange(0, 0) =~= out@);
    }
    while i < v.len()
        invariant
            i <= v@.len(),
            sorted_by(out@, span_order()),
            out@.to_multiset() == v@.subrange(0, i as int).to_multiset(),
            total_ordering(span_order()),
        decreases v@.len() - i,
    {
        let x = v[i];
        let mut p: usize = 0;
        while p < out.len() && (out[p].start < x.start || (out[p].start == x.start && out[p].end <= x.end))
            invariant
                p <= out@.len(),
                forall|k: int| 0 <= k < p ==> span_le(#[trigger] out@[k], x),
            decreases out@.len() - p,
        {
            p = p + 1;
        }
        let ghost before = out@;
        out.insert(p, x);
        proof {
            to_multiset_insert(before, p as int, x);
            assert(v@.subrange(0, i + 1) =~= v@.subrange(0, i as int).push(x));
            vstd::seq_lib::to_multiset_build(v@.subrange(0, i as int), x);
            assert forall|a: int, b: int| 0 <= a < b < out@.len() implies #[trigger] span_order()(
                out@[a],
                out@[b],
            ) by {
                if b < p {
                    assert(out@[a] == before[a] && out@[b] == before[b]);
                } else if b == p {
                    assert(out@[a] == before[a]);
                } else if a == p {
                    assert(out@[b] == before[b - 1]);
                    assert(span_le(x, before[p as int]) || p == before.len());
                    if (b - 1) > p {
                        assert(span_order()(before[p as int], before[b - 1]));
                    }
                } else if a < p {
                    assert(out@[a] == before[a] && out@[b] == before[b - 1]);
                    assert(span_le(before[a], x));
                    assert(span_le(x, before[p as int]));
                    assert(span_order()(before[p as int], before[b - 1]) || b - 1 == p);
                } else {
                    assert(out@[a] == before[a - 1] && out@[b] == before[b - 1]);
                }
            }
        }
        i = i + 1;
    }
    proof {
        assert(v@.subrange(0, v@.len() as int) =~= v@);
        v@.lemma_sort_by_ensures(span_order());
        lemma_sorted_unique(out@, v@.sort_by(span_order()), span_order());
    }
    out
}

/// What went wrong while reading bytes, and where.
#[derive(Clone, Debug, PartialEq, Eq, Structural)]
pub enum BytesError {
    /// Asked for `wanted` bytes at `offset`, but the buffer ends first.
    UnexpectedEnd { offset: u64, wanted: u64 },
    /// A varint ran past the width of the integer it encodes.
    VarintTooLong { offset: u64 },
}

/// A span as text: `[start, end)`.
pub open spec fn span_text(s: Span) -> Seq<char> {
    "["@ + dec(s.start as nat) + ", "@ + dec(s.end as nat) + ")"@
}

/// Append a span as `[start, end)`.
pub fn push_span(s: &mut String, span: Span)
    ensures
        final(s)@ == old(s)@ + span_text(span),
{
    s.append("[");
    push_u64(s, span.start);
    s.append(", ");
    push_u64(s, span.end);
    s.append(")");
}

/// What a reading error says.
pub open spec fn bytes_error_text(e: BytesError) -> Seq<char> {
    match e {
        BytesError::UnexpectedEnd { offset, wanted } => "needed "@ + dec(wanted as nat)
            + " more byte(s) at offset "@ + dec(offset as nat) + ", but the data ends"@,
        BytesError::VarintTooLong { offset } => "varint starting at offset "@ + dec(offset as nat)
            + " is longer than 10 bytes"@,
    }
}

impl BytesError {
    /// The error as a sentence.
    pub fn message(&self) -> (s: String)
        ensures
            s@ == bytes_error_text(*self),
    {
        let mut s = String::new();
        match self {
            BytesError::UnexpectedEnd { offset, wanted } => {
                s.append("needed ");
                push_u64(&mut s, *wanted);
                s.append(" more byte(s) at offset ");
                push_u64(&mut s, *offset);
                s.append(", but the data ends");
            },
            BytesError::VarintTooLong { offset } => {
                s.append("varint starting at offset ");
                push_u64(&mut s, *offset);
                s.append(" is longer than 10 bytes");
            },
        }
        assert(s@ =~= bytes_error_text(*self));
        s
    }
}

/// The value of four bytes read as a little-endian unsigned integer.
pub open spec fn le_u32_value(b: Seq<u8>) -> int {
    b[0] + 256 * b[1] + 65536 * b[2] + 16777216 * b[3]
}

/// The value of eight bytes read as a little-endian unsigned integer.
pub open spec fn le_u64_value(b: Seq<u8>) -> int {
    le_u32_value(b) + 4294967296 * le_u32_value(b.subrange(4, 8))
}

/// Read `bytes` as an unsigned little-endian integer: the first byte is the least significant.
pub fn read_le_u32(bytes: [u8; 4]) -> (v: u32)
    ensures
        v == le_u32_value(bytes@),
{
    bytes[0] as u32 + 256 * (bytes[1] as u32) + 65536 * (bytes[2] as u32) + 16777216 * (
    bytes[3] as u32)
}

/// The weight of byte `i` of a little-endian integer: 256 to the power `i`.
pub open spec fn byte_weight(i: nat) -> int
    decreases i,
{
    if i == 0 {
        1
    } else {
        256 * byte_weight((i - 1) as nat)
    }
}

/// Each byte times its weight, added up.
pub open spec fn weighted_sum(b: Seq<u8>) -> int
    decreases b.len(),
{
    if b.len() == 0 {
        0
    } else {
        weighted_sum(b.drop_last()) + b.last() * byte_weight((b.len() - 1) as nat)
    }
}

proof fn lemma_weighted_step(b: Seq<u8>, k: int)
    requires
        0 <= k < b.len(),
    ensures
        weighted_sum(b.take(k + 1)) == weighted_sum(b.take(k)) + b[k] * byte_weight(k as nat),
{
    assert(b.take(k + 1).drop_last() =~= b.take(k));
}

/// The terms `le_terms` lists add up to the little-endian value: four bytes to the `u32` that
/// `read_le_u32` reads, eight to the `u64`.
pub proof fn lemma_terms_add_up(b: Seq<u8>)
    ensures
        b.len() == 4 ==> weighted_sum(b) == le_u32_value(b),
        b.len() == 8 ==> weighted_sum(b) == le_u64_value(b),
{
    reveal_with_fuel(byte_weight, 9);
    assert(byte_weight(0) == 1);
    assert(byte_weight(1) == 256);
    assert(byte_weight(2) == 65536);
    assert(byte_weight(3) == 16777216);
    assert(byte_weight(4) == 4294967296);
    assert(byte_weight(5) == 1099511627776);
    assert(byte_weight(6) == 281474976710656);
    assert(byte_weight(7) == 72057594037927936);
    if b.len() == 4 || b.len() == 8 {
        assert(weighted_sum(b.take(0)) == 0);
        lemma_weighted_step(b, 0);
        lemma_weighted_step(b, 1);
        lemma_weighted_step(b, 2);
        lemma_weighted_step(b, 3);
        if b.len() == 8 {
            lemma_weighted_step(b, 4);
            lemma_weighted_step(b, 5);
            lemma_weighted_step(b, 6);
            lemma_weighted_step(b, 7);
            assert(b.subrange(4, 8)[0] == b[4]);
            assert(b.subrange(4, 8)[1] == b[5]);
            assert(b.subrange(4, 8)[2] == b[6]);
            assert(b.subrange(4, 8)[3] == b[7]);
        }
        assert(b.take(b.len() as int) =~= b);
    }
}

/// Each term's byte times its weight, added up.
pub open spec fn terms_sum(terms: Seq<(u8, u64)>) -> int
    decreases terms.len(),
{
    if terms.len() == 0 {
        0
    } else {
        terms_sum(terms.drop_last()) + terms.last().0 * terms.last().1
    }
}

proof fn lemma_weights_fit(i: nat)
    requires
        i < 8,
    ensures
        0 < byte_weight(i) <= 0x100_0000_0000_0000,
    decreases i,
{
    reveal_with_fuel(byte_weight, 8);
    if i > 0 {
        lemma_weights_fit((i - 1) as nat);
    }
}

/// The terms that `le_terms` gives for up to eight bytes add up to the bytes' little-endian
/// value: for four bytes the `u32` that `read_le_u32` reads, for eight the `u64`.
pub proof fn lemma_le_terms_sum(bytes: Seq<u8>, terms: Seq<(u8, u64)>)
    requires
        bytes.len() <= 8,
        terms.len() == bytes.len(),
        forall|i: int|
            0 <= i < bytes.len() ==> #[trigger] terms[i] == (bytes[i], byte_weight(i as nat) as u64),
    ensures
        terms_sum(terms) == weighted_sum(bytes),
        bytes.len() == 4 ==> terms_sum(terms) == le_u32_value(bytes),
        bytes.len() == 8 ==> terms_sum(terms) == le_u64_value(bytes),
    decreases bytes.len(),
{
    if bytes.len() > 0 {
        let n = bytes.len() - 1;
        lemma_le_terms_sum(bytes.drop_last(), terms.drop_last());
        lemma_weights_fit(n as nat);
        assert(terms.last() == terms[n]);
        assert(terms[n] == (bytes[n], byte_weight(n as nat) as u64));
    }
    lemma_terms_add_up(bytes);
}

/// Each byte of a little-endian integer with the weight it is multiplied by.
///
/// Weights beyond the eighth byte do not fit in a `u64`, so at most eight bytes are accepted.
pub fn le_terms(bytes: &[u8]) -> (terms: Vec<(u8, u64)>)
    requires
        bytes@.len() <= 8,
    ensures
        terms@.len() == bytes@.len(),
        forall|i: int|
            0 <= i < bytes@.len() ==> #[trigger] terms@[i] == (bytes@[i], byte_weight(i as nat) as u64),
{
    let mut terms: Vec<(u8, u64)> = Vec::new();
    let mut weight: u64 = 1;
    let mut i: usize = 0;
    while i < bytes.len()
        invariant
            i <= bytes@.len() <= 8,
            terms@.len() == i,
            i < bytes@.len() ==> weight == byte_weight(i as nat),
            forall|k: int|
                0 <= k < i ==> #[trigger] terms@[k] == (bytes@[k], byte_weight(k as nat) as u64),
        decreases bytes@.len() - i,
    {
        terms.push((bytes[i], weight));
        proof {
            reveal_with_fuel(byte_weight, 8);
        }
        if i + 1 < bytes.len() {
            assert(weight <= 0x1_0000_0000_0000) by {
                reveal_with_fuel(byte_weight, 8);
            }
            weight = weight * 256;
        }
        i = i + 1;
    }
    terms
}

/// The signed integer a zigzag value encodes: 0, 1, 2, 3, 4 … are 0, -1, 1, -2, 2 ….
pub open spec fn zigzag(n: nat) -> int {
    if n % 2 == 0 {
        (n / 2) as int
    } else {
        -((n / 2) as int) - 1
    }
}

/// Map an unsigned zigzag value back to the signed integer it encodes.
pub fn zigzag_decode(n: u64) -> (v: i64)
    ensures
        v == zigzag(n as nat),
{
    let half = (n / 2) as i64;
    if n % 2 == 0 {
        half
    } else {
        -half - 1
    }
}

/// The IEEE CRC-32 polynomial, bit-reversed.
pub open spec fn crc_poly() -> u32 {
    0xedb8_8320u32
}

/// One bit of CRC-32 division: shift right, and subtract the polynomial when a one fell out.
pub open spec fn crc_bit(c: u32) -> u32 {
    if c & 1 == 1 {
        (c >> 1) ^ crc_poly()
    } else {
        c >> 1
    }
}

/// `k` bits of CRC-32 division.
pub open spec fn crc_bits(c: u32, k: nat) -> u32
    decreases k,
{
    if k == 0 {
        c
    } else {
        crc_bit(crc_bits(c, (k - 1) as nat))
    }
}

/// The CRC register after taking in one byte.
pub open spec fn crc_byte(c: u32, b: u8) -> u32 {
    crc_bits(c ^ (b as u32), 8)
}

/// The CRC register after taking in every byte of `s`, starting from `c`.
pub open spec fn crc_update(c: u32, s: Seq<u8>) -> u32
    decreases s.len(),
{
    if s.len() == 0 {
        c
    } else {
        crc_byte(crc_update(c, s.drop_last()), s.last())
    }
}

/// The CRC-32 of a byte sequence: the register starts all ones and is inverted at the end.
pub open spec fn crc32_of(s: Seq<u8>) -> u32 {
    !crc_update(0xffff_ffffu32, s)
}

/// The CRC-32 checksum of `bytes`: the IEEE polynomial, as zlib and Ethernet compute it.
pub fn crc32(bytes: &[u8]) -> (c: u32)
    ensures
        c == crc32_of(bytes@),
{
    let mut crc: u32 = 0xffff_ffff;
    let mut i: usize = 0;
    while i < bytes.len()
        invariant
            i <= bytes@.len(),
            crc == crc_update(0xffff_ffffu32, bytes@.subrange(0, i as int)),
        decreases bytes@.len() - i,
    {
        let b = bytes[i];
        crc = crc ^ (b as u32);
        let ghost start = crc;
        let mut k: usize = 0;
        while k < 8
            invariant
                k <= 8,
                crc == crc_bits(start, k as nat),
            decreases 8 - k,
        {
            if crc & 1 == 1 {
                crc = (crc >> 1) ^ 0xedb8_8320u32;
            } else {
                crc = crc >> 1;
            }
            k = k + 1;
        }
        assert(bytes@.subrange(0, i + 1).drop_last() =~= bytes@.subrange(0, i as int));
        i = i + 1;
    }
    assert(bytes@.subrange(0, bytes@.len() as int) =~= bytes@);
    !crc
}

/// What reading a ULEB128 varint at some position comes to.
pub enum Uleb {
    /// The varint ends: its value, and how many bytes it took.
    Value(u64, nat),
    /// The data ended at this index before the varint did.
    End(int),
    /// Ten bytes, all with the continuation bit set.
    TooLong,
}

/// Reading a varint from byte `i` of its group onwards, with `acc` the bits read so far.
///
/// Group `i` carries bits `7i ..` of the value; bits that would lie past the 64th are lost.
pub open spec fn uleb_from(s: Seq<u8>, p: int, i: nat, acc: u64) -> Uleb
    decreases 10 - i,
{
    if i >= 10 {
        Uleb::TooLong
    } else if p + i >= s.len() {
        Uleb::End(p + i)
    } else {
        let b = s[p + i];
        let acc2 = acc | (((b & 0x7f) as u64) << ((7 * i) as u64));
        if b & 0x80 == 0 {
            Uleb::Value(acc2, i + 1)
        } else {
            uleb_from(s, p, i + 1, acc2)
        }
    }
}

/// A varint that ends takes between one and ten bytes, all of them inside the data.
pub proof fn lemma_uleb_from_len(s: Seq<u8>, p: int, i: nat, acc: u64)
    requires
        0 <= p,
    ensures
        uleb_from(s, p, i, acc) matches Uleb::Value(v, n) ==> i < n <= 10 && p + n <= s.len(),
        uleb_from(s, p, i, acc) matches Uleb::End(at) ==> p + i <= at && at >= s.len() && (p + i
            <= s.len() ==> at == s.len()),
    decreases 10 - i,
{
    if i < 10 && p + i < s.len() {
        lemma_uleb_from_len(s, p, i + 1, acc | (((s[p + i] & 0x7f) as u64) << ((7 * i) as u64)));
    }
}

/// Reading a ULEB128 varint that starts at index `p` of `s`.
pub open spec fn uleb(s: Seq<u8>, p: int) -> Uleb {
    uleb_from(s, p, 0, 0)
}

/// A cursor over a slice of bytes that knows the absolute file offset of its first byte.
#[derive(Debug)]
pub struct ByteReader<'a> {
    data: &'a [u8],
    base: u64,
    pos: usize,
}

impl<'a> ByteReader<'a> {
    /// The cursor never passes the end of its data, and every offset fits in a `u64`.
    #[verifier::type_invariant]
    pub closed spec fn inv(self) -> bool {
        &&& self.pos <= self.data@.len()
        &&& self.base + self.data@.len() <= u64::MAX
    }

    /// The bytes the reader walks.
    pub closed spec fn bytes(&self) -> Seq<u8> {
        self.data@
    }

    /// The file offset of the first byte.
    pub closed spec fn base(&self) -> u64 {
        self.base
    }

    /// The index of the next byte to be read.
    pub closed spec fn pos(&self) -> nat {
        self.pos as nat
    }

    /// The absolute file offset of the next byte to be read.
    pub open spec fn at(&self) -> int {
        self.base() + self.pos()
    }

    /// The invariant, for callers: the position lies within the data.
    pub proof fn lemma_inv(r: ByteReader)
        requires
            r.inv(),
        ensures
            r.pos() <= r.bytes().len(),
            r.base() + r.bytes().len() <= u64::MAX,
    {
    }

    /// A reader over `data`, whose first byte is at file offset `base`.
    pub fn new(data: &'a [u8], base: u64) -> (r: ByteReader<'a>)
        requires
            base + data@.len() <= u64::MAX,
        ensures
            r.bytes() == data@,
            r.base() == base,
            r.pos() == 0,
    {
        ByteReader { data, base, pos: 0 }
    }

    /// The absolute file offset of the next byte to be read.
    pub fn offset(&self) -> (o: u64)
        ensures
            o == self.at(),
    {
        proof {
            use_type_invariant(self);
        }
        self.base + self.pos as u64
    }

    pub fn remaining(&self) -> (n: usize)
        ensures
            n == self.bytes().len() - self.pos(),
    {
        proof {
            use_type_invariant(self);
        }
        self.data.len() - self.pos
    }

    pub fn is_at_end(&self) -> (b: bool)
        ensures
            b == (self.pos() == self.bytes().len()),
    {
        self.pos == self.data.len()
    }

    pub fn read_u8(&mut self) -> (r: Result<u8, BytesError>)
        ensures
            final(self).bytes() == old(self).bytes(),
            final(self).base() == old(self).base(),
            old(self).pos() < old(self).bytes().len() ==> r == Ok::<u8, BytesError>(
                old(self).bytes()[old(self).pos() as int],
            ) && final(self).pos() == old(self).pos() + 1,
            old(self).pos() >= old(self).bytes().len() ==> r == Err::<u8, BytesError>(
                BytesError::UnexpectedEnd { offset: old(self).at() as u64, wanted: 1 },
            ) && final(self).pos() == old(self).pos(),
    {
        proof {
            use_type_invariant(&*self);
        }
        if self.pos < self.data.len() {
            let b = self.data[self.pos];
            self.pos = self.pos + 1;
            Ok(b)
        } else {
            Err(BytesError::UnexpectedEnd { offset: self.offset(), wanted: 1 })
        }
    }

    /// Take the next `n` bytes, and the span they came from.
    pub fn read_bytes(&mut self, n: usize) -> (r: Result<(&'a [u8], Span), BytesError>)
        ensures
            final(self).bytes() == old(self).bytes(),
            final(self).base() == old(self).base(),
            old(self).pos() + n <= old(self).bytes().len() ==> {
                &&& r is Ok
                &&& r->Ok_0.0@ == old(self).bytes().subrange(
                    old(self).pos() as int,
                    old(self).pos() + n,
                )
                &&& r->Ok_0.1 == Span {
                    start: old(self).at() as u64,
                    end: (old(self).at() + n) as u64,
                }
                &&& final(self).pos() == old(self).pos() + n
            },
            old(self).pos() + n > old(self).bytes().len() ==> r == Err::<(&'a [u8], Span), BytesError>(
                BytesError::UnexpectedEnd { offset: old(self).at() as u64, wanted: n as u64 },
            ) && final(self).pos() == old(self).pos(),
    {
        proof {
            use_type_invariant(&*self);
        }
        if self.remaining() < n {
            return Err(BytesError::UnexpectedEnd { offset: self.offset(), wanted: n as u64 });
        }
        let start = self.offset();
        let len = self.data.len();
        assert(self.pos + n <= len);
        let slice = slice_subrange(self.data, self.pos, self.pos + n);
        self.pos = self.pos + n;
        Ok((slice, Span::new(start, start + n as u64)))
    }

    pub fn read_le_u32(&mut self) -> (r: Result<u32, BytesError>)
        ensures
            final(self).bytes() == old(self).bytes(),
            final(self).base() == old(self).base(),
            old(self).pos() + 4 <= old(self).bytes().len() ==> r == Ok::<u32, BytesError>(
                le_u32_value(old(self).bytes().subrange(old(self).pos() as int, old(self).pos() + 4int))
                    as u32,
            ) && final(self).pos() == old(self).pos() + 4,
            old(self).pos() + 4 > old(self).bytes().len() ==> r == Err::<u32, BytesError>(
                BytesError::UnexpectedEnd { offset: old(self).at() as u64, wanted: 4 },
            ) && final(self).pos() == old(self).pos(),
    {
        let (b, _) = self.read_bytes(4)?;
        Ok(read_le_u32([b[0], b[1], b[2], b[3]]))
    }

    pub fn read_le_u64(&mut self) -> (r: Result<u64, BytesError>)
        ensures
            final(self).bytes() == old(self).bytes(),
            final(self).base() == old(self).base(),
            old(self).pos() + 8 <= old(self).bytes().len() ==> r == Ok::<u64, BytesError>(
                le_u64_value(old(self).bytes().subrange(old(self).pos() as int, old(self).pos() + 8int))
                    as u64,
            ) && final(self).pos() == old(self).pos() + 8,
            old(self).pos() + 8 > old(self).bytes().len() ==> r == Err::<u64, BytesError>(
                BytesError::UnexpectedEnd { offset: old(self).at() as u64, wanted: 8 },
            ) && final(self).pos() == old(self).pos(),
    {
        let (b, _) = self.read_bytes(8)?;
        let lo = read_le_u32([b[0], b[1], b[2], b[3]]) as u64;
        let hi = read_le_u32([b[4], b[5], b[6], b[7]]) as u64;
        proof {
            assert(b@.subrange(4, 8)[0] == b@[4]);
            assert(b@.subrange(4, 8)[1] == b@[5]);
            assert(b@.subrange(4, 8)[2] == b@[6]);
            assert(b@.subrange(4, 8)[3] == b@[7]);
        }
        Ok(lo + 4294967296 * hi)
    }

    /// Read an unsigned LEB128 varint: seven bits of value per byte, least significant group
    /// first, and the high bit set on every byte except the last.
    pub fn read_uleb128(&mut self) -> (r: Result<u64, BytesError>)
        ensures
            final(self).bytes() == old(self).bytes(),
            final(self).base() == old(self).base(),
            uleb_read_result(old(self).bytes(), old(self).base(), old(self).pos(), r, final(self).pos()),
    {
        let start = self.offset();
        let mut value: u64 = 0;
        let mut i: u64 = 0;
        let ghost s = self.bytes();
        let ghost p = self.pos();
        while i < 10
            invariant
                i <= 10,
                self.bytes() == s,
                s == old(self).bytes(),
                self.base() == old(self).base(),
                self.pos() == p + i,
                start == old(self).at(),
                p == old(self).pos(),
                uleb_from(s, p as int, i as nat, value) == uleb(s, p as int),
            decreases 10 - i,
        {
            proof {
                use_type_invariant(&*self);
            }
            let byte = match self.read_u8() {
                Ok(b) => b,
                Err(e) => {
                    return Err(e);
                },
            };
            value = value | (((byte & 0x7f) as u64) << (7 * i));
            i = i + 1;
            if byte & 0x80 == 0 {
                return Ok(value);
            }
        }
        Err(BytesError::VarintTooLong { offset: start })
    }

    /// A zigzag varint: how Thrift's compact protocol writes every signed integer.
    pub fn read_zigzag(&mut self) -> (r: Result<i64, BytesError>)
        ensures
            final(self).bytes() == old(self).bytes(),
            final(self).base() == old(self).base(),
            uleb_read_result(
                old(self).bytes(),
                old(self).base(),
                old(self).pos(),
                match r {
                    Ok(v) => Ok(uleb(old(self).bytes(), old(self).pos() as int)->Value_0),
                    Err(e) => Err(e),
                },
                final(self).pos(),
            ),
            r matches Ok(v) ==> v == zigzag(uleb(old(self).bytes(), old(self).pos() as int)->Value_0 as nat),
    {
        let n = self.read_uleb128()?;
        Ok(zigzag_decode(n))
    }
}

/// What reading a varint at `pos` returns, and where the reader ends up.
pub open spec fn uleb_read_result(
    s: Seq<u8>,
    base: u64,
    pos: nat,
    r: Result<u64, BytesError>,
    end: nat,
) -> bool {
    match uleb(s, pos as int) {
        Uleb::Value(v, n) => r == Ok::<u64, BytesError>(v) && end == pos + n,
        Uleb::End(at) => r == Err::<u64, BytesError>(
            BytesError::UnexpectedEnd { offset: (base + at) as u64, wanted: 1 },
        ) && end == at,
        Uleb::TooLong => r == Err::<u64, BytesError>(
            BytesError::VarintTooLong { offset: (base + pos) as u64 },
        ) && end == pos + 10,
    }
}

} // verus!
