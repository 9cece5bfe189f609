//! Compression: turning a page's compressed bytes back into its encoded bytes.
//!
//! A writer encodes a page's values first, then hands the encoded bytes to a general-purpose
//! compressor. The column chunk's metadata names the codec, and every page header gives both
//! sizes, so a reader knows how large the output will be before it starts.
//!
//! Three codecs are decoded here, each small enough to read in full:
//!
//! - **SNAPPY**, raw Snappy: literals and back-references, byte-aligned.
//! - **LZ4_RAW**, an LZ4 block: the same idea with a different layout.
//! - **GZIP**, a gzip member around a DEFLATE stream: back-references too, but written with
//!   Huffman codes, so the tokens are bit-aligned.
//!
//! ZSTD and BROTLI are not decoded: a page that needs them is reported as one this reader
//! cannot decompress.
//!
//! Every decoder records what it did as [`Token`]s: which compressed bytes it read, which output
//! bytes it wrote, and, for a back-reference, where in the output it copied them from.

use vstd::prelude::*;

use crate::bytes::{crc32, crc32_of, lemma_uleb_from_len, uleb, ByteReader, BytesError, Span, Uleb};
use crate::rle::{
    bits_at, le_bytes_value, le_value, lemma_two_to_add, lemma_two_to_mono, proof_two_to_31, read_bits,
    stream_bit, two_to,
};
use crate::text::{dec, dec_chars, hex_byte, push_chars, push_hex_byte, push_u64, str_eq};

verus! {

/// What one step of a decompressor did.
#[derive(Clone, Copy, Debug, PartialEq, Eq, Structural)]
pub enum TokenKind {
    /// Bytes that describe the stream rather than hold data: a length, a header, a checksum.
    Header,
    /// Output bytes copied from the input as they are.
    Literal,
    /// Output bytes copied from earlier in the output: `distance` bytes back.
    Copy { distance: u64 },
}

#[derive(Clone, Debug, PartialEq, Eq)]
pub struct Token {
    pub kind: TokenKind,
    pub label: String,
    /// The compressed bytes it read. For GZIP, whose codes are bit-aligned, the bytes that hold
    /// those bits.
    pub input: Span,
    /// The output bytes it wrote, as offsets into the decompressed page.
    pub output: Span,
    pub detail: String,
}

/// A token as a value.
pub struct TokenV {
    pub kind: TokenKind,
    pub label: Seq<char>,
    pub input: Span,
    pub output: Span,
    pub detail: Seq<char>,
}

impl View for Token {
    type V = TokenV;

    open spec fn view(&self) -> TokenV {
        TokenV {
            kind: self.kind,
            label: self.label@,
            input: self.input,
            output: self.output,
            detail: self.detail@,
        }
    }
}

/// A list of tokens as values.
pub open spec fn tokens_view(ts: Seq<Token>) -> Seq<TokenV> {
    ts.map_values(|t: Token| t@)
}

#[derive(Clone, Debug, PartialEq, Eq)]
pub struct Decompressed {
    pub bytes: Vec<u8>,
    pub tokens: Vec<Token>,
}

/// "1 byte", "2 bytes".
pub open spec fn n_bytes_text(n: nat) -> Seq<char> {
    if n == 1 {
        "1 byte"@
    } else {
        dec(n) + " bytes"@
    }
}

fn n_bytes(n: u128) -> (s: String)
    ensures
        s@ == n_bytes_text(n as nat),
{
    if n == 1 {
        "1 byte".to_owned()
    } else {
        let mut s = String::new();
        let digits = dec_chars(n);
        push_chars(&mut s, digits.as_slice());
        s.append(" bytes");
        s
    }
}

/// The span of file offsets of input bytes `start..end`, for input that starts at `base`.
pub open spec fn span_at(base: u64, start: int, end: int) -> Span {
    Span { start: (base + start) as u64, end: (base + end) as u64 }
}

fn span(base: u64, start: usize, end: usize) -> (s: Span)
    requires
        start <= end,
        base + end <= u64::MAX,
    ensures
        s == span_at(base, start as int, end as int),
{
    Span::new(base + start as u64, base + end as u64)
}

/// An output span `start..end`.
pub open spec fn out_span(start: int, end: int) -> Span {
    Span { start: start as u64, end: end as u64 }
}

/// The error when the compressed bytes end before a token does.
pub open spec fn end_error(at: int) -> Seq<char> {
    "the compressed bytes end at offset "@ + dec(at as nat) + ", mid-token"@
}

fn end_err(at: usize) -> (e: String)
    ensures
        e@ == end_error(at as int),
{
    let mut e = "the compressed bytes end at offset ".to_owned();
    push_u64(&mut e, at as u64);
    e.append(", mid-token");
    e
}

/// Reading `n` bytes at `at` as a little-endian number: its value, or the error at the first
/// byte that is missing.
pub open spec fn read_le(s: Seq<u8>, at: int, n: nat) -> Result<nat, Seq<char>> {
    if at + n <= s.len() {
        Ok(le_value(s.subrange(at, at + n)))
    } else {
        Err(end_error(if at >= s.len() { at } else { s.len() as int }))
    }
}

fn get(input: &[u8], at: usize) -> (r: Result<u8, String>)
    ensures
        match r {
            Ok(b) => at < input@.len() && b == input@[at as int],
            Err(e) => at >= input@.len() && e@ == end_error(at as int),
        },
{
    if at < input.len() {
        Ok(input[at])
    } else {
        Err(end_err(at))
    }
}

/// Little-endian, `n` bytes.
fn le(input: &[u8], at: usize, n: usize) -> (r: Result<u32, String>)
    requires
        1 <= n <= 4,
    ensures
        match read_le(input@, at as int, n as nat) {
            Ok(v) => r matches Ok(x) && x == v && v < two_to(8 * n as nat),
            Err(m) => r matches Err(e) && e@ == m,
        },
{
    if at >= input.len() {
        return Err(end_err(at));
    }
    if input.len() - at < n {
        return Err(end_err(input.len()));
    }
    let v = le_bytes_value(vstd::slice::slice_subrange(input, at, at + n));
    Ok(v)
}

/// What copying `len` bytes from `distance` bytes back appends: the last `distance` bytes
/// written, repeated as often as it takes. A distance shorter than the length repeats bytes
/// that the copy itself writes.
pub open spec fn copied(out: Seq<u8>, distance: nat, len: nat) -> Seq<u8> {
    out + Seq::new(len, |k: int| out[out.len() - distance + k % (distance as int)])
}

/// The error of a copy that reaches back past the start of the output.
pub open spec fn copy_error(distance: nat, written: nat) -> Seq<char> {
    "a copy reaches "@ + dec(distance) + " bytes back, and only "@ + dec(written)
        + " bytes have been written"@
}

/// Whether a copy can be made: it reaches back at least one byte and no further than the start.
pub open spec fn copy_fits(out: Seq<u8>, distance: nat) -> bool {
    0 < distance <= out.len()
}

/// Copy `len` bytes from `distance` bytes back in `out`. The source may overlap the bytes being
/// written: a distance of one repeats the last byte `len` times. So the copy is byte by byte.
fn copy_back(out: &mut Vec<u8>, distance: u64, len: u128) -> (r: Result<(), String>)
    ensures
        copy_fits(old(out)@, distance as nat) ==> r is Ok && final(out)@ == copied(
            old(out)@,
            distance as nat,
            len as nat,
        ),
        !copy_fits(old(out)@, distance as nat) ==> final(out)@ == old(out)@ && (r matches Err(e)
            && e@ == copy_error(distance as nat, old(out)@.len())),
{
    if distance == 0 || distance > out.len() as u64 {
        let mut e = "a copy reaches ".to_owned();
        push_u64(&mut e, distance);
        e.append(" bytes back, and only ");
        push_u64(&mut e, out.len() as u64);
        e.append(" bytes have been written");
        return Err(e);
    }
    let ghost start = out@;
    let d = distance as usize;
    let from = out.len() - d;
    let mut k: u128 = 0;
    let mut j: usize = from;
    while k < len
        invariant
            j == from + k,
            0 < d <= start.len(),
            d == distance,
            from == start.len() - d,
            k <= len,
            out@ == copied(start, d as nat, k as nat),
        decreases len - k,
    {
        let ghost before = out@;
        assert(before.len() == start.len() + k);
        let ghost kk = k as int;
        let ghost dd = d as int;
        let ghost want = start[start.len() - dd + kk % dd];
        proof {
            if kk >= dd {
                vstd::arithmetic::div_mod::lemma_mod_sub_multiples_vanish(kk, dd);
                assert(before[from + kk] == before[start.len() + (kk - dd)]);
            } else {
                vstd::arithmetic::div_mod::lemma_small_mod(kk as nat, dd as nat);
            }
        }
        let n = out.len();
        assert(j < n);
        let b = out[j];
        assert(b == want);
        out.push(b);
        k = k + 1;
        j = j + 1;
        assert(out@ =~= copied(start, d as nat, k as nat));
    }
    Ok(())
}


/// The length and distance of a Snappy copy whose tag is at `i`, and where the element ends.
///
/// ```text
/// 01  copy, 1-byte offset  length 4..11 in three bits, offset in three bits and the next byte
/// 10  copy, 2-byte offset  length 1..64 in the top six bits, offset in the next two bytes
/// 11  copy, 4-byte offset  length 1..64 in the top six bits, offset in the next four bytes
/// ```
pub open spec fn snappy_copy_fields(s: Seq<u8>, i: int) -> Result<(nat, nat, int), Seq<char>> {
    let tag = s[i];
    if tag % 4 == 1 {
        if i + 1 >= s.len() {
            Err(end_error(i + 1))
        } else {
            Ok(((4 + (tag / 4) % 8) as nat, ((tag / 32) * 256 + s[i + 1]) as nat, i + 2))
        }
    } else {
        let n: nat = if tag % 4 == 2 { 2 } else { 4 };
        match read_le(s, i + 1, n) {
            Ok(d) => Ok(((1 + tag / 4) as nat, d, i + 1 + n)),
            Err(e) => Err(e),
        }
    }
}

/// The length of a Snappy literal whose tag is at `i`, and where its bytes start: the length
/// minus one is in the tag's top six bits, or, where those say 60 to 63, in the next one to four
/// bytes.
pub open spec fn snappy_literal_len(s: Seq<u8>, i: int) -> Result<(nat, int), Seq<char>> {
    let short = (s[i] / 4) as nat;
    if short >= 60 {
        let extra = (short - 59) as nat;
        match read_le(s, i + 1, extra) {
            Ok(v) => Ok((v + 1, i + 1 + extra)),
            Err(e) => Err(e),
        }
    } else {
        Ok((short + 1, i + 1))
    }
}

/// One Snappy element, whose tag is at `i`, decoded after `out` has been written: where the next
/// element starts, the output after it, and its token.
pub open spec fn snappy_element(s: Seq<u8>, base: u64, i: int, out: Seq<u8>) -> Result<
    (int, Seq<u8>, TokenV),
    Seq<char>,
> {
    let tag = s[i];
    if tag % 4 == 0 {
        match snappy_literal_len(s, i) {
            Err(e) => Err(e),
            Ok((len, p)) => if p + len > s.len() {
                Err("a literal runs past the end of the compressed bytes"@)
            } else {
                let out2 = out + s.subrange(p, p + len);
                Ok(
                    (
                        p + len,
                        out2,
                        TokenV {
                            kind: TokenKind::Literal,
                            label: "literal"@,
                            input: span_at(base, i, p + len),
                            output: out_span(out.len() as int, out2.len() as int),
                            detail: "tag "@ + hex_byte(tag) + ": a literal, the next "@
                                + n_bytes_text(len),
                        },
                    ),
                )
            },
        }
    } else {
        match snappy_copy_fields(s, i) {
            Err(e) => Err(e),
            Ok((len, distance, p)) => if !copy_fits(out, distance) {
                Err(copy_error(distance, out.len()))
            } else {
                let out2 = copied(out, distance, len);
                Ok(
                    (
                        p,
                        out2,
                        TokenV {
                            kind: TokenKind::Copy { distance: distance as u64 },
                            label: "copy"@,
                            input: span_at(base, i, p),
                            output: out_span(out.len() as int, out2.len() as int),
                            detail: "tag "@ + hex_byte(tag) + ": copy "@ + n_bytes_text(len)
                                + " from "@ + dec(distance) + " back"@,
                        },
                    ),
                )
            },
        }
    }
}

/// An element that decodes ends after its tag and inside the input.
pub proof fn lemma_snappy_element_ends(s: Seq<u8>, base: u64, i: int, out: Seq<u8>)
    requires
        0 <= i < s.len(),
    ensures
        snappy_element(s, base, i, out) matches Ok((j, o, t)) ==> i < j <= s.len(),
{
}

/// The two bytes a Snappy writer emits for a copy of `len` bytes from `distance` back with a
/// 1-byte offset: a tag holding `len - 4` in bits 2..4 and the offset's high three bits in bits
/// 5..7, then the offset's low byte.
pub open spec fn snappy_copy1_bytes(len: nat, distance: nat) -> Seq<u8> {
    seq![(1 + 4 * (len - 4) + 32 * (distance / 256)) as u8, (distance % 256) as u8]
}

/// A copy with a 1-byte offset decodes to what was written: every length from 4 to 11 and every
/// offset from 1 to 2047 (the high three bits in the tag, the low eight in the next byte) that
/// reaches no further back than the start copies `len` bytes from exactly `distance` bytes back.
pub proof fn lemma_snappy_copy1_round_trip(
    s: Seq<u8>,
    base: u64,
    i: int,
    out: Seq<u8>,
    len: nat,
    distance: nat,
)
    requires
        4 <= len <= 11,
        1 <= distance <= 2047,
        distance <= out.len(),
        0 <= i,
        i + 2 <= s.len(),
        s.subrange(i, i + 2) == snappy_copy1_bytes(len, distance),
    ensures
        snappy_element(s, base, i, out) matches Ok((j, o, t)) && j == i + 2 && o.len() == out.len()
            + len && o.subrange(0, out.len() as int) == out && forall|k: int|
            0 <= k < len ==> #[trigger] o[out.len() + k] == out[out.len() - distance + k % (
            distance as int)],
{
    let hi = distance / 256;
    let lo = distance % 256;
    let l = (len - 4) as nat;
    assert(hi < 8 && lo < 256);
    let tag_val: int = (1 + 4 * l + 32 * hi) as int;
    assert(0 <= tag_val < 256);
    assert(s[i] == snappy_copy1_bytes(len, distance)[0]);
    assert(s[i + 1] == snappy_copy1_bytes(len, distance)[1]);
    assert(s[i] == tag_val);
    assert(s[i + 1] == lo);
    assert(tag_val % 4 == 1 && (tag_val / 4) % 8 == l && tag_val / 32 == hi) by (nonlinear_arith)
        requires
            tag_val == 1 + 4 * l + 32 * hi,
            0 <= l < 8,
            0 <= hi < 8,
    ;
    assert(hi * 256 + lo == distance);
    assert(snappy_copy_fields(s, i) == Ok::<(nat, nat, int), Seq<char>>((len, distance, i + 2)));
    let o = copied(out, distance, len);
    assert(o.subrange(0, out.len() as int) =~= out);
}

/// The three bytes a Snappy writer emits for a copy of `len` bytes from `distance` back with a
/// 2-byte offset: a tag holding `len - 1` in its top six bits, then the offset, little-endian.
pub open spec fn snappy_copy2_bytes(len: nat, distance: nat) -> Seq<u8> {
    seq![(2 + 4 * (len - 1)) as u8, (distance % 256) as u8, (distance / 256) as u8]
}

/// A copy with a 2-byte offset decodes to what was written: every length from 1 to 64 and every
/// offset from 1 to 65535 that reaches no further back than the start copies `len` bytes from
/// exactly `distance` bytes back.
pub proof fn lemma_snappy_copy2_round_trip(
    s: Seq<u8>,
    base: u64,
    i: int,
    out: Seq<u8>,
    len: nat,
    distance: nat,
)
    requires
        1 <= len <= 64,
        1 <= distance <= 65535,
        distance <= out.len(),
        0 <= i,
        i + 3 <= s.len(),
        s.subrange(i, i + 3) == snappy_copy2_bytes(len, distance),
    ensures
        snappy_element(s, base, i, out) matches Ok((j, o, t)) && j == i + 3 && o.len() == out.len()
            + len && o.subrange(0, out.len() as int) == out && forall|k: int|
            0 <= k < len ==> #[trigger] o[out.len() + k] == out[out.len() - distance + k % (
            distance as int)],
{
    let l = (len - 1) as nat;
    let tag_val: int = (2 + 4 * l) as int;
    assert(0 <= tag_val < 256);
    assert(s[i] == snappy_copy2_bytes(len, distance)[0]);
    assert(s[i + 1] == snappy_copy2_bytes(len, distance)[1]);
    assert(s[i + 2] == snappy_copy2_bytes(len, distance)[2]);
    assert(s[i] == tag_val);
    assert(tag_val % 4 == 2 && tag_val / 4 == l) by (nonlinear_arith)
        requires
            tag_val == 2 + 4 * l,
            0 <= l < 64,
    ;
    let b = s.subrange(i + 1, i + 3);
    assert(b.drop_last() =~= seq![s[i + 1]]);
    assert(seq![s[i + 1]].drop_last() =~= Seq::<u8>::empty());
    reveal_with_fuel(two_to, 9);
    assert(two_to(8) == 256 && two_to(0) == 1);
    assert(b.len() == 2 && b.last() == s[i + 2]);
    assert(le_value(Seq::<u8>::empty()) == 0);
    let one = seq![s[i + 1]];
    assert(one.len() == 1 && one.last() == s[i + 1]);
    assert(one.drop_last() =~= Seq::<u8>::empty());
    assert(le_value(one) == le_value(one.drop_last()) + (one.last() as nat) * two_to(0));
    assert(le_value(one) == s[i + 1]);
    assert(le_value(b) == s[i + 1] + s[i + 2] * 256);
    assert(le_value(b) == distance);
    assert(snappy_copy_fields(s, i) == Ok::<(nat, nat, int), Seq<char>>((len, distance, i + 3)));
    let o = copied(out, distance, len);
    assert(o.subrange(0, out.len() as int) =~= out);
}

/// The bytes a Snappy writer emits for a literal of one to sixty bytes: a tag holding the length
/// minus one in its top six bits, then the bytes themselves.
pub open spec fn snappy_short_literal(data: Seq<u8>) -> Seq<u8> {
    seq![(4 * (data.len() - 1)) as u8] + data
}

/// A short literal decodes to what was written: its bytes are appended to the output as they
/// stand, and the next element starts right after them.
pub proof fn lemma_snappy_literal_round_trip(
    s: Seq<u8>,
    base: u64,
    i: int,
    out: Seq<u8>,
    data: Seq<u8>,
)
    requires
        1 <= data.len() <= 60,
        0 <= i,
        i + 1 + data.len() <= s.len(),
        s.subrange(i, i + 1 + data.len()) == snappy_short_literal(data),
    ensures
        snappy_element(s, base, i, out) matches Ok((j, o, t)) && j == i + 1 + data.len() && o
            == out + data,
{
    let n = data.len();
    let l = (n - 1) as nat;
    let tag_val: int = (4 * l) as int;
    assert(s[i] == snappy_short_literal(data)[0]);
    assert(s[i] == tag_val);
    assert(tag_val % 4 == 0 && tag_val / 4 == l) by (nonlinear_arith)
        requires
            tag_val == 4 * l,
            0 <= l < 60,
    ;
    assert(snappy_literal_len(s, i) == Ok::<(nat, int), Seq<char>>((n, i + 1)));
    assert forall|k: int| 0 <= k < n implies #[trigger] s.subrange(i + 1, i + 1 + n)[k] == data[k] by {
        assert(s[i + 1 + k] == snappy_short_literal(data)[1 + k]);
    }
    assert(s.subrange(i + 1, i + 1 + n) =~= data);
}

/// The five bytes a Snappy writer emits for a copy of `len` bytes from `distance` back with a
/// 4-byte offset: a tag holding `len - 1` in its top six bits, then the offset, little-endian.
pub open spec fn snappy_copy4_bytes(len: nat, distance: u32) -> Seq<u8> {
    seq![
        (3 + 4 * (len - 1)) as u8,
        (distance & 0xff) as u8,
        ((distance >> 8u32) & 0xff) as u8,
        ((distance >> 16u32) & 0xff) as u8,
        (distance >> 24u32) as u8,
    ]
}

proof fn lemma_le_value_4(b: Seq<u8>)
    requires
        b.len() == 4,
    ensures
        le_value(b) == b[0] + 256 * b[1] + 65536 * b[2] + 16777216 * b[3],
{
    reveal_with_fuel(two_to, 25);
    assert(two_to(0) == 1 && two_to(8) == 256 && two_to(16) == 65536 && two_to(24) == 16777216);
    let b3 = b.drop_last();
    let b2 = b3.drop_last();
    let b1 = b2.drop_last();
    assert(b1.drop_last() =~= Seq::<u8>::empty());
    assert(b1.last() == b[0] && b2.last() == b[1] && b3.last() == b[2] && b.last() == b[3]);
    assert(b1.len() == 1 && b2.len() == 2 && b3.len() == 3);
    assert(le_value(Seq::<u8>::empty()) == 0);
    assert(le_value(b1) == le_value(b1.drop_last()) + (b1.last() as nat) * two_to(0));
    assert(le_value(b1) == b[0]);
    assert(le_value(b2) == le_value(b1) + (b2.last() as nat) * two_to(8));
    assert(le_value(b2) == b[0] + 256 * b[1]);
    assert(le_value(b3) == le_value(b2) + (b3.last() as nat) * two_to(16));
    assert(le_value(b3) == b[0] + 256 * b[1] + 65536 * b[2]);
    assert(le_value(b) == le_value(b3) + (b.last() as nat) * two_to(24));
}

/// A copy with a 4-byte offset decodes to what was written: every length from 1 to 64 and every
/// nonzero offset that reaches no further back than the start copies `len` bytes from exactly
/// `distance` bytes back.
pub proof fn lemma_snappy_copy4_round_trip(
    s: Seq<u8>,
    base: u64,
    i: int,
    out: Seq<u8>,
    len: nat,
    distance: u32,
)
    requires
        1 <= len <= 64,
        1 <= distance <= out.len(),
        0 <= i,
        i + 5 <= s.len(),
        s.subrange(i, i + 5) == snappy_copy4_bytes(len, distance),
    ensures
        snappy_element(s, base, i, out) matches Ok((j, o, t)) && j == i + 5 && o.len() == out.len()
            + len && o.subrange(0, out.len() as int) == out && forall|k: int|
            0 <= k < len ==> #[trigger] o[out.len() + k] == out[out.len() - distance + k % (
            distance as int)],
{
    let l = (len - 1) as nat;
    let tag_val: int = (3 + 4 * l) as int;
    let e = snappy_copy4_bytes(len, distance);
    assert(s[i] == e[0] && s[i + 1] == e[1] && s[i + 2] == e[2] && s[i + 3] == e[3] && s[i + 4]
        == e[4]);
    assert(s[i] == tag_val);
    assert(tag_val % 4 == 3 && tag_val / 4 == l) by (nonlinear_arith)
        requires
            tag_val == 3 + 4 * l,
            0 <= l < 64,
    ;
    let b = s.subrange(i + 1, i + 5);
    lemma_le_value_4(b);
    let d = distance;
    assert((d & 0xff) + 256 * ((d >> 8u32) & 0xff) + 65536 * ((d >> 16u32) & 0xff) + 16777216 * (d
        >> 24u32) == d) by (bit_vector);
    assert(d & 0xff < 256 && (d >> 8u32) & 0xff < 256 && (d >> 16u32) & 0xff < 256 && d >> 24u32
        < 256) by (bit_vector);
    assert(le_value(b) == distance);
    assert(snappy_copy_fields(s, i) == Ok::<(nat, nat, int), Seq<char>>(
        (len, distance as nat, i + 5),
    ));
    let o = copied(out, distance as nat, len);
    assert(o.subrange(0, out.len() as int) =~= out);
}

/// The bytes a Snappy writer emits for a literal of 61 to 256 bytes: the tag that says "the
/// length minus one follows in one byte", that byte, then the bytes themselves.
pub open spec fn snappy_long_literal(data: Seq<u8>) -> Seq<u8> {
    seq![240u8, (data.len() - 1) as u8] + data
}

/// A literal whose length is in the byte after its tag decodes to what was written.
pub proof fn lemma_snappy_long_literal_round_trip(
    s: Seq<u8>,
    base: u64,
    i: int,
    out: Seq<u8>,
    data: Seq<u8>,
)
    requires
        61 <= data.len() <= 256,
        0 <= i,
        i + 2 + data.len() <= s.len(),
        s.subrange(i, i + 2 + data.len()) == snappy_long_literal(data),
    ensures
        snappy_element(s, base, i, out) matches Ok((j, o, t)) && j == i + 2 + data.len() && o
            == out + data,
{
    let n = data.len();
    assert(s[i] == snappy_long_literal(data)[0]);
    assert(s[i + 1] == snappy_long_literal(data)[1]);
    assert(s[i] == 240 && s[i + 1] == n - 1);
    let b = s.subrange(i + 1, i + 2);
    assert(b.len() == 1 && b.last() == s[i + 1]);
    assert(b.drop_last() =~= Seq::<u8>::empty());
    assert(two_to(0) == 1);
    assert(le_value(b) == le_value(b.drop_last()) + (b.last() as nat) * two_to(0));
    assert(le_value(b) == n - 1);
    assert(snappy_literal_len(s, i) == Ok::<(nat, int), Seq<char>>((n, i + 2)));
    assert forall|k: int| 0 <= k < n implies #[trigger] s.subrange(i + 2, i + 2 + n)[k] == data[k] by {
        assert(s[i + 2 + k] == snappy_long_literal(data)[2 + k]);
    }
    assert(s.subrange(i + 2, i + 2 + n) =~= data);
}

/// The elements from the one at `i` to the end of the input, decoded after `out` and `toks`.
pub open spec fn snappy_elements(
    s: Seq<u8>,
    base: u64,
    i: int,
    out: Seq<u8>,
    toks: Seq<TokenV>,
) -> Result<(Seq<u8>, Seq<TokenV>), Seq<char>>
    decreases s.len() - i,
{
    if i < 0 || i >= s.len() {
        Ok((out, toks))
    } else {
        match snappy_element(s, base, i, out) {
            Err(e) => Err(e),
            Ok((j, out2, t)) => {
                proof {
                    lemma_snappy_element_ends(s, base, i, out);
                }
                snappy_elements(s, base, j, out2, toks.push(t))
            },
        }
    }
}

/// The token of a Snappy stream's length: `n` bytes that say the output is `size` bytes.
pub open spec fn snappy_header(base: u64, size: u64, n: nat) -> TokenV {
    TokenV {
        kind: TokenKind::Header,
        label: "length"@,
        input: span_at(base, 0, n as int),
        output: out_span(0, 0),
        detail: "varint: the output is "@ + dec(size as nat) + " bytes"@,
    }
}

/// What decompressing raw Snappy gives: a varint giving the output length, then elements, which
/// must write exactly that many bytes.
pub open spec fn snappy_result(s: Seq<u8>, base: u64) -> Result<(Seq<u8>, Seq<TokenV>), Seq<char>> {
    match uleb(s, 0) {
        Uleb::End(at) => Err(end_error(at)),
        Uleb::TooLong => Err(end_error(10)),
        Uleb::Value(size, n) => {
            match snappy_elements(s, base, n as int, seq![], seq![snappy_header(base, size, n)]) {
                Err(e) => Err(e),
                Ok((out, toks)) => if out.len() != size {
                    Err(
                        "Snappy promised "@ + dec(size as nat) + " bytes and its elements wrote "@
                            + dec(out.len()),
                    )
                } else {
                    Ok((out, toks))
                },
            }
        },
    }
}

/// Whether reading the length would shift past the width of the integer that holds it: ten
/// bytes that all say "more follows", and an eleventh to read.
pub open spec fn snappy_length_overflows(s: Seq<u8>) -> bool {
    uleb(s, 0) is TooLong && s.len() > 10
}

/// Whether a decompressor's result is the one a spec gives.
pub open spec fn decompressed_as(
    r: Result<Decompressed, String>,
    want: Result<(Seq<u8>, Seq<TokenV>), Seq<char>>,
) -> bool {
    match want {
        Ok((bytes, toks)) => r matches Ok(d) && d.bytes@ == bytes && tokens_view(d.tokens@) == toks,
        Err(m) => r matches Err(e) && e@ == m,
    }
}

fn snappy_step(input: &[u8], base: u64, i: usize, out: &mut Vec<u8>) -> (r: Result<
    (usize, Token),
    String,
>)
    requires
        i < input@.len(),
        base + input@.len() <= u64::MAX,
    ensures
        match snappy_element(input@, base, i as int, old(out)@) {
            Ok((j, o, t)) => r matches Ok((jj, tok)) && jj == j && final(out)@ == o && tok@ == t,
            Err(m) => r matches Err(e) && e@ == m,
        },
{
    let tag = input[i];
    let at = out.len() as u64;
    if tag % 4 == 0 {
        let mut len: u64 = (tag / 4) as u64;
        let mut p = i + 1;
        if len >= 60 {
            let extra = (len - 59) as usize;
            len = match le(input, p, extra) {
                Ok(v) => v as u64,
                Err(e) => return Err(e),
            };
            p = p + extra;
        }
        len = len + 1;
        if p as u128 + len as u128 > input.len() as u128 {
            return Err("a literal runs past the end of the compressed bytes".to_owned());
        }
        let end = p + len as usize;
        let bytes = vstd::slice::slice_subrange(input, p, end);
        let ghost before = out@;
        let mut k: usize = 0;
        while k < bytes.len()
            invariant
                k <= bytes@.len(),
                out@ == before + bytes@.subrange(0, k as int),
            decreases bytes@.len() - k,
        {
            out.push(bytes[k]);
            k = k + 1;
            assert(out@ =~= before + bytes@.subrange(0, k as int));
        }
        assert(bytes@.subrange(0, bytes@.len() as int) =~= bytes@);
        let mut detail = "tag ".to_owned();
        push_hex_byte(&mut detail, tag);
        detail.append(": a literal, the next ");
        let nb = n_bytes(len as u128);
        detail.append(nb.as_str());
        Ok(
            (
                end,
                Token {
                    kind: TokenKind::Literal,
                    label: "literal".to_owned(),
                    input: span(base, i, end),
                    output: Span::new(at, out.len() as u64),
                    detail,
                },
            ),
        )
    } else {
        let (len, distance, p): (u64, u64, usize) = if tag % 4 == 1 {
            let b = match get(input, i + 1) {
                Ok(b) => b,
                Err(e) => return Err(e),
            };
            ((4 + (tag / 4) % 8) as u64, (tag / 32) as u64 * 256 + b as u64, i + 2)
        } else {
            let n: usize = if tag % 4 == 2 { 2 } else { 4 };
            let d = match le(input, i + 1, n) {
                Ok(d) => d,
                Err(e) => return Err(e),
            };
            ((1 + tag / 4) as u64, d as u64, i + 1 + n)
        };
        match copy_back(out, distance, len as u128) {
            Ok(()) => {},
            Err(e) => return Err(e),
        }
        let mut detail = "tag ".to_owned();
        push_hex_byte(&mut detail, tag);
        detail.append(": copy ");
        let nb = n_bytes(len as u128);
        detail.append(nb.as_str());
        detail.append(" from ");
        push_u64(&mut detail, distance);
        detail.append(" back");
        Ok(
            (
                p,
                Token {
                    kind: TokenKind::Copy { distance },
                    label: "copy".to_owned(),
                    input: span(base, i, p),
                    output: Span::new(at, out.len() as u64),
                    detail,
                },
            ),
        )
    }
}

/// Raw Snappy: a varint giving the output length, then elements. Each element starts with a tag
/// byte whose low two bits say what it is:
///
/// ```text
/// 00  literal             length - 1 in the tag's top six bits; 60..63 mean "in the next 1..4 bytes"
/// 01  copy, 1-byte offset length 4..11 in three bits, offset in three bits and the next byte
/// 10  copy, 2-byte offset length 1..64 in the top six bits, offset in the next two bytes
/// 11  copy, 4-byte offset length 1..64 in the top six bits, offset in the next four bytes
/// ```
pub fn snappy(input: &[u8], base: u64) -> (r: Result<Decompressed, String>)
    requires
        base + input@.len() <= u64::MAX,
        !snappy_length_overflows(input@),
    ensures
        decompressed_as(r, snappy_result(input@, base)),
{
    let mut reader = ByteReader::new(input, base);
    let size = match reader.read_uleb128() {
        Ok(v) => v,
        Err(BytesError::UnexpectedEnd { offset, .. }) => {
            proof {
                lemma_uleb_from_len(input@, 0, 0, 0);
                assert(uleb(input@, 0) is End);
                assert(offset == base + input@.len());
            }
            return Err(end_err(input.len()));
        },
        Err(BytesError::VarintTooLong { .. }) => return Err(end_err(10)),
    };
    let i0 = input.len() - reader.remaining();
    proof {
        lemma_uleb_from_len(input@, 0, 0, 0);
    }
    let mut detail = "varint: the output is ".to_owned();
    push_u64(&mut detail, size);
    detail.append(" bytes");
    let mut tokens: Vec<Token> = Vec::new();
    tokens.push(
        Token {
            kind: TokenKind::Header,
            label: "length".to_owned(),
            input: span(base, 0, i0),
            output: Span::new(0, 0),
            detail,
        },
    );
    let ghost header = snappy_header(base, size, i0 as nat);
    assert(tokens_view(tokens@) =~= seq![header]);
    let mut out: Vec<u8> = Vec::new();
    let mut i = i0;
    while i < input.len()
        invariant
            i <= input@.len(),
            base + input@.len() <= u64::MAX,
            uleb(input@, 0) matches Uleb::Value(sz, n) && sz == size && i0 == n,
            snappy_elements(input@, base, i as int, out@, tokens_view(tokens@)) == snappy_elements(
                input@,
                base,
                i0 as int,
                seq![],
                seq![snappy_header(base, size, i0 as nat)],
            ),
        decreases input@.len() - i,
    {
        proof {
            lemma_snappy_element_ends(input@, base, i as int, out@);
        }
        let ghost out_before = out@;
        let ghost toks_before = tokens_view(tokens@);
        let (j, tok) = match snappy_step(input, base, i, &mut out) {
            Ok(x) => x,
            Err(e) => {
                assert(snappy_elements(input@, base, i as int, out_before, toks_before) == Err::<
                    (Seq<u8>, Seq<TokenV>),
                    Seq<char>,
                >(e@));
                return Err(e);
            },
        };
        let ghost before = tokens_view(tokens@);
        tokens.push(tok);
        assert(tokens_view(tokens@) =~= before.push(tok@));
        i = j;
    }
    if out.len() as u64 != size {
        let mut e = "Snappy promised ".to_owned();
        push_u64(&mut e, size);
        e.append(" bytes and its elements wrote ");
        push_u64(&mut e, out.len() as u64);
        return Err(e);
    }
    Ok(Decompressed { bytes: out, tokens })
}


/// An LZ4 length: a nibble, and where it says 15, the bytes that follow added to it, until one
/// is not 255. The length and where the next field starts.
pub open spec fn lz4_length(s: Seq<u8>, i: int, nibble: nat) -> Result<(nat, int), Seq<char>> {
    if nibble != 15 {
        Ok((nibble, i))
    } else {
        lz4_extension(s, i, 15)
    }
}

/// The bytes that extend an LZ4 length from index `i` on, added to `acc`.
pub open spec fn lz4_extension(s: Seq<u8>, i: int, acc: nat) -> Result<(nat, int), Seq<char>>
    decreases s.len() - i,
{
    if i >= s.len() {
        Err(end_error(i))
    } else if s[i] != 255 {
        Ok((acc + s[i] as nat, i + 1))
    } else {
        lz4_extension(s, i + 1, acc + 255)
    }
}

proof fn lemma_lz4_extension(s: Seq<u8>, i: int, acc: nat)
    requires
        0 <= i,
    ensures
        lz4_extension(s, i, acc) matches Ok((v, j)) ==> i < j <= s.len() && v <= acc + 255 * (j - i),
    decreases s.len() - i,
{
    if i < s.len() && s[i] == 255 {
        lemma_lz4_extension(s, i + 1, acc + 255);
    }
}

/// One LZ4 sequence, whose token is at `i`, decoded after `out`: where the next starts, the
/// output after it, and its tokens. The last sequence has literals and no match.
pub open spec fn lz4_sequence(s: Seq<u8>, base: u64, i: int, out: Seq<u8>) -> Result<
    (int, Seq<u8>, Seq<TokenV>),
    Seq<char>,
> {
    let token = s[i];
    match lz4_length(s, i + 1, (token / 16) as nat) {
        Err(e) => Err(e),
        Ok((lits, p)) => if p + lits > s.len() {
            Err("literals run past the end of the compressed bytes"@)
        } else {
            let q = p + lits;
            let out1 = out + s.subrange(p, q);
            let literal = TokenV {
                kind: TokenKind::Literal,
                label: "literals"@,
                input: span_at(base, i, q),
                output: out_span(out.len() as int, out1.len() as int),
                detail: "token "@ + hex_byte(token) + ": a literal, the next "@ + n_bytes_text(lits),
            };
            if q == s.len() {
                Ok((q, out1, seq![literal]))
            } else {
                match read_le(s, q, 2) {
                    Err(e) => Err(e),
                    Ok(distance) => match lz4_length(s, q + 2, (token % 16) as nat) {
                        Err(e) => Err(e),
                        Ok((m, r)) => if !copy_fits(out1, distance) {
                            Err(copy_error(distance, out1.len()))
                        } else {
                            let out2 = copied(out1, distance, m + 4);
                            Ok(
                                (
                                    r,
                                    out2,
                                    seq![
                                        literal,
                                        TokenV {
                                            kind: TokenKind::Copy { distance: distance as u64 },
                                            label: "match"@,
                                            input: span_at(base, q, r),
                                            output: out_span(out1.len() as int, out2.len() as int),
                                            detail: "copy "@ + n_bytes_text(m + 4) + " from "@
                                                + dec(distance) + " back"@,
                                        },
                                    ],
                                ),
                            )
                        },
                    },
                }
            }
        },
    }
}

/// A sequence that decodes ends after its token and inside the input.
pub proof fn lemma_lz4_sequence_ends(s: Seq<u8>, base: u64, i: int, out: Seq<u8>)
    requires
        0 <= i < s.len(),
    ensures
        lz4_sequence(s, base, i, out) matches Ok((j, o, t)) ==> i < j <= s.len(),
{
    lemma_lz4_extension(s, i + 1, 15);
    let token = s[i];
    if let Ok((lits, p)) = lz4_length(s, i + 1, (token / 16) as nat) {
        lemma_lz4_extension(s, p + lits + 2, 15);
    }
}

/// The sequences from the one at `i` to the end of the input.
pub open spec fn lz4_sequences(
    s: Seq<u8>,
    base: u64,
    i: int,
    out: Seq<u8>,
    toks: Seq<TokenV>,
) -> Result<(Seq<u8>, Seq<TokenV>), Seq<char>>
    decreases s.len() - i,
{
    if i < 0 || i >= s.len() {
        Ok((out, toks))
    } else {
        match lz4_sequence(s, base, i, out) {
            Err(e) => Err(e),
            Ok((j, out2, ts)) => {
                proof {
                    lemma_lz4_sequence_ends(s, base, i, out);
                }
                lz4_sequences(s, base, j, out2, toks + ts)
            },
        }
    }
}

fn lz4_len(input: &[u8], i: usize, nibble: u8) -> (r: Result<(u128, usize), String>)
    requires
        nibble < 16,
        i <= input@.len(),
    ensures
        match lz4_length(input@, i as int, nibble as nat) {
            Ok((v, j)) => r matches Ok((x, k)) && x == v && k == j,
            Err(m) => r matches Err(e) && e@ == m,
        },
{
    if nibble != 15 {
        return Ok((nibble as u128, i));
    }
    let mut n: u128 = 15;
    let mut k = i;
    let len = input.len();
    proof {
        lemma_lz4_extension(input@, i as int, 15);
    }
    loop
        invariant
            nibble == 15,
            len == input@.len(),
            i <= k <= input@.len(),
            n <= 15 + 255 * (k - i),
            lz4_extension(input@, k as int, n as nat) == lz4_extension(input@, i as int, 15),
        decreases input@.len() - k,
    {
        let b = match get(input, k) {
            Ok(b) => b,
            Err(e) => return Err(e),
        };
        k = k + 1;
        n = n + b as u128;
        if b != 255 {
            return Ok((n, k));
        }
    }
}

/// An LZ4 block: a run of sequences, each some literals and then one match.
///
/// ```text
/// token      literal length in the high four bits, match length - 4 in the low four;
///            15 in either means "add the bytes that follow, until one is not 255"
/// literals
/// offset     two bytes, little-endian: how far back the match starts
/// ```
///
/// The last sequence has literals and no match: the block ends after them.
pub open spec fn lz4_result(s: Seq<u8>, base: u64) -> Result<(Seq<u8>, Seq<TokenV>), Seq<char>> {
    lz4_sequences(s, base, 0, seq![], seq![])
}

fn lz4_step(input: &[u8], base: u64, i: usize, out: &mut Vec<u8>, tokens: &mut Vec<Token>) -> (r:
    Result<usize, String>)
    requires
        i < input@.len(),
        base + input@.len() <= u64::MAX,
    ensures
        match lz4_sequence(input@, base, i as int, old(out)@) {
            Ok((j, o, ts)) => r matches Ok(jj) && jj == j && final(out)@ == o && tokens_view(
                final(tokens)@,
            ) == tokens_view(old(tokens)@) + ts,
            Err(m) => r matches Err(e) && e@ == m,
        },
{
    let token = input[i];
    let (literals, p) = match lz4_len(input, i + 1, token / 16) {
        Ok(x) => x,
        Err(e) => return Err(e),
    };
    proof {
        lemma_lz4_extension(input@, i + 1, 15);
    }
    let at = out.len() as u64;
    if p as u128 + literals > input.len() as u128 {
        return Err("literals run past the end of the compressed bytes".to_owned());
    }
    let q = p + literals as usize;
    let bytes = vstd::slice::slice_subrange(input, p, q);
    let ghost before = out@;
    let mut k: usize = 0;
    while k < bytes.len()
        invariant
            k <= bytes@.len(),
            out@ == before + bytes@.subrange(0, k as int),
        decreases bytes@.len() - k,
    {
        out.push(bytes[k]);
        k = k + 1;
        assert(out@ =~= before + bytes@.subrange(0, k as int));
    }
    assert(bytes@.subrange(0, bytes@.len() as int) =~= bytes@);
    let mut detail = "token ".to_owned();
    push_hex_byte(&mut detail, token);
    detail.append(": a literal, the next ");
    let nb = n_bytes(literals);
    detail.append(nb.as_str());
    let ghost toks_before = tokens_view(tokens@);
    let literal = Token {
        kind: TokenKind::Literal,
        label: "literals".to_owned(),
        input: span(base, i, q),
        output: Span::new(at, out.len() as u64),
        detail,
    };
    let ghost literal_v = literal@;
    tokens.push(literal);
    assert(tokens_view(tokens@) =~= toks_before + seq![literal_v]);
    if q == input.len() {
        return Ok(q);
    }
    let distance = match le(input, q, 2) {
        Ok(d) => d as u64,
        Err(e) => return Err(e),
    };
    let (m, r) = match lz4_len(input, q + 2, token % 16) {
        Ok(x) => x,
        Err(e) => return Err(e),
    };
    proof {
        lemma_lz4_extension(input@, q + 2, 15);
    }
    let at2 = out.len() as u64;
    match copy_back(out, distance, m + 4) {
        Ok(()) => {},
        Err(e) => return Err(e),
    }
    let mut detail = "copy ".to_owned();
    let nb = n_bytes(m + 4);
    detail.append(nb.as_str());
    detail.append(" from ");
    push_u64(&mut detail, distance);
    detail.append(" back");
    let matched = Token {
        kind: TokenKind::Copy { distance },
        label: "match".to_owned(),
        input: span(base, q, r),
        output: Span::new(at2, out.len() as u64),
        detail,
    };
    let ghost matched_v = matched@;
    tokens.push(matched);
    assert(tokens_view(tokens@) =~= toks_before + seq![literal_v, matched_v]);
    Ok(r)
}

/// Decompress an LZ4 block. `size`, the size the page header gives, is only how much room to
/// make for the output.
pub fn lz4_raw(input: &[u8], base: u64, size: usize) -> (r: Result<Decompressed, String>)
    requires
        base + input@.len() <= u64::MAX,
    ensures
        decompressed_as(r, lz4_result(input@, base)),
{
    let mut tokens: Vec<Token> = Vec::new();
    let mut out: Vec<u8> = Vec::with_capacity(size);
    let mut i: usize = 0;
    assert(tokens_view(tokens@) =~= Seq::<TokenV>::empty());
    while i < input.len()
        invariant
            i <= input@.len(),
            base + input@.len() <= u64::MAX,
            lz4_sequences(input@, base, i as int, out@, tokens_view(tokens@)) == lz4_result(
                input@,
                base,
            ),
        decreases input@.len() - i,
    {
        proof {
            lemma_lz4_sequence_ends(input@, base, i as int, out@);
        }
        let ghost out_before = out@;
        let ghost toks_before = tokens_view(tokens@);
        match lz4_step(input, base, i, &mut out, &mut tokens) {
            Ok(j) => {
                i = j;
            },
            Err(e) => {
                assert(lz4_sequences(input@, base, i as int, out_before, toks_before) == Err::<
                    (Seq<u8>, Seq<TokenV>),
                    Seq<char>,
                >(e@));
                return Err(e);
            },
        }
    }
    Ok(Decompressed { bytes: out, tokens })
}


// ---- DEFLATE ------------------------------------------------------------------------------

/// DEFLATE reads bits least significant first. Bit `pos` of the stream, or the error at the
/// byte that would hold it.
pub open spec fn bit_at(s: Seq<u8>, pos: int) -> Result<nat, Seq<char>> {
    if pos + 1 <= s.len() * 8 {
        Ok(bits_at(s, pos as nat, 1))
    } else {
        Err(end_error(pos / 8))
    }
}

/// `n` bits from bit `pos` on, the first the least significant; or the error at the first byte
/// that is missing.
pub open spec fn bits_from(s: Seq<u8>, pos: int, n: nat) -> Result<nat, Seq<char>> {
    if pos + n <= s.len() * 8 {
        Ok(bits_at(s, pos as nat, n))
    } else {
        Err(end_error(if pos / 8 >= s.len() { pos / 8 } else { s.len() as int }))
    }
}

/// The file offsets of the bytes that hold bits `from..to`.
pub open spec fn bits_span(base: u64, from: int, to: int) -> Span {
    Span { start: (base + from / 8) as u64, end: (base + (to + 7) / 8) as u64 }
}

/// Read `n` bits at `*pos`, and move past them.
fn take_bits(data: &[u8], pos: &mut usize, n: u32) -> (r: Result<u32, String>)
    requires
        n <= 16,
        *old(pos) <= data@.len() * 8,
        data@.len() * 8 <= usize::MAX,
    ensures
        match bits_from(data@, *old(pos) as int, n as nat) {
            Ok(v) => r == Ok::<u32, String>(v as u32) && *final(pos) == *old(pos) + n && v < two_to(
                n as nat,
            ) && v < 0x1_0000,
            Err(m) => r matches Err(e) && e@ == m,
        },
        *final(pos) <= data@.len() * 8,
{
    let total = data.len() * 8;
    if n as usize > total - *pos {
        let at = *pos / 8;
        if at >= data.len() {
            return Err(end_err(at));
        }
        return Err(end_err(data.len()));
    }
    let v = read_bits(data, *pos as u128, n);
    proof {
        lemma_two_to_mono(n as nat, 16);
        proof_two_to_31();
        reveal_with_fuel(two_to, 17);
        assert(two_to(16) == 0x1_0000);
    }
    *pos = *pos + n as usize;
    Ok(v as u32)
}

/// The bytes holding bits `from..to`, as file offsets.
fn bit_span(base: u64, from: usize, to: usize, len: usize) -> (s: Span)
    requires
        from <= to <= len * 8,
        base + len <= u64::MAX,
    ensures
        s == bits_span(base, from as int, to as int),
{
    let end = to / 8 + if to % 8 == 0 { 0 } else { 1 };
    assert(end == (to + 7) / 8);
    Span::new(base + (from / 8) as u64, base + end as u64)
}

/// The symbols among the first `n` whose code is `k` bits long, in increasing order.
pub open spec fn with_len(ls: Seq<u8>, k: nat, n: int) -> Seq<u16>
    decreases n,
{
    if n <= 0 {
        Seq::empty()
    } else {
        with_len(ls, k, n - 1) + if ls[n - 1] == k {
            seq![(n - 1) as u16]
        } else {
            Seq::empty()
        }
    }
}

/// How many codes are `k` bits long.
pub open spec fn huff_count(ls: Seq<u8>, k: nat) -> nat {
    with_len(ls, k, ls.len() as int).len()
}

/// The symbols whose codes are 1 to `k - 1` bits long, shortest first, each length's in
/// increasing order: the order in which a canonical code assigns them codes.
pub open spec fn prefix_order(ls: Seq<u8>, k: nat) -> Seq<u16>
    decreases k,
{
    if k <= 1 {
        Seq::empty()
    } else {
        prefix_order(ls, (k - 1) as nat) + with_len(ls, (k - 1) as nat, ls.len() as int)
    }
}

proof fn lemma_prefix_order(ls: Seq<u8>, a: nat, b: nat)
    requires
        a <= b,
    ensures
        prefix_order(ls, a).len() <= prefix_order(ls, b).len(),
        forall|j: int|
            0 <= j < prefix_order(ls, a).len() ==> #[trigger] prefix_order(ls, b)[j] == prefix_order(
                ls,
                a,
            )[j],
    decreases b,
{
    if a < b {
        lemma_prefix_order(ls, a, (b - 1) as nat);
    }
}

/// A canonical Huffman code, as DEFLATE describes it: by each symbol's code length alone (zero
/// for a symbol that has no code). The codes of each length are consecutive integers, given to
/// the symbols of that length in increasing order, and each length's first code follows the
/// last code of the length before it, doubled.
///
/// Reading a code a bit at a time, most significant first: after `k` bits the code is either
/// among the codes `k` bits long, or longer.
pub open spec fn decode_from(ls: Seq<u8>, s: Seq<u8>, pos: int, k: nat, code: int, first: int) -> Result<
    (nat, int),
    Seq<char>,
>
    decreases 16 - k,
{
    if k >= 16 {
        Err("a Huffman code longer than fifteen bits"@)
    } else {
        match bit_at(s, pos) {
            Err(e) => Err(e),
            Ok(b) => {
                let c = code + b;
                let cnt = huff_count(ls, k);
                if c - first < cnt {
                    Ok((with_len(ls, k, ls.len() as int)[c - first] as nat, pos + 1))
                } else {
                    decode_from(ls, s, pos + 1, k + 1, 2 * c, 2 * (first + cnt))
                }
            },
        }
    }
}

/// The symbol whose code starts at bit `pos`, and the bit after it.
pub open spec fn huff_decode(ls: Seq<u8>, s: Seq<u8>, pos: int) -> Result<(nat, int), Seq<char>> {
    decode_from(ls, s, pos, 1, 0, 0)
}

pub proof fn lemma_decode_from_advances(ls: Seq<u8>, s: Seq<u8>, pos: int, k: nat, code: int, first: int)
    ensures
        decode_from(ls, s, pos, k, code, first) matches Ok((v, p)) ==> pos < p <= s.len() * 8,
    decreases 16 - k,
{
    if k < 16 && pos + 1 <= s.len() * 8 {
        let b = bits_at(s, pos as nat, 1);
        let c = code + b;
        lemma_decode_from_advances(ls, s, pos + 1, k + 1, 2 * c, 2 * (first + huff_count(ls, k)));
    }
}

/// Whether a list of code lengths describes a code this reader can hold: each length at most
/// fifteen, and few enough symbols to number with sixteen bits.
pub open spec fn lengths_ok(ls: Seq<u8>) -> bool {
    ls.len() <= 0xffff && forall|i: int| 0 <= i < ls.len() ==> #[trigger] ls[i] <= 15
}

/// `count[n]` is how many codes are `n` bits long, and `symbols` lists the symbols in code
/// order.
struct Huffman {
    count: Vec<u16>,
    symbols: Vec<u16>,
    lengths: Ghost<Seq<u8>>,
}

impl Huffman {
    spec fn wf(&self) -> bool {
        &&& lengths_ok(self.lengths@)
        &&& self.count@.len() == 16
        &&& forall|k: int| 1 <= k < 16 ==> #[trigger] self.count@[k] == huff_count(self.lengths@, k as nat)
        &&& self.symbols@ == prefix_order(self.lengths@, 16)
    }

    fn new(lengths: &[u8]) -> (h: Huffman)
        requires
            lengths_ok(lengths@),
        ensures
            h.wf(),
            h.lengths@ == lengths@,
    {
        let ghost ls = lengths@;
        let mut count: Vec<u16> = Vec::new();
        let mut k: usize = 0;
        while k < 16
            invariant
                k <= 16,
                count@.len() == k,
                forall|j: int| 0 <= j < k ==> #[trigger] count@[j] == 0,
            decreases 16 - k,
        {
            count.push(0);
            k = k + 1;
        }
        let mut i: usize = 0;
        while i < lengths.len()
            invariant
                ls == lengths@,
                lengths_ok(ls),
                i <= ls.len(),
                count@.len() == 16,
                forall|j: int| 0 <= j < 16 ==> #[trigger] count@[j] == with_len(ls, j as nat, i as int).len(),
            decreases ls.len() - i,
        {
            let l = lengths[i] as usize;
            let c = count[l];
            proof {
                assert(with_len(ls, l as nat, i as int).len() <= i) by {
                    lemma_with_len_bound(ls, l as nat, i as int);
                }
            }
            count.set(l, c + 1);
            i = i + 1;
            assert forall|j: int| 0 <= j < 16 implies #[trigger] count@[j] == with_len(
                ls,
                j as nat,
                i as int,
            ).len() by {}
        }
        let mut symbols: Vec<u16> = Vec::new();
        let mut len: usize = 1;
        while len < 16
            invariant
                ls == lengths@,
                lengths_ok(ls),
                1 <= len <= 16,
                symbols@ == prefix_order(ls, len as nat),
            decreases 16 - len,
        {
            let mut s: usize = 0;
            while s < lengths.len()
                invariant
                    ls == lengths@,
                    lengths_ok(ls),
                    1 <= len < 16,
                    s <= ls.len(),
                    symbols@ == prefix_order(ls, len as nat) + with_len(ls, len as nat, s as int),
                decreases ls.len() - s,
            {
                if lengths[s] as usize == len {
                    symbols.push(s as u16);
                }
                s = s + 1;
                assert(symbols@ =~= prefix_order(ls, len as nat) + with_len(ls, len as nat, s as int));
            }
            len = len + 1;
        }
        Huffman { count, symbols, lengths: Ghost(ls) }
    }

    /// Read one code a bit at a time.
    fn decode(&self, data: &[u8], pos: &mut usize) -> (r: Result<u16, String>)
        requires
            self.wf(),
            *old(pos) <= data@.len() * 8,
            data@.len() * 8 <= usize::MAX,
        ensures
            *final(pos) <= data@.len() * 8,
            match huff_decode(self.lengths@, data@, *old(pos) as int) {
                Ok((v, p)) => r == Ok::<u16, String>(v as u16) && *final(pos) == p,
                Err(m) => r matches Err(e) && e@ == m,
            },
    {
        let ghost ls = self.lengths@;
        let mut code: i64 = 0;
        let mut first: i64 = 0;
        let mut index: i64 = 0;
        let mut len: usize = 1;
        proof {
            reveal_with_fuel(two_to, 3);
        }
        while len < 16
            invariant
                self.wf(),
                ls == self.lengths@,
                *pos <= data@.len() * 8,
                data@.len() * 8 <= usize::MAX,
                1 <= len <= 16,
                0 <= first <= code,
                code + 2 <= two_to(len as nat + 1),
                index == prefix_order(ls, len as nat).len(),
                prefix_order(ls, len as nat).len() <= self.symbols@.len(),
                decode_from(ls, data@, *pos as int, len as nat, code as int, first as int) == huff_decode(
                    ls,
                    data@,
                    *old(pos) as int,
                ),
            decreases 16 - len,
        {
            proof {
                lemma_two_to_mono(len as nat + 2, 17);
                reveal_with_fuel(two_to, 18);
            }
            let b = take_bits(data, pos, 1)?;
            proof {
                reveal_with_fuel(two_to, 2);
            }
            code = code + b as i64;
            let cnt = self.count[len] as i64;
            proof {
                lemma_prefix_order(ls, len as nat, len as nat + 1);
                lemma_prefix_order(ls, len as nat + 1, 16);
            }
            proof {
                lemma_prefix_order_len(ls, 16);
                assert(16 * ls.len() <= 16 * 0xffff) by (nonlinear_arith)
                    requires
                        ls.len() <= 0xffff,
                ;
            }
            if code - first < cnt {
                let at = (index + (code - first)) as usize;
                assert(prefix_order(ls, len as nat + 1)[at as int] == with_len(
                    ls,
                    len as nat,
                    ls.len() as int,
                )[code - first]);
                return Ok(self.symbols[at]);
            }
            index = index + cnt;
            first = (first + cnt) * 2;
            code = code * 2;
            proof {
                lemma_two_to_add(len as nat + 1, 1);
                reveal_with_fuel(two_to, 2);
            }
            len = len + 1;
        }
        Err("a Huffman code longer than fifteen bits".to_owned())
    }
}

proof fn lemma_prefix_order_len(ls: Seq<u8>, k: nat)
    ensures
        prefix_order(ls, k).len() <= k * ls.len(),
    decreases k,
{
    if k > 1 {
        lemma_prefix_order_len(ls, (k - 1) as nat);
        lemma_with_len_bound(ls, (k - 1) as nat, ls.len() as int);
        assert((k - 1) * ls.len() + ls.len() == k * ls.len()) by (nonlinear_arith);
    }
}

proof fn lemma_with_len_bound(ls: Seq<u8>, k: nat, n: int)
    ensures
        n >= 0 ==> with_len(ls, k, n).len() <= n,
        forall|j: int| 0 <= j < with_len(ls, k, n).len() ==> #[trigger] with_len(ls, k, n)[j] < n,
    decreases n,
{
    if n > 0 {
        lemma_with_len_bound(ls, k, n - 1);
    }
}


/// Lengths 3..258 and distances 1..32768 are each a base plus some extra bits.
#[verifier::opaque]
pub open spec fn length_base() -> Seq<u16> {
    seq![
        3u16, 4, 5, 6, 7, 8, 9, 10, 11, 13, 15, 17, 19, 23, 27, 31, 35, 43, 51, 59, 67, 83, 99, 115,
        131, 163, 195, 227, 258,
    ]
}

#[verifier::opaque]
pub open spec fn length_extra() -> Seq<u8> {
    seq![
        0u8, 0, 0, 0, 0, 0, 0, 0, 1, 1, 1, 1, 2, 2, 2, 2, 3, 3, 3, 3, 4, 4, 4, 4, 5, 5, 5, 5, 0,
    ]
}

#[verifier::opaque]
pub open spec fn dist_base() -> Seq<u16> {
    seq![
        1u16, 2, 3, 4, 5, 7, 9, 13, 17, 25, 33, 49, 65, 97, 129, 193, 257, 385, 513, 769, 1025,
        1537, 2049, 3073, 4097, 6145, 8193, 12289, 16385, 24577,
    ]
}

#[verifier::opaque]
pub open spec fn dist_extra() -> Seq<u8> {
    seq![
        0u8, 0, 0, 0, 1, 1, 2, 2, 3, 3, 4, 4, 5, 5, 6, 6, 7, 7, 8, 8, 9, 9, 10, 10, 11, 11, 12, 12,
        13, 13,
    ]
}

/// The order in which a dynamic block lists the code-length code's own lengths.
#[verifier::opaque]
pub open spec fn code_length_order() -> Seq<usize> {
    seq![16usize, 17, 18, 0, 8, 7, 9, 6, 10, 5, 11, 4, 12, 3, 13, 2, 14, 1, 15]
}

fn table_entry(s: usize) -> (r: (u16, u8))
    requires
        s < 29,
    ensures
        r.0 == length_base()[s as int],
        r.1 == length_extra()[s as int],
        r.1 <= 5,
{
    let base: [u16; 29] = [
        3, 4, 5, 6, 7, 8, 9, 10, 11, 13, 15, 17, 19, 23, 27, 31, 35, 43, 51, 59, 67, 83, 99, 115,
        131, 163, 195, 227, 258,
    ];
    let extra: [u8; 29] = [
        0, 0, 0, 0, 0, 0, 0, 0, 1, 1, 1, 1, 2, 2, 2, 2, 3, 3, 3, 3, 4, 4, 4, 4, 5, 5, 5, 5, 0,
    ];
    proof {
        reveal(length_base);
        reveal(length_extra);
    }
    assert(base@ =~= length_base());
    assert(extra@ =~= length_extra());
    (base[s], extra[s])
}

fn dist_entry(d: usize) -> (r: (u16, u8))
    requires
        d < 30,
    ensures
        r.0 == dist_base()[d as int],
        r.1 == dist_extra()[d as int],
        r.1 <= 13,
{
    let base: [u16; 30] = [
        1, 2, 3, 4, 5, 7, 9, 13, 17, 25, 33, 49, 65, 97, 129, 193, 257, 385, 513, 769, 1025, 1537,
        2049, 3073, 4097, 6145, 8193, 12289, 16385, 24577,
    ];
    let extra: [u8; 30] = [
        0, 0, 0, 0, 1, 1, 2, 2, 3, 3, 4, 4, 5, 5, 6, 6, 7, 7, 8, 8, 9, 9, 10, 10, 11, 11, 12, 12, 13,
        13,
    ];
    proof {
        reveal(dist_base);
        reveal(dist_extra);
    }
    assert(base@ =~= dist_base());
    assert(extra@ =~= dist_extra());
    (base[d], extra[d])
}

/// The literal and length codes every fixed-code block uses: lengths the format lists.
pub open spec fn fixed_lit() -> Seq<u8> {
    Seq::new(
        288,
        |i: int|
            if i < 144 {
                8u8
            } else if i < 256 {
                9u8
            } else if i < 280 {
                7u8
            } else {
                8u8
            },
    )
}

/// The distance codes of a fixed-code block: thirty codes, five bits each.
pub open spec fn fixed_dist() -> Seq<u8> {
    Seq::new(30, |i: int| 5u8)
}

fn fixed_codes() -> (r: (Huffman, Huffman))
    ensures
        r.0.wf(),
        r.1.wf(),
        r.0.lengths@ == fixed_lit(),
        r.1.lengths@ == fixed_dist(),
{
    let mut lit: Vec<u8> = Vec::new();
    let mut i: usize = 0;
    while i < 288
        invariant
            i <= 288,
            lit@ =~= fixed_lit().take(i as int),
        decreases 288 - i,
    {
        let l: u8 = if i < 144 {
            8
        } else if i < 256 {
            9
        } else if i < 280 {
            7
        } else {
            8
        };
        lit.push(l);
        i = i + 1;
    }
    let mut dist: Vec<u8> = Vec::new();
    let mut j: usize = 0;
    while j < 30
        invariant
            j <= 30,
            dist@ =~= fixed_dist().take(j as int),
        decreases 30 - j,
    {
        dist.push(5);
        j = j + 1;
    }
    assert(lit@ =~= fixed_lit());
    assert(dist@ =~= fixed_dist());
    (Huffman::new(lit.as_slice()), Huffman::new(dist.as_slice()))
}

/// The code-length code's lengths: `hclen` of them, three bits each, stored in the listed order.
pub open spec fn cl_lengths(s: Seq<u8>, pos: int, hclen: nat, i: nat, cl: Seq<u8>) -> Result<
    (Seq<u8>, int),
    Seq<char>,
>
    decreases hclen - i,
{
    if i >= hclen || i >= 19 {
        Ok((cl, pos))
    } else {
        match bits_from(s, pos, 3) {
            Err(e) => Err(e),
            Ok(v) => cl_lengths(
                s,
                pos + 3,
                hclen,
                i + 1,
                cl.update(code_length_order()[i as int] as int, v as u8),
            ),
        }
    }
}

/// One code length symbol at `pos`, and what it adds to the lengths `ls`: 0 to 15 are lengths,
/// 16 repeats the last length 3 to 6 times, 17 writes 3 to 10 zeros, 18 writes 11 to 138.
pub open spec fn code_length_step(cl: Seq<u8>, s: Seq<u8>, pos: int, ls: Seq<u8>) -> Result<
    (Seq<u8>, int),
    Seq<char>,
> {
    match huff_decode(cl, s, pos) {
        Err(e) => Err(e),
        Ok((sym, p1)) => if sym <= 15 {
            Ok((ls.push(sym as u8), p1))
        } else if sym == 16 {
            if ls.len() == 0 {
                Err("a repeat with nothing before it"@)
            } else {
                match bits_from(s, p1, 2) {
                    Err(e) => Err(e),
                    Ok(r) => Ok((ls + Seq::new(3 + r, |k: int| ls.last()), p1 + 2)),
                }
            }
        } else if sym == 17 {
            match bits_from(s, p1, 3) {
                Err(e) => Err(e),
                Ok(r) => Ok((ls + Seq::new(3 + r, |k: int| 0u8), p1 + 3)),
            }
        } else {
            match bits_from(s, p1, 7) {
                Err(e) => Err(e),
                Ok(r) => Ok((ls + Seq::new(11 + r, |k: int| 0u8), p1 + 7)),
            }
        },
    }
}

pub proof fn lemma_code_length_step(cl: Seq<u8>, s: Seq<u8>, pos: int, ls: Seq<u8>)
    requires
        0 <= pos,
    ensures
        code_length_step(cl, s, pos, ls) matches Ok((ls2, p2)) ==> ls.len() < ls2.len() <= ls.len()
            + 138 && pos < p2 <= 8 * s.len(),
{
    lemma_decode_from_advances(cl, s, pos, 1, 0, 0);
    if let Ok((sym, p1)) = huff_decode(cl, s, pos) {
        if p1 >= 0 {
            lemma_bits_at_bound(s, p1 as nat, 7);
            lemma_bits_at_bound(s, p1 as nat, 3);
            lemma_bits_at_bound(s, p1 as nat, 2);
            reveal_with_fuel(two_to, 8);
        }
    }
}

/// `b` bits make a number below two to the `b`.
pub proof fn lemma_bits_at_bound(raw: Seq<u8>, start: nat, b: nat)
    ensures
        bits_at(raw, start, b) < two_to(b),
    decreases b,
{
    if b > 0 {
        lemma_bits_at_bound(raw, start, (b - 1) as nat);
        let k = (start + b - 1) as nat;
        let byte = raw[(k / 8) as int];
        let sh = (k % 8) as u8;
        assert((byte >> sh) & 1u8 <= 1u8) by (bit_vector);
        assert(two_to(b) == 2 * two_to((b - 1) as nat));
        let t = two_to((b - 1) as nat);
        let bit = stream_bit(raw, k);
        assert(bit * t <= t) by (nonlinear_arith)
            requires
                bit <= 1,
        ;
    }
}

/// A decoded symbol is one of the code's symbols.
pub proof fn lemma_decode_from_symbol(ls: Seq<u8>, s: Seq<u8>, pos: int, k: nat, code: int, first: int)
    requires
        0 <= first <= code,
    ensures
        decode_from(ls, s, pos, k, code, first) matches Ok((v, p)) ==> v < ls.len(),
    decreases 16 - k,
{
    if k < 16 && pos + 1 <= s.len() * 8 {
        let b = bits_at(s, pos as nat, 1);
        let c = code + b;
        lemma_with_len_bound(ls, k, ls.len() as int);
        if c - first >= huff_count(ls, k) {
            lemma_decode_from_symbol(ls, s, pos + 1, k + 1, 2 * c, 2 * (first + huff_count(ls, k)));
        }
    }
}

/// Code lengths written in the code-length code, until `want` are known.
pub open spec fn code_lengths(cl: Seq<u8>, s: Seq<u8>, pos: int, want: nat, ls: Seq<u8>) -> Result<
    (Seq<u8>, int),
    Seq<char>,
>
    decreases (if ls.len() < want {
        want - ls.len()
    } else {
        0
    }),
{
    if ls.len() >= want || pos < 0 {
        Ok((ls, pos))
    } else {
        match code_length_step(cl, s, pos, ls) {
            Err(e) => Err(e),
            Ok((ls2, p2)) => {
                proof {
                    lemma_code_length_step(cl, s, pos, ls);
                }
                code_lengths(cl, s, p2, want, ls2)
            },
        }
    }
}

/// A dynamic block's codes, which it describes before its data: how many codes of each kind,
/// then the code lengths of a small code, then every literal and distance code's length written
/// in that small code. The literal lengths, the distance lengths, and the bit after them.
pub open spec fn dynamic_codes(s: Seq<u8>, pos: int) -> Result<(Seq<u8>, Seq<u8>, int), Seq<char>> {
    match bits_from(s, pos, 5) {
        Err(e) => Err(e),
        Ok(a) => match bits_from(s, pos + 5, 5) {
            Err(e) => Err(e),
            Ok(b) => match bits_from(s, pos + 10, 4) {
                Err(e) => Err(e),
                Ok(c) => {
                    let hlit = a + 257;
                    let hdist = b + 1;
                    match cl_lengths(s, pos + 14, c + 4, 0, Seq::new(19, |k: int| 0u8)) {
                        Err(e) => Err(e),
                        Ok((cl, p1)) => match code_lengths(cl, s, p1, hlit + hdist, seq![]) {
                            Err(e) => Err(e),
                            Ok((ls, p2)) => if ls.len() != hlit + hdist {
                                Err("the code lengths overrun their count"@)
                            } else {
                                Ok((ls.take(hlit as int), ls.skip(hlit as int), p2))
                            },
                        },
                    }
                },
            },
        },
    }
}


fn order_entry(i: usize) -> (r: usize)
    requires
        i < 19,
    ensures
        r == code_length_order()[i as int],
        r < 19,
{
    let order: [usize; 19] = [16, 17, 18, 0, 8, 7, 9, 6, 10, 5, 11, 4, 12, 3, 13, 2, 14, 1, 15];
    proof {
        reveal(code_length_order);
    }
    assert(order@ =~= code_length_order());
    order[i]
}

/// Append `n` copies of `v`.
fn push_copies(ls: &mut Vec<u8>, v: u8, n: u32)
    ensures
        final(ls)@ == old(ls)@ + Seq::new(n as nat, |k: int| v),
{
    let mut k: u32 = 0;
    while k < n
        invariant
            k <= n,
            ls@ =~= old(ls)@ + Seq::new(k as nat, |j: int| v),
        decreases n - k,
    {
        ls.push(v);
        k = k + 1;
    }
}

fn length_step(clh: &Huffman, data: &[u8], pos: &mut usize, lengths: &mut Vec<u8>) -> (r: Result<
    (),
    String,
>)
    requires
        clh.wf(),
        *old(pos) <= data@.len() * 8,
        data@.len() * 8 <= usize::MAX,
        forall|j: int| 0 <= j < old(lengths)@.len() ==> #[trigger] old(lengths)@[j] <= 15,
    ensures
        *final(pos) <= data@.len() * 8,
        forall|j: int| 0 <= j < final(lengths)@.len() ==> #[trigger] final(lengths)@[j] <= 15,
        match code_length_step(clh.lengths@, data@, *old(pos) as int, old(lengths)@) {
            Ok((ls, p)) => r is Ok && final(lengths)@ == ls && *final(pos) == p,
            Err(m) => r matches Err(e) && e@ == m,
        },
{
    let ghost ls0 = lengths@;
    proof {
        lemma_decode_from_symbol(clh.lengths@, data@, *pos as int, 1, 0, 0);
    }
    let sym = clh.decode(data, pos)?;
    if sym <= 15 {
        lengths.push(sym as u8);
    } else if sym == 16 {
        if lengths.len() == 0 {
            return Err("a repeat with nothing before it".to_owned());
        }
        let r = take_bits(data, pos, 2)?;
        proof {
            reveal_with_fuel(two_to, 3);
        }
        let prev = lengths[lengths.len() - 1];
        push_copies(lengths, prev, 3 + r);
        assert(Seq::new((3 + r) as nat, |k: int| prev) =~= Seq::new(
            (3 + r) as nat,
            |k: int| ls0.last(),
        ));
    } else if sym == 17 {
        let r = take_bits(data, pos, 3)?;
        proof {
            reveal_with_fuel(two_to, 4);
        }
        push_copies(lengths, 0, 3 + r);
    } else {
        let r = take_bits(data, pos, 7)?;
        proof {
            reveal_with_fuel(two_to, 8);
        }
        push_copies(lengths, 0, 11 + r);
    }
    Ok(())
}

fn dynamic(data: &[u8], pos: &mut usize) -> (r: Result<(Huffman, Huffman), String>)
    requires
        *old(pos) <= data@.len() * 8,
        data@.len() * 8 <= usize::MAX,
    ensures
        *final(pos) <= data@.len() * 8,
        match dynamic_codes(data@, *old(pos) as int) {
            Ok((l, d, p)) => r matches Ok((hl, hd)) && hl.wf() && hd.wf() && hl.lengths@ == l
                && hd.lengths@ == d && *final(pos) == p,
            Err(m) => r matches Err(e) && e@ == m,
        },
{
    let ghost s = data@;
    let ghost start = *pos as int;
    let a = take_bits(data, pos, 5)?;
    let b = take_bits(data, pos, 5)?;
    let c = take_bits(data, pos, 4)?;
    proof {
        reveal_with_fuel(two_to, 6);
    }
    let hlit = a as usize + 257;
    let hdist = b as usize + 1;
    let hclen = c as usize + 4;
    let mut cl: Vec<u8> = Vec::new();
    let mut k: usize = 0;
    while k < 19
        invariant
            k <= 19,
            cl@ =~= Seq::new(k as nat, |j: int| 0u8),
        decreases 19 - k,
    {
        cl.push(0);
        k = k + 1;
    }
    let ghost p0 = *pos as int;
    let mut i: usize = 0;
    while i < hclen
        invariant
            s == data@,
            start == *old(pos),
            bits_from(s, start, 5) == Ok::<nat, Seq<char>>(a as nat),
            bits_from(s, start + 5, 5) == Ok::<nat, Seq<char>>(b as nat),
            bits_from(s, start + 10, 4) == Ok::<nat, Seq<char>>(c as nat),
            p0 == start + 14,
            hclen == c + 4,
            *pos <= data@.len() * 8,
            data@.len() * 8 <= usize::MAX,
            hclen <= 19,
            i <= hclen,
            cl@.len() == 19,
            forall|j: int| 0 <= j < 19 ==> #[trigger] cl@[j] <= 7,
            cl_lengths(s, *pos as int, hclen as nat, i as nat, cl@) == cl_lengths(
                s,
                p0,
                hclen as nat,
                0,
                Seq::new(19, |j: int| 0u8),
            ),
        decreases hclen - i,
    {
        let v = take_bits(data, pos, 3)?;
        proof {
            reveal_with_fuel(two_to, 4);
        }
        let at = order_entry(i);
        cl.set(at, v as u8);
        i = i + 1;
    }
    let clh = Huffman::new(cl.as_slice());
    let want = hlit + hdist;
    let ghost p1 = *pos as int;
    let mut lengths: Vec<u8> = Vec::new();
    while lengths.len() < want
        invariant
            s == data@,
            start == *old(pos),
            bits_from(s, start, 5) == Ok::<nat, Seq<char>>(a as nat),
            bits_from(s, start + 5, 5) == Ok::<nat, Seq<char>>(b as nat),
            bits_from(s, start + 10, 4) == Ok::<nat, Seq<char>>(c as nat),
            hlit == a + 257,
            hdist == b + 1,
            cl_lengths(s, start + 14, c as nat + 4, 0, Seq::new(19, |j: int| 0u8)) == Ok::<
                (Seq<u8>, int),
                Seq<char>,
            >((cl@, p1)),
            *pos <= data@.len() * 8,
            data@.len() * 8 <= usize::MAX,
            clh.wf(),
            clh.lengths@ == cl@,
            want == hlit + hdist,
            want <= 288 + 32,
            lengths@.len() <= want + 138,
            forall|j: int| 0 <= j < lengths@.len() ==> #[trigger] lengths@[j] <= 15,
            code_lengths(cl@, s, *pos as int, want as nat, lengths@) == code_lengths(
                cl@,
                s,
                p1,
                want as nat,
                seq![],
            ),
        decreases want - (if lengths@.len() < want {
            lengths@.len() as int
        } else {
            want as int
        }),
    {
        proof {
            lemma_code_length_step(cl@, s, *pos as int, lengths@);
        }
        length_step(&clh, data, pos, &mut lengths)?;
    }
    if lengths.len() != want {
        return Err("the code lengths overrun their count".to_owned());
    }
    let lit = vstd::slice::slice_subrange(lengths.as_slice(), 0, hlit);
    let dist = vstd::slice::slice_subrange(lengths.as_slice(), hlit, want);
    assert(lit@ =~= lengths@.take(hlit as int));
    assert(dist@ =~= lengths@.skip(hlit as int));
    Ok((Huffman::new(lit), Huffman::new(dist)))
}


/// A run of literal bytes is one token, so the list stays readable: a literal that follows a
/// literal token whose output ends where it begins extends that token.
pub open spec fn add_literal(toks: Seq<TokenV>, base: u64, from: int, to: int, at: int) -> Seq<TokenV> {
    if toks.len() > 0 && toks.last().kind == TokenKind::Literal && toks.last().output.end == at {
        let t = toks.last();
        toks.drop_last().push(
            TokenV {
                kind: TokenKind::Literal,
                label: t.label,
                input: Span { start: t.input.start, end: bits_span(base, from, to).end },
                output: Span { start: t.output.start, end: (at + 1) as u64 },
                detail: n_bytes_text((at + 1 - t.output.start) as nat)
                    + ", each its own Huffman code"@,
            },
        )
    } else {
        toks.push(
            TokenV {
                kind: TokenKind::Literal,
                label: "literals"@,
                input: bits_span(base, from, to),
                output: out_span(at, at + 1),
                detail: "1 byte, its own Huffman code"@,
            },
        )
    }
}

/// The length and distance of a copy whose length symbol `sym` ends at bit `pos`, and the bit
/// after them: each is a base plus extra bits, and the distance has its own code.
pub open spec fn length_copy(s: Seq<u8>, dist: Seq<u8>, sym: nat, pos: int) -> Result<
    (nat, nat, int),
    Seq<char>,
> {
    let l = sym - 257;
    if l < 0 || l >= 29 {
        Err("length symbol "@ + dec(sym) + " does not exist"@)
    } else {
        let extra = length_extra()[l] as nat;
        match bits_from(s, pos, extra) {
            Err(e) => Err(e),
            Ok(x) => match huff_decode(dist, s, pos + extra) {
                Err(e) => Err(e),
                Ok((d, p)) => if d >= 30 {
                    Err("distance symbol "@ + dec(d) + " does not exist"@)
                } else {
                    let dx = dist_extra()[d as int] as nat;
                    match bits_from(s, p, dx) {
                        Err(e) => Err(e),
                        Ok(y) => Ok(
                            (length_base()[l] as nat + x, dist_base()[d as int] as nat + y, p + dx),
                        ),
                    }
                },
            },
        }
    }
}

pub proof fn lemma_length_copy(s: Seq<u8>, dist: Seq<u8>, sym: nat, pos: int)
    requires
        0 <= pos,
    ensures
        length_copy(s, dist, sym, pos) matches Ok((len, d, p)) ==> pos < p <= 8 * s.len(),
{
    let l = sym - 257;
    if 0 <= l < 29 {
        let extra = length_extra()[l] as nat;
        lemma_decode_from_advances(dist, s, pos + extra, 1, 0, 0);
    }
}

/// The symbols of a compressed block from bit `pos` on, until the end-of-block symbol: a
/// literal byte, the end, or a length that with a distance makes a copy.
pub open spec fn block_symbols(
    s: Seq<u8>,
    base: u64,
    lit: Seq<u8>,
    dist: Seq<u8>,
    pos: int,
    out: Seq<u8>,
    toks: Seq<TokenV>,
) -> Result<(int, Seq<u8>, Seq<TokenV>), Seq<char>>
    decreases 8 * s.len() - pos,
{
    if pos < 0 || pos > 8 * s.len() {
        Ok((pos, out, toks))
    } else {
        match huff_decode(lit, s, pos) {
            Err(e) => Err(e),
            Ok((sym, p1)) => {
                proof {
                    lemma_decode_from_advances(lit, s, pos, 1, 0, 0);
                }
                if sym < 256 {
                    block_symbols(
                        s,
                        base,
                        lit,
                        dist,
                        p1,
                        out.push(sym as u8),
                        add_literal(toks, base, pos, p1, out.len() as int),
                    )
                } else if sym == 256 {
                    Ok((p1, out, toks))
                } else {
                    match length_copy(s, dist, sym, p1) {
                        Err(e) => Err(e),
                        Ok((len, distance, p)) => if !copy_fits(out, distance) {
                            Err(copy_error(distance, out.len()))
                        } else {
                            proof {
                                lemma_length_copy(s, dist, sym, p1);
                            }
                            let out2 = copied(out, distance, len);
                            block_symbols(
                                s,
                                base,
                                lit,
                                dist,
                                p,
                                out2,
                                toks.push(
                                    TokenV {
                                        kind: TokenKind::Copy { distance: distance as u64 },
                                        label: "copy"@,
                                        input: bits_span(base, pos, p),
                                        output: out_span(out.len() as int, out2.len() as int),
                                        detail: "copy "@ + n_bytes_text(len) + " from "@ + dec(distance)
                                            + " back"@,
                                    },
                                ),
                            )
                        },
                    }
                }
            },
        }
    }
}


/// Whether the last token, where it is a literal one that a literal may extend, is well formed:
/// its output does not end before it starts, and its input starts no later than bit `pos`.
pub open spec fn extendable(toks: Seq<TokenV>, base: u64, pos: int) -> bool {
    toks.len() > 0 && toks.last().kind == TokenKind::Literal ==> toks.last().output.start
        <= toks.last().output.end && toks.last().input.start <= base + pos / 8
}

fn push_literal(
    tokens: &mut Vec<Token>,
    base: u64,
    from: usize,
    to: usize,
    at: u64,
    len: usize,
)
    requires
        extendable(tokens_view(old(tokens)@), base, from as int),
        from <= to <= len * 8,
        base + len <= u64::MAX,
        at < u64::MAX,
    ensures
        tokens_view(final(tokens)@) == add_literal(
            tokens_view(old(tokens)@),
            base,
            from as int,
            to as int,
            at as int,
        ),
        final(tokens)@.len() > 0,
        final(tokens)@.last().kind == TokenKind::Literal,
        final(tokens)@.last().output.start <= final(tokens)@.last().output.end,
        final(tokens)@.last().output.end == at + 1,
        final(tokens)@.last().input.start <= base + from / 8,
{
    let ghost before = tokens_view(tokens@);
    let n = tokens.len();
    let sp = bit_span(base, from, to, len);
    if n > 0 && tokens[n - 1].kind == TokenKind::Literal && tokens[n - 1].output.end == at {
        let t = &tokens[n - 1];
        let start_in = t.input.start;
        let start_out = t.output.start;
        let label = t.label.clone();
        proof {
            assert(tokens@[n - 1]@ == before.last());
        }
        let mut detail = n_bytes((at + 1 - start_out) as u128);
        detail.append(", each its own Huffman code");
        let merged = Token {
            kind: TokenKind::Literal,
            label,
            input: Span::new(start_in, sp.end),
            output: Span::new(start_out, at + 1),
            detail,
        };
        let ghost mv = merged@;
        tokens.set(n - 1, merged);
        assert(tokens_view(tokens@) =~= before.drop_last().push(mv));
    } else {
        let t = Token {
            kind: TokenKind::Literal,
            label: "literals".to_owned(),
            input: sp,
            output: Span::new(at, at + 1),
            detail: "1 byte, its own Huffman code".to_owned(),
        };
        let ghost tv = t@;
        tokens.push(t);
        assert(tokens_view(tokens@) =~= before.push(tv));
    }
}

fn copy_fields(data: &[u8], dist: &Huffman, sym: u16, pos: &mut usize) -> (r: Result<(u64, u64), String>)
    requires
        dist.wf(),
        256 < sym,
        *old(pos) <= data@.len() * 8,
        data@.len() * 8 <= usize::MAX,
    ensures
        *final(pos) <= data@.len() * 8,
        match length_copy(data@, dist.lengths@, sym as nat, *old(pos) as int) {
            Ok((len, d, p)) => r matches Ok((a, b)) && a == len && b == d && *final(pos) == p,
            Err(m) => r matches Err(e) && e@ == m,
        },
{
    let l = (sym - 257) as usize;
    if l >= 29 {
        let mut e = "length symbol ".to_owned();
        push_u64(&mut e, sym as u64);
        e.append(" does not exist");
        return Err(e);
    }
    let (lbase, lextra) = table_entry(l);
    let ghost p0 = *pos as int;
    let x = take_bits(data, pos, lextra as u32)?;
    proof {
        lemma_decode_from_symbol(dist.lengths@, data@, *pos as int, 1, 0, 0);
    }
    let ghost p1 = *pos as int;
    let d = dist.decode(data, pos)?;
    if d >= 30 {
        let mut e = "distance symbol ".to_owned();
        push_u64(&mut e, d as u64);
        e.append(" does not exist");
        return Err(e);
    }
    let (dbase, dextra) = dist_entry(d as usize);
    let y = take_bits(data, pos, dextra as u32)?;
    Ok((lbase as u64 + x as u64, dbase as u64 + y as u64))
}

/// The copy whose length symbol `sym`, starting at bit `from`, has just been read.
fn copy_symbol(
    data: &[u8],
    base: u64,
    dist: &Huffman,
    sym: u16,
    from: usize,
    pos: &mut usize,
    out: &mut Vec<u8>,
    tokens: &mut Vec<Token>,
) -> (r: Result<(), String>)
    requires
        dist.wf(),
        256 < sym,
        from <= *old(pos) <= data@.len() * 8,
        data@.len() * 8 <= usize::MAX,
        base + data@.len() <= u64::MAX,
    ensures
        *final(pos) <= data@.len() * 8,
        match length_copy(data@, dist.lengths@, sym as nat, *old(pos) as int) {
            Err(m) => r matches Err(e) && e@ == m,
            Ok((len, distance, p)) => if !copy_fits(old(out)@, distance) {
                r matches Err(e) && e@ == copy_error(distance, old(out)@.len())
            } else {
                r is Ok && *final(pos) == p && final(out)@ == copied(old(out)@, distance, len)
                    && tokens_view(final(tokens)@) == tokens_view(old(tokens)@).push(
                    TokenV {
                        kind: TokenKind::Copy { distance: distance as u64 },
                        label: "copy"@,
                        input: bits_span(base, from as int, p),
                        output: out_span(old(out)@.len() as int, final(out)@.len() as int),
                        detail: "copy "@ + n_bytes_text(len) + " from "@ + dec(distance) + " back"@,
                    },
                ) && final(tokens)@.last().kind != TokenKind::Literal
            },
        },
{
    let at = out.len() as u64;
    proof {
        lemma_length_copy(data@, dist.lengths@, sym as nat, *pos as int);
    }
    let (len, distance) = copy_fields(data, dist, sym, pos)?;
    copy_back(out, distance, len as u128)?;
    let mut detail = "copy ".to_owned();
    let nb = n_bytes(len as u128);
    detail.append(nb.as_str());
    detail.append(" from ");
    push_u64(&mut detail, distance);
    detail.append(" back");
    let t = Token {
        kind: TokenKind::Copy { distance },
        label: "copy".to_owned(),
        input: bit_span(base, from, *pos, data.len()),
        output: Span::new(at, out.len() as u64),
        detail,
    };
    let ghost before = tokens_view(tokens@);
    let ghost tv = t@;
    tokens.push(t);
    assert(tokens_view(tokens@) =~= before.push(tv));
    Ok(())
}

#[verifier::rlimit(30)]
fn block_data(
    data: &[u8],
    base: u64,
    lit: &Huffman,
    dist: &Huffman,
    pos: &mut usize,
    out: &mut Vec<u8>,
    tokens: &mut Vec<Token>,
) -> (r: Result<(), String>)
    requires
        lit.wf(),
        dist.wf(),
        *old(pos) <= data@.len() * 8,
        data@.len() * 8 <= usize::MAX,
        base + data@.len() <= u64::MAX,
        extendable(tokens_view(old(tokens)@), base, *old(pos) as int),
    ensures
        *final(pos) <= data@.len() * 8,
        match block_symbols(
            data@,
            base,
            lit.lengths@,
            dist.lengths@,
            *old(pos) as int,
            old(out)@,
            tokens_view(old(tokens)@),
        ) {
            Ok((p, o, ts)) => r is Ok && *final(pos) == p && final(out)@ == o && tokens_view(
                final(tokens)@,
            ) == ts,
            Err(m) => r matches Err(e) && e@ == m,
        },
{
    let ghost s = data@;
    let ghost target = block_symbols(
        s,
        base,
        lit.lengths@,
        dist.lengths@,
        *pos as int,
        out@,
        tokens_view(tokens@),
    );
    loop
        invariant_except_break
            block_symbols(s, base, lit.lengths@, dist.lengths@, *pos as int, out@, tokens_view(tokens@))
                == target,
        invariant
            s == data@,
            lit.wf(),
            dist.wf(),
            *pos <= data@.len() * 8,
            data@.len() * 8 <= usize::MAX,
            base + data@.len() <= u64::MAX,
            extendable(tokens_view(tokens@), base, *pos as int),
            target is Ok ==> *pos <= data@.len() * 8,
            target == block_symbols(
                s,
                base,
                lit.lengths@,
                dist.lengths@,
                *old(pos) as int,
                old(out)@,
                tokens_view(old(tokens)@),
            ),
        ensures
            *pos <= data@.len() * 8,
            match target {
                Ok((p, o, ts)) => *pos == p && out@ == o && tokens_view(tokens@) == ts,
                Err(m) => false,
            },
        decreases 8 * data@.len() - *pos,
    {
        let from = *pos;
        proof {
            lemma_decode_from_advances(lit.lengths@, s, from as int, 1, 0, 0);
            lemma_decode_from_symbol(lit.lengths@, s, from as int, 1, 0, 0);
        }
        let sym = lit.decode(data, pos)?;
        let at = out.len() as u64;
        if sym < 256 {
            out.push(sym as u8);
            let n = out.len();
            assert(at < n);
            push_literal(tokens, base, from, *pos, at, data.len());
        } else if sym == 256 {
            break;
        } else {
            proof {
                lemma_length_copy(s, dist.lengths@, sym as nat, *pos as int);
            }
            copy_symbol(data, base, dist, sym, from, pos, out, tokens)?;
        }
    }
    Ok(())
}


proof fn lemma_cl_lengths(s: Seq<u8>, pos: int, hclen: nat, i: nat, cl: Seq<u8>)
    ensures
        cl_lengths(s, pos, hclen, i, cl) matches Ok((c, p)) ==> pos <= p && (pos <= 8 * s.len()
            ==> p <= 8 * s.len()),
    decreases hclen - i,
{
    if i < hclen && i < 19 {
        if let Ok(v) = bits_from(s, pos, 3) {
            lemma_cl_lengths(
                s,
                pos + 3,
                hclen,
                i + 1,
                cl.update(code_length_order()[i as int] as int, v as u8),
            );
        }
    }
}

proof fn lemma_code_lengths(cl: Seq<u8>, s: Seq<u8>, pos: int, want: nat, ls: Seq<u8>)
    ensures
        code_lengths(cl, s, pos, want, ls) matches Ok((l, p)) ==> pos <= p && (pos <= 8 * s.len()
            ==> p <= 8 * s.len()),
    decreases (if ls.len() < want {
        want - ls.len()
    } else {
        0
    }),
{
    if ls.len() < want && pos >= 0 {
        lemma_code_length_step(cl, s, pos, ls);
        if let Ok((ls2, p2)) = code_length_step(cl, s, pos, ls) {
            lemma_code_lengths(cl, s, p2, want, ls2);
        }
    }
}

proof fn lemma_dynamic_codes(s: Seq<u8>, pos: int)
    ensures
        dynamic_codes(s, pos) matches Ok((l, d, p)) ==> pos < p <= 8 * s.len(),
{
    if let Ok(c) = bits_from(s, pos + 10, 4) {
        lemma_cl_lengths(s, pos + 14, c + 4, 0, Seq::new(19, |k: int| 0u8));
        if let Ok((cl, p1)) = cl_lengths(s, pos + 14, c + 4, 0, Seq::new(19, |k: int| 0u8)) {
            if let (Ok(a), Ok(b)) = (bits_from(s, pos, 5), bits_from(s, pos + 5, 5)) {
                lemma_code_lengths(cl, s, p1, a + 257 + b + 1, seq![]);
            }
        }
    }
}

proof fn lemma_block_symbols(
    s: Seq<u8>,
    base: u64,
    lit: Seq<u8>,
    dist: Seq<u8>,
    pos: int,
    out: Seq<u8>,
    toks: Seq<TokenV>,
)
    ensures
        block_symbols(s, base, lit, dist, pos, out, toks) matches Ok((p, o, t)) ==> (0 <= pos <= 8
            * s.len() ==> pos <= p <= 8 * s.len()),
    decreases 8 * s.len() - pos,
{
    if 0 <= pos <= 8 * s.len() {
        lemma_decode_from_advances(lit, s, pos, 1, 0, 0);
        if let Ok((sym, p1)) = huff_decode(lit, s, pos) {
            if sym < 256 {
                lemma_block_symbols(
                    s,
                    base,
                    lit,
                    dist,
                    p1,
                    out.push(sym as u8),
                    add_literal(toks, base, pos, p1, out.len() as int),
                );
            } else if sym > 256 {
                lemma_length_copy(s, dist, sym, p1);
                if let Ok((len, distance, p)) = length_copy(s, dist, sym, p1) {
                    if copy_fits(out, distance) {
                        let out2 = copied(out, distance, len);
                        lemma_block_symbols(
                            s,
                            base,
                            lit,
                            dist,
                            p,
                            out2,
                            toks.push(
                                TokenV {
                                    kind: TokenKind::Copy { distance: distance as u64 },
                                    label: "copy"@,
                                    input: bits_span(base, pos, p),
                                    output: out_span(out.len() as int, out2.len() as int),
                                    detail: "copy "@ + n_bytes_text(len) + " from "@ + dec(distance)
                                        + " back"@,
                                },
                            ),
                        );
                    }
                }
            }
        }
    }
}

/// ", the last" for the final block.
pub open spec fn last_note(last: bool) -> Seq<char> {
    if last {
        ", the last"@
    } else {
        Seq::empty()
    }
}

/// A stored block whose header ends at bit `p`: from the next byte boundary, a length, its
/// complement, and that many bytes as they are.
pub open spec fn stored_block(
    s: Seq<u8>,
    base: u64,
    from: int,
    p: int,
    last: bool,
    out: Seq<u8>,
    toks: Seq<TokenV>,
) -> Result<(int, Seq<u8>, Seq<TokenV>), Seq<char>> {
    let at = (p + 7) / 8;
    match read_le(s, at, 2) {
        Err(e) => Err(e),
        Ok(len) => match read_le(s, at + 2, 2) {
            Err(e) => Err(e),
            Ok(nlen) => if len != 0xffff - nlen {
                Err("a stored block's length and its complement disagree"@)
            } else if at + 4 + len > s.len() {
                Err("a stored block runs past the end"@)
            } else {
                let out2 = out + s.subrange(at + 4, at + 4 + len);
                let p2 = (at + 4 + len) * 8;
                Ok(
                    (
                        p2,
                        out2,
                        toks.push(
                            TokenV {
                                kind: TokenKind::Literal,
                                label: "stored block"@,
                                input: bits_span(base, from, p2),
                                output: out_span(out.len() as int, out2.len() as int),
                                detail: n_bytes_text(len) + ", not compressed"@ + last_note(last),
                            },
                        ),
                    ),
                )
            },
        },
    }
}

/// One block, starting at bit `pos`: whether it is the last, the bit after it, the output and
/// the tokens. Its header is a bit saying whether it is the last and two bits of type: stored,
/// fixed codes, its own codes, or reserved.
pub open spec fn inflate_block(s: Seq<u8>, base: u64, pos: int, out: Seq<u8>, toks: Seq<TokenV>) -> Result<
    (bool, int, Seq<u8>, Seq<TokenV>),
    Seq<char>,
> {
    match bit_at(s, pos) {
        Err(e) => Err(e),
        Ok(lb) => match bits_from(s, pos + 1, 2) {
            Err(e) => Err(e),
            Ok(kind) => {
                let last = lb == 1;
                let p = pos + 3;
                if kind == 0 {
                    match stored_block(s, base, pos, p, last, out, toks) {
                        Err(e) => Err(e),
                        Ok((p2, out2, toks2)) => Ok((last, p2, out2, toks2)),
                    }
                } else if kind == 3 {
                    Err("block type 3 is reserved"@)
                } else {
                    let codes: Result<(Seq<u8>, Seq<u8>, int), Seq<char>> = if kind == 1 {
                        Ok((fixed_lit(), fixed_dist(), p))
                    } else {
                        dynamic_codes(s, p)
                    };
                    match codes {
                        Err(e) => Err(e),
                        Ok((lit, dist, p2)) => {
                            let what = if kind == 1 {
                                "fixed Huffman codes"@
                            } else {
                                "its own Huffman codes"@
                            };
                            let toks2 = toks.push(
                                TokenV {
                                    kind: TokenKind::Header,
                                    label: "block"@,
                                    input: bits_span(base, pos, p2),
                                    output: out_span(out.len() as int, out.len() as int),
                                    detail: "a compressed block with "@ + what + last_note(last),
                                },
                            );
                            match block_symbols(s, base, lit, dist, p2, out, toks2) {
                                Err(e) => Err(e),
                                Ok((p3, out3, toks3)) => Ok((last, p3, out3, toks3)),
                            }
                        },
                    }
                }
            },
        },
    }
}

proof fn lemma_stored_block(
    s: Seq<u8>,
    base: u64,
    from: int,
    p: int,
    last: bool,
    out: Seq<u8>,
    toks: Seq<TokenV>,
)
    requires
        0 <= from < p,
    ensures
        stored_block(s, base, from, p, last, out, toks) matches Ok((p2, o, t)) ==> from < p2 <= 8
            * s.len(),
{
}

#[verifier::rlimit(40)]
pub proof fn lemma_inflate_block(s: Seq<u8>, base: u64, pos: int, out: Seq<u8>, toks: Seq<TokenV>)
    requires
        0 <= pos,
    ensures
        inflate_block(s, base, pos, out, toks) matches Ok((l, p, o, t)) ==> pos < p <= 8 * s.len(),
{
    lemma_bits_at_bound(s, (pos + 1) as nat, 2);
    reveal_with_fuel(two_to, 3);
    if let Ok(kind) = bits_from(s, pos + 1, 2) {
        if let Ok(lb) = bit_at(s, pos) {
            let last = lb == 1;
            if kind == 0 {
                lemma_stored_block(s, base, pos, pos + 3, last, out, toks);
            } else if kind != 3 {
                lemma_dynamic_codes(s, pos + 3);
                let codes: Result<(Seq<u8>, Seq<u8>, int), Seq<char>> = if kind == 1 {
                    Ok((fixed_lit(), fixed_dist(), pos + 3))
                } else {
                    dynamic_codes(s, pos + 3)
                };
                if let Ok((lit, dist, p2)) = codes {
                    let what = if kind == 1 {
                        "fixed Huffman codes"@
                    } else {
                        "its own Huffman codes"@
                    };
                    let toks2 = toks.push(
                        TokenV {
                            kind: TokenKind::Header,
                            label: "block"@,
                            input: bits_span(base, pos, p2),
                            output: out_span(out.len() as int, out.len() as int),
                            detail: "a compressed block with "@ + what + last_note(last),
                        },
                    );
                    lemma_block_symbols(s, base, lit, dist, p2, out, toks2);
                }
            }
        }
    }
}

/// The blocks from bit `pos` on, until the last: the output, how many bytes of the stream they
/// used, and the tokens.
pub open spec fn inflate_blocks(s: Seq<u8>, base: u64, pos: int, out: Seq<u8>, toks: Seq<TokenV>) -> Result<
    (Seq<u8>, int, Seq<TokenV>),
    Seq<char>,
>
    decreases 8 * s.len() - pos,
{
    if pos < 0 || pos > 8 * s.len() {
        Ok((out, (pos + 7) / 8, toks))
    } else {
        match inflate_block(s, base, pos, out, toks) {
            Err(e) => Err(e),
            Ok((last, p, o, t)) => if last {
                Ok((o, (p + 7) / 8, t))
            } else {
                proof {
                    lemma_inflate_block(s, base, pos, out, toks);
                }
                inflate_blocks(s, base, p, o, t)
            },
        }
    }
}


pub proof fn lemma_inflate_blocks(s: Seq<u8>, base: u64, pos: int, out: Seq<u8>, toks: Seq<TokenV>)
    requires
        0 <= pos <= 8 * s.len(),
    ensures
        inflate_blocks(s, base, pos, out, toks) matches Ok((o, used, t)) ==> 0 <= used <= s.len(),
    decreases 8 * s.len() - pos,
{
    lemma_inflate_block(s, base, pos, out, toks);
    if let Ok((last, p, o, t)) = inflate_block(s, base, pos, out, toks) {
        if !last {
            lemma_inflate_blocks(s, base, p, o, t);
        }
    }
}

fn stored(
    data: &[u8],
    base: u64,
    from: usize,
    pos: &mut usize,
    last: bool,
    out: &mut Vec<u8>,
    tokens: &mut Vec<Token>,
) -> (r: Result<(), String>)
    requires
        from < *old(pos) <= data@.len() * 8,
        data@.len() * 8 <= usize::MAX,
        base + data@.len() <= u64::MAX,
    ensures
        *final(pos) <= data@.len() * 8,
        match stored_block(
            data@,
            base,
            from as int,
            *old(pos) as int,
            last,
            old(out)@,
            tokens_view(old(tokens)@),
        ) {
            Ok((p2, o, t)) => r is Ok && *final(pos) == p2 && final(out)@ == o && tokens_view(
                final(tokens)@,
            ) == t,
            Err(m) => r matches Err(e) && e@ == m,
        },
{
    let at = *pos / 8 + if *pos % 8 == 0 {
        0
    } else {
        1
    };
    assert(at == (*old(pos) + 7) / 8);
    let len32 = le(data, at, 2)?;
    let nlen32 = le(data, at + 2, 2)?;
    if len32 as u64 + nlen32 as u64 != 0xffff {
        return Err("a stored block's length and its complement disagree".to_owned());
    }
    if len32 as u64 > (data.len() - (at + 4)) as u64 {
        return Err("a stored block runs past the end".to_owned());
    }
    let len = len32 as usize;
    let start = out.len() as u64;
    let end = at + 4 + len;
    let bytes = vstd::slice::slice_subrange(data, at + 4, end);
    let ghost before = out@;
    let mut k: usize = 0;
    while k < bytes.len()
        invariant
            k <= bytes@.len(),
            out@ == before + bytes@.subrange(0, k as int),
        decreases bytes@.len() - k,
    {
        out.push(bytes[k]);
        k = k + 1;
        assert(out@ =~= before + bytes@.subrange(0, k as int));
    }
    assert(bytes@.subrange(0, bytes@.len() as int) =~= bytes@);
    *pos = end * 8;
    let mut detail = n_bytes(len as u128);
    detail.append(", not compressed");
    if last {
        detail.append(", the last");
    }
    let t = Token {
        kind: TokenKind::Literal,
        label: "stored block".to_owned(),
        input: bit_span(base, from, *pos, data.len()),
        output: Span::new(start, out.len() as u64),
        detail,
    };
    let ghost tb = tokens_view(tokens@);
    let ghost tv = t@;
    tokens.push(t);
    assert(tokens_view(tokens@) =~= tb.push(tv));
    Ok(())
}

fn one_block(
    data: &[u8],
    base: u64,
    pos: &mut usize,
    out: &mut Vec<u8>,
    tokens: &mut Vec<Token>,
) -> (r: Result<bool, String>)
    requires
        *old(pos) <= data@.len() * 8,
        data@.len() * 8 <= usize::MAX,
        base + data@.len() <= u64::MAX,
    ensures
        *final(pos) <= data@.len() * 8,
        match inflate_block(data@, base, *old(pos) as int, old(out)@, tokens_view(old(tokens)@)) {
            Ok((last, p, o, t)) => r == Ok::<bool, String>(last) && *final(pos) == p && final(out)@
                == o && tokens_view(final(tokens)@) == t,
            Err(m) => r matches Err(e) && e@ == m,
        },
{
    let from = *pos;
    let lb = take_bits(data, pos, 1)?;
    let kind = take_bits(data, pos, 2)?;
    proof {
        reveal_with_fuel(two_to, 3);
    }
    let last = lb == 1;
    if kind == 0 {
        stored(data, base, from, pos, last, out, tokens)?;
        return Ok(last);
    }
    if kind == 3 {
        return Err("block type 3 is reserved".to_owned());
    }
    proof {
        lemma_dynamic_codes(data@, *pos as int);
    }
    let (lit, dist) = if kind == 1 {
        fixed_codes()
    } else {
        dynamic(data, pos)?
    };
    let at = out.len() as u64;
    let mut detail = "a compressed block with ".to_owned();
    if kind == 1 {
        detail.append("fixed Huffman codes");
    } else {
        detail.append("its own Huffman codes");
    }
    if last {
        detail.append(", the last");
    }
    let t = Token {
        kind: TokenKind::Header,
        label: "block".to_owned(),
        input: bit_span(base, from, *pos, data.len()),
        output: Span::new(at, at),
        detail,
    };
    let ghost tb = tokens_view(tokens@);
    let ghost tv = t@;
    tokens.push(t);
    assert(tokens_view(tokens@) =~= tb.push(tv));
    block_data(data, base, &lit, &dist, pos, out, tokens)?;
    Ok(last)
}

/// Inflate a DEFLATE stream that starts at file offset `base`, adding its tokens to `tokens`.
/// Returns the output and how many bytes of `data` it used. Where it fails, `tokens` holds the
/// tokens of what it read before the failure.
pub fn inflate(data: &[u8], base: u64, tokens: &mut Vec<Token>) -> (r: Result<(Vec<u8>, usize), String>)
    requires
        base + data@.len() <= u64::MAX,
        data@.len() * 8 <= usize::MAX,
    ensures
        match inflate_blocks(data@, base, 0, seq![], tokens_view(old(tokens)@)) {
            Ok((o, used, ts)) => r matches Ok((v, u)) && v@ == o && u == used && tokens_view(
                final(tokens)@,
            ) == ts,
            Err(m) => r matches Err(e) && e@ == m,
        },
{
    let ghost s = data@;
    let ghost target = inflate_blocks(s, base, 0, seq![], tokens_view(tokens@));
    let mut pos: usize = 0;
    let mut out: Vec<u8> = Vec::new();
    loop
        invariant_except_break
            inflate_blocks(s, base, pos as int, out@, tokens_view(tokens@)) == target,
        invariant
            s == data@,
            pos <= data@.len() * 8,
            data@.len() * 8 <= usize::MAX,
            base + data@.len() <= u64::MAX,
            target == inflate_blocks(s, base, 0, seq![], tokens_view(old(tokens)@)),
        ensures
            pos <= data@.len() * 8,
            target == Ok::<(Seq<u8>, int, Seq<TokenV>), Seq<char>>(
                (out@, (pos + 7) / 8, tokens_view(tokens@)),
            ),
        decreases 8 * data@.len() - pos,
    {
        proof {
            lemma_inflate_block(s, base, pos as int, out@, tokens_view(tokens@));
        }
        let last = one_block(data, base, &mut pos, &mut out, tokens)?;
        if last {
            break;
        }
    }
    let used = pos / 8 + if pos % 8 == 0 {
        0
    } else {
        1
    };
    Ok((out, used))
}


// ---- GZIP ---------------------------------------------------------------------------------

/// Where a zero-terminated string that starts at `i` ends: the index after its zero byte.
pub open spec fn zero_end(s: Seq<u8>, i: int) -> Result<int, Seq<char>>
    decreases s.len() - i,
{
    if i >= s.len() {
        Err(end_error(i))
    } else if s[i] == 0 {
        Ok(i + 1)
    } else {
        zero_end(s, i + 1)
    }
}

/// Whether bit `bit` of a flags byte is set.
pub open spec fn flag(flags: u8, bit: nat) -> bool {
    (flags as nat / two_to(bit)) % 2 == 1
}

/// Where a gzip member's DEFLATE stream starts: after ten fixed bytes, an optional extra field
/// with its length, an optional file name and comment, each zero-terminated, and an optional
/// header checksum.
pub open spec fn gzip_header(s: Seq<u8>) -> Result<int, Seq<char>> {
    if s.len() < 18 || s[0] != 0x1f || s[1] != 0x8b || s[2] != 8 {
        Err("not a gzip member: it should start 1f 8b 08"@)
    } else {
        let flags = s[3];
        let extra: Result<int, Seq<char>> = if flag(flags, 2) {
            match read_le(s, 10, 2) {
                Ok(x) => Ok(12 + x as int),
                Err(e) => Err(e),
            }
        } else {
            Ok(10)
        };
        match extra {
            Err(e) => Err(e),
            Ok(i1) => {
                let name: Result<int, Seq<char>> = if flag(flags, 3) {
                    zero_end(s, i1)
                } else {
                    Ok(i1)
                };
                match name {
                    Err(e) => Err(e),
                    Ok(i2) => {
                        let comment: Result<int, Seq<char>> = if flag(flags, 4) {
                            zero_end(s, i2)
                        } else {
                            Ok(i2)
                        };
                        match comment {
                            Err(e) => Err(e),
                            Ok(i3) => Ok(
                                if flag(flags, 1) {
                                    i3 + 2
                                } else {
                                    i3
                                },
                            ),
                        }
                    },
                }
            },
        }
    }
}

/// A 32-bit value as `{:08x}` writes it.
pub open spec fn hex32(x: nat) -> Seq<char> {
    hex_byte(((x / 0x100_0000) % 256) as u8) + hex_byte(((x / 0x1_0000) % 256) as u8) + hex_byte(
        ((x / 0x100) % 256) as u8,
    ) + hex_byte((x % 256) as u8)
}

fn push_hex32(s: &mut String, x: u32)
    ensures
        final(s)@ == old(s)@ + hex32(x as nat),
{
    push_hex_byte(s, ((x / 0x100_0000) % 256) as u8);
    push_hex_byte(s, ((x / 0x1_0000) % 256) as u8);
    push_hex_byte(s, ((x / 0x100) % 256) as u8);
    push_hex_byte(s, (x % 256) as u8);
    assert(s@ =~= old(s)@ + hex32(x as nat));
}

/// What decompressing a gzip member gives: the header's token, the DEFLATE stream's, and the
/// trailer's, whose CRC-32 and length must match the output.
pub open spec fn gzip_result(s: Seq<u8>, base: u64) -> Result<(Seq<u8>, Seq<TokenV>), Seq<char>> {
    match gzip_header(s) {
        Err(e) => Err(e),
        Ok(i) => {
            let header = TokenV {
                kind: TokenKind::Header,
                label: "gzip header"@,
                input: span_at(base, 0, i),
                output: out_span(0, 0),
                detail: "1f 8b: gzip; 08: DEFLATE"@,
            };
            match inflate_blocks(s.subrange(i, s.len() as int), (base + i) as u64, 0, seq![], seq![header]) {
                Err(e) => Err(e),
                Ok((out, used, toks)) => {
                    let j = i + used;
                    match read_le(s, j, 4) {
                        Err(e) => Err(e),
                        Ok(crc) => match read_le(s, j + 4, 4) {
                            Err(e) => Err(e),
                            Ok(length) => {
                                let actual = crc32_of(out) as nat;
                                if crc != actual || length != out.len() % 0x1_0000_0000 {
                                    Err(
                                        "the gzip trailer does not match the output: CRC-32 "@
                                            + hex32(crc) + " against "@ + hex32(actual),
                                    )
                                } else {
                                    Ok(
                                        (
                                            out,
                                            toks.push(
                                                TokenV {
                                                    kind: TokenKind::Header,
                                                    label: "gzip trailer"@,
                                                    input: span_at(base, j, j + 8),
                                                    output: out_span(
                                                        out.len() as int,
                                                        out.len() as int,
                                                    ),
                                                    detail: "CRC-32 "@ + hex32(crc) + " (matches), length "@
                                                        + dec(length),
                                                },
                                            ),
                                        ),
                                    )
                                }
                            },
                        },
                    }
                },
            }
        },
    }
}

/// Whether the header's optional fields, as their lengths say, would end past the end of the
/// member: the stream would then start outside it.
pub open spec fn gzip_header_overruns(s: Seq<u8>) -> bool {
    gzip_header(s) matches Ok(i) && i > s.len()
}

fn zero_terminated(input: &[u8], i: usize) -> (r: Result<usize, String>)
    ensures
        match zero_end(input@, i as int) {
            Ok(j) => r == Ok::<usize, String>(j as usize) && i < j <= input@.len(),
            Err(m) => r matches Err(e) && e@ == m,
        },
{
    let mut k = i;
    while k < input.len() && input[k] != 0
        invariant
            i <= k,
            k <= input@.len() || k == i,
            zero_end(input@, k as int) == zero_end(input@, i as int),
        decreases input@.len() - k,
    {
        k = k + 1;
    }
    if k >= input.len() {
        return Err(end_err(k));
    }
    Ok(k + 1)
}

fn is_flag(flags: u8, bit: u8) -> (b: bool)
    requires
        bit <= 4,
    ensures
        b == flag(flags, bit as nat),
{
    proof {
        reveal_with_fuel(two_to, 5);
    }
    let p: u8 = if bit == 0 {
        1
    } else if bit == 1 {
        2
    } else if bit == 2 {
        4
    } else if bit == 3 {
        8
    } else {
        16
    };
    (flags / p) % 2 == 1
}

fn header_end(input: &[u8]) -> (r: Result<usize, String>)
    requires
        input@.len() * 8 <= usize::MAX,
    ensures
        match gzip_header(input@) {
            Ok(i) => r matches Ok(x) && x == i,
            Err(m) => r matches Err(e) && e@ == m,
        },
{
    if input.len() < 18 || input[0] != 0x1f || input[1] != 0x8b || input[2] != 8 {
        return Err("not a gzip member: it should start 1f 8b 08".to_owned());
    }
    let flags = input[3];
    let ghost s = input@;
    let i1: usize = if is_flag(flags, 2) {
        let x = le(input, 10, 2)?;
        proof {
            reveal_with_fuel(two_to, 17);
        }
        12 + x as usize
    } else {
        10
    };
    let i2: usize = if is_flag(flags, 3) {
        zero_terminated(input, i1)?
    } else {
        i1
    };
    let i3: usize = if is_flag(flags, 4) {
        zero_terminated(input, i2)?
    } else {
        i2
    };
    let i = if is_flag(flags, 1) {
        i3 + 2
    } else {
        i3
    };
    Ok(i)
}

/// A gzip member: a header, a DEFLATE stream, and a trailer holding the output's CRC-32 and
/// length. The reader checks both.
pub fn gzip(input: &[u8], base: u64) -> (r: Result<Decompressed, String>)
    requires
        base + input@.len() <= u64::MAX,
        input@.len() * 8 <= usize::MAX,
        !gzip_header_overruns(input@),
    ensures
        decompressed_as(r, gzip_result(input@, base)),
{
    let i = header_end(input)?;
    let mut tokens: Vec<Token> = Vec::new();
    tokens.push(
        Token {
            kind: TokenKind::Header,
            label: "gzip header".to_owned(),
            input: span(base, 0, i),
            output: Span::new(0, 0),
            detail: "1f 8b: gzip; 08: DEFLATE".to_owned(),
        },
    );
    let ghost header = tokens@[0]@;
    assert(tokens_view(tokens@) =~= seq![header]);
    let rest = vstd::slice::slice_subrange(input, i, input.len());
    proof {
        lemma_inflate_blocks(rest@, (base + i) as u64, 0, seq![], tokens_view(tokens@));
    }
    let (out, end) = inflate(rest, base + i as u64, &mut tokens)?;
    let j = i + end;
    let crc = le(input, j, 4)?;
    let length = le(input, j + 4, 4)?;
    let actual = crc32(out.as_slice());
    let mut detail = "CRC-32 ".to_owned();
    push_hex32(&mut detail, crc);
    if crc == actual {
        detail.append(" (matches), length ");
    } else {
        detail.append(" (does not match), length ");
    }
    push_u64(&mut detail, length as u64);
    let ghost before = tokens_view(tokens@);
    let t = Token {
        kind: TokenKind::Header,
        label: "gzip trailer".to_owned(),
        input: span(base, j, j + 8),
        output: Span::new(out.len() as u64, out.len() as u64),
        detail,
    };
    let ghost tv = t@;
    tokens.push(t);
    assert(tokens_view(tokens@) =~= before.push(tv));
    if crc != actual || length as u64 != (out.len() as u64) % 0x1_0000_0000 {
        let mut e = "the gzip trailer does not match the output: CRC-32 ".to_owned();
        push_hex32(&mut e, crc);
        e.append(" against ");
        push_hex32(&mut e, actual);
        return Err(e);
    }
    Ok(Decompressed { bytes: out, tokens })
}


// ---- Any codec ----------------------------------------------------------------------------

/// The codecs this reader decodes.
pub open spec fn is_supported(codec: Seq<char>) -> bool {
    codec == "UNCOMPRESSED"@ || codec == "SNAPPY"@ || codec == "LZ4_RAW"@ || codec == "GZIP"@
}

/// Whether [`decompress`] can decode a codec.
pub fn supported(codec: &str) -> (b: bool)
    ensures
        b == is_supported(codec@),
{
    str_eq(codec, "UNCOMPRESSED") || str_eq(codec, "SNAPPY") || str_eq(codec, "LZ4_RAW") || str_eq(
        codec,
        "GZIP",
    )
}

/// What a codec makes of compressed bytes, before the size is checked.
pub open spec fn codec_result(codec: Seq<char>, s: Seq<u8>, base: u64) -> Result<
    (Seq<u8>, Seq<TokenV>),
    Seq<char>,
> {
    if codec == "UNCOMPRESSED"@ {
        Ok(
            (
                s,
                seq![
                    TokenV {
                        kind: TokenKind::Literal,
                        label: "stored"@,
                        input: span_at(base, 0, s.len() as int),
                        output: out_span(0, s.len() as int),
                        detail: "not compressed"@,
                    },
                ],
            ),
        )
    } else if codec == "SNAPPY"@ {
        snappy_result(s, base)
    } else if codec == "LZ4_RAW"@ {
        lz4_result(s, base)
    } else if codec == "GZIP"@ {
        gzip_result(s, base)
    } else {
        Err(
            "this reader does not decompress "@ + codec + "; it reads "@ + codec
                + " files' sizes from the footer, but not their pages"@,
        )
    }
}

/// What decompressing gives: the codec's output, which must be exactly the size the page header
/// gives.
pub open spec fn decompress_result(codec: Seq<char>, s: Seq<u8>, base: u64, size: nat) -> Result<
    (Seq<u8>, Seq<TokenV>),
    Seq<char>,
> {
    match codec_result(codec, s, base) {
        Err(e) => Err(e),
        Ok((bytes, toks)) => if bytes.len() != size {
            Err(
                codec + ": the page header says "@ + dec(size) + " bytes, and decompressing gave "@
                    + dec(bytes.len()),
            )
        } else {
            Ok((bytes, toks))
        },
    }
}

/// A codec `supported` refuses fails to decompress whatever the input, its offset and the size
/// asked for, with an error that names the codec; and a supported one never fails that way.
pub proof fn lemma_unsupported_codecs_fail(codec: Seq<char>, s: Seq<u8>, base: u64, size: nat)
    ensures
        !is_supported(codec) ==> decompress_result(codec, s, base, size) == Err::<
            (Seq<u8>, Seq<TokenV>),
            Seq<char>,
        >(
            "this reader does not decompress "@ + codec + "; it reads "@ + codec
                + " files' sizes from the footer, but not their pages"@,
        ),
        !is_supported(codec) ==> (decompress_result(codec, s, base, size) matches Err(e)
            && e.subrange(0, 32 + codec.len() as int) == "this reader does not decompress "@ + codec),
{
    if !is_supported(codec) {
        reveal_strlit("this reader does not decompress ");
        let e = "this reader does not decompress "@ + codec + "; it reads "@ + codec
            + " files' sizes from the footer, but not their pages"@;
        assert(e.subrange(0, 32 + codec.len() as int) =~= "this reader does not decompress "@ + codec);
    }
}

/// Decompress `input`, which starts at file offset `base`, into exactly `size` bytes.
pub fn decompress(codec: &str, input: &[u8], base: u64, size: usize) -> (r: Result<
    Decompressed,
    String,
>)
    requires
        base + input@.len() <= u64::MAX,
        codec@ == "SNAPPY"@ ==> !snappy_length_overflows(input@),
        codec@ == "GZIP"@ ==> input@.len() * 8 <= usize::MAX && !gzip_header_overruns(input@),
    ensures
        decompressed_as(r, decompress_result(codec@, input@, base, size as nat)),
{
    let out = if str_eq(codec, "UNCOMPRESSED") {
        let bytes = vstd::slice::slice_to_vec(input);
        let t = Token {
            kind: TokenKind::Literal,
            label: "stored".to_owned(),
            input: span(base, 0, input.len()),
            output: Span::new(0, input.len() as u64),
            detail: "not compressed".to_owned(),
        };
        let ghost tv = t@;
        let mut tokens: Vec<Token> = Vec::new();
        tokens.push(t);
        assert(tokens_view(tokens@) =~= seq![tv]);
        Decompressed { bytes, tokens }
    } else if str_eq(codec, "SNAPPY") {
        snappy(input, base)?
    } else if str_eq(codec, "LZ4_RAW") {
        lz4_raw(input, base, size)?
    } else if str_eq(codec, "GZIP") {
        gzip(input, base)?
    } else {
        let mut e = "this reader does not decompress ".to_owned();
        e.append(codec);
        e.append("; it reads ");
        e.append(codec);
        e.append(" files' sizes from the footer, but not their pages");
        return Err(e);
    };
    if out.bytes.len() != size {
        let mut e = codec.to_owned();
        e.append(": the page header says ");
        push_u64(&mut e, size as u64);
        e.append(" bytes, and decompressing gave ");
        push_u64(&mut e, out.bytes.len() as u64);
        return Err(e);
    }
    Ok(out)
}

} // verus!
