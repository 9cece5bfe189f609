//! The RLE / bit-packing hybrid: how Parquet stores small integers.
//!
//! Repetition levels, definition levels and dictionary indices are stored as a sequence of
//! runs, each starting with a ULEB128 header whose lowest bit says what kind of run it is:
//!
//! ```text
//! header & 1 == 0   RLE run:         (header >> 1) copies of one value,
//!                                    stored in ceil(bit_width / 8) bytes, little-endian
//! header & 1 == 1   bit-packed run:  (header >> 1) groups of eight values,
//!                                    each value bit_width bits, least significant bit first
//! ```

use vstd::prelude::*;

use crate::bytes::{lemma_uleb_from_len, uleb, ByteReader, BytesError, Span, Uleb};

verus! {

/// Two to the power `n`.
pub open spec fn two_to(n: nat) -> nat
    decreases n,
{
    if n == 0 {
        1
    } else {
        2 * two_to((n - 1) as nat)
    }
}

/// How many bits it takes to store every integer from 0 to `max`: halve until nothing is left.
pub open spec fn bits_needed(max: nat) -> nat
    decreases max,
{
    if max == 0 {
        0
    } else {
        1 + bits_needed(max / 2)
    }
}

/// How many bits it takes to store every integer from 0 to `max`.
///
/// `bit_width(0)` is 0: a column whose maximum level is 0 stores no levels at all.
pub fn bit_width(max: u32) -> (w: u32)
    ensures
        w == bits_needed(max as nat),
        w <= 32,
{
    let mut m = max;
    let mut w: u32 = 0;
    proof {
        lemma_bits_needed_bound(max as nat);
    }
    while m > 0
        invariant
            bits_needed(max as nat) == w + bits_needed(m as nat),
            w + bits_needed(m as nat) <= 32,
        decreases m,
    {
        proof {
            lemma_bits_needed_bound(m as nat);
        }
        m = m / 2;
        w = w + 1;
    }
    w
}

/// A `u32` needs at most 32 bits.
proof fn lemma_bits_needed_bound(m: nat)
    ensures
        m <= u32::MAX ==> bits_needed(m) <= 32,
        m < two_to(bits_needed(m)),
    decreases m,
{
    if m > 0 {
        lemma_bits_needed_bound(m / 2);
        if m <= u32::MAX {
            assert(m / 2 <= 0x7fff_ffff);
            lemma_bits_needed_small(m / 2);
        }
    }
}

/// A number below two to the 31 needs at most 31 bits.
proof fn lemma_bits_needed_small(m: nat)
    requires
        m <= 0x7fff_ffff,
    ensures
        bits_needed(m) <= 31,
    decreases m,
{
    proof_two_to_31();
    lemma_bits_needed_under(m, 31);
}

/// A number below two to the `k` needs at most `k` bits.
proof fn lemma_bits_needed_under(m: nat, k: nat)
    requires
        m < two_to(k),
    ensures
        bits_needed(m) <= k,
    decreases m,
{
    if m > 0 {
        assert(k > 0);
        lemma_bits_needed_under(m / 2, (k - 1) as nat);
    }
    proof_two_to_31();
}

pub(crate) proof fn proof_two_to_31()
    ensures
        two_to(31) == 0x8000_0000,
        two_to(32) == 0x1_0000_0000,
{
    reveal_with_fuel(two_to, 33);
}

#[derive(Clone, Copy, Debug, PartialEq, Eq, Structural)]
pub enum RunKind {
    Rle,
    BitPacked,
}

impl RunKind {
    pub fn name(&self) -> (s: &'static str)
        ensures
            *self == RunKind::Rle ==> s@ == "RLE"@,
            *self == RunKind::BitPacked ==> s@ == "bit-packed"@,
    {
        match self {
            RunKind::Rle => "RLE",
            RunKind::BitPacked => "bit-packed",
        }
    }
}

/// One run, as decoded.
#[derive(Clone, Debug, PartialEq, Eq)]
pub struct Run {
    pub kind: RunKind,
    /// The ULEB128 header.
    pub header: Span,
    /// The bytes after the header that hold this run's values.
    pub body: Span,
    /// The values this run contributed; padding past the count is not included.
    pub values: Vec<u32>,
}

/// A run as a mathematical value.
pub struct RunView {
    pub kind: RunKind,
    pub header: Span,
    pub body: Span,
    pub values: Seq<u32>,
}

impl View for Run {
    type V = RunView;

    open spec fn view(&self) -> RunView {
        RunView { kind: self.kind, header: self.header, body: self.body, values: self.values@ }
    }
}

/// Bit `k` of a little-endian bit stream: bit `k % 8` of byte `k / 8`.
pub open spec fn stream_bit(raw: Seq<u8>, k: nat) -> nat {
    ((raw[(k / 8) as int] >> ((k % 8) as u8)) & 1u8) as nat
}

/// The number made of the `b` bits of `raw` starting at bit `start`, least significant first.
pub open spec fn bits_at(raw: Seq<u8>, start: nat, b: nat) -> nat
    decreases b,
{
    if b == 0 {
        0
    } else {
        bits_at(raw, start, (b - 1) as nat) + stream_bit(raw, (start + b - 1) as nat) * two_to(
            (b - 1) as nat,
        )
    }
}

/// The little-endian value of a few bytes.
pub open spec fn le_value(b: Seq<u8>) -> nat
    decreases b.len(),
{
    if b.len() == 0 {
        0
    } else {
        le_value(b.drop_last()) + (b.last() as nat) * two_to((8 * (b.len() - 1)) as nat)
    }
}

/// How many values a run actually contributes: what it holds, but no more than are wanted.
pub open spec fn take_count(holds: int, wanted: int) -> nat {
    if holds < wanted {
        holds as nat
    } else {
        wanted as nat
    }
}

/// Put `prefix` in front of a successful decoding; an error stays the error.
pub open spec fn prepend_runs(prefix: Seq<RunView>, r: Result<Seq<RunView>, BytesError>) -> Result<
    Seq<RunView>,
    BytesError,
> {
    match r {
        Ok(rest) => Ok(prefix + rest),
        Err(e) => Err(e),
    }
}

/// The runs that hold `count - produced` more values, starting at byte `pos` of `s`.
pub open spec fn rle_runs(
    s: Seq<u8>,
    base: u64,
    w: nat,
    count: nat,
    pos: nat,
    produced: nat,
) -> Result<Seq<RunView>, BytesError>
    decreases s.len() - pos,
{
    if produced >= count {
        Ok(Seq::empty())
    } else {
        proof {
            lemma_uleb_from_len(s, pos as int, 0, 0);
        }
        match uleb(s, pos as int) {
            Uleb::End(at) => Err(BytesError::UnexpectedEnd { offset: (base + at) as u64, wanted: 1 }),
            Uleb::TooLong => Err(BytesError::VarintTooLong { offset: (base + pos) as u64 }),
            Uleb::Value(h, n) => {
                let hp = pos + n;
                let wanted = count - produced;
                let header = Span { start: (base + pos) as u64, end: (base + hp) as u64 };
                let body_len: nat = if h % 2 == 0 {
                    (w + 7) / 8
                } else {
                    ((h / 2) as nat) * w
                };
                if hp + body_len > s.len() {
                    Err(
                        BytesError::UnexpectedEnd {
                            offset: (base + hp) as u64,
                            wanted: if body_len > u64::MAX {
                                u64::MAX
                            } else {
                                body_len as u64
                            },
                        },
                    )
                } else {
                    let raw = s.subrange(hp as int, (hp + body_len) as int);
                    let body = Span {
                        start: (base + hp) as u64,
                        end: (base + hp + body_len) as u64,
                    };
                    let values: Seq<u32> = if h % 2 == 0 {
                        Seq::new(take_count((h / 2) as int, wanted as int), |i: int| le_value(raw) as u32)
                    } else {
                        Seq::new(
                            take_count((h / 2) * 8, wanted as int),
                            |i: int| bits_at(raw, (i * w) as nat, w) as u32,
                        )
                    };
                    let kind = if h % 2 == 0 {
                        RunKind::Rle
                    } else {
                        RunKind::BitPacked
                    };
                    if values.len() == 0 && body_len == 0 {
                        Err(BytesError::UnexpectedEnd { offset: (base + pos) as u64, wanted: 1 })
                    } else {
                        prepend_runs(
                            seq![RunView { kind, header, body, values }],
                            rle_runs(s, base, w, count, hp + body_len, produced + values.len()),
                        )
                    }
                }
            },
        }
    }
}

/// The views of a list of runs.
pub open spec fn run_views(runs: Seq<Run>) -> Seq<RunView> {
    runs.map_values(|r: Run| r@)
}

/// Decode `count` values of `bit_width` bits from `bytes`, which start at file offset `base`.
pub fn decode(bytes: &[u8], base: u64, bit_width: u32, count: usize) -> (r: Result<
    Vec<Run>,
    BytesError,
>)
    requires
        base + bytes@.len() <= u64::MAX,
        bit_width <= 32,
    ensures
        match r {
            Ok(runs) => rle_runs(bytes@, base, bit_width as nat, count as nat, 0, 0) == Ok::<
                Seq<RunView>,
                BytesError,
            >(run_views(runs@)),
            Err(e) => rle_runs(bytes@, base, bit_width as nat, count as nat, 0, 0) == Err::<
                Seq<RunView>,
                BytesError,
            >(e),
        },
{
    let mut r = ByteReader::new(bytes, base);
    let mut runs: Vec<Run> = Vec::new();
    let mut produced: usize = 0;
    let value_bytes: usize = ((bit_width + 7) / 8) as usize;
    let ghost s = bytes@;
    let ghost w = bit_width as nat;
    while produced < count
        invariant
            r.bytes() == s,
            r.base() == base,
            s == bytes@,
            w == bit_width as nat,
            bit_width <= 32,
            value_bytes == (w + 7) / 8,
            produced <= count,
            base + s.len() <= u64::MAX,
            r.pos() <= s.len(),
            rle_runs(s, base, w, count as nat, 0, 0) == prepend_runs(
                run_views(runs@),
                rle_runs(s, base, w, count as nat, r.pos(), produced as nat),
            ),
        decreases s.len() - r.pos(),
    {
        let ghost pos = r.pos();
        proof {
            lemma_uleb_from_len(s, pos as int, 0, 0);
        }
        let header_start = r.offset();
        let header = match r.read_uleb128() {
            Ok(h) => h,
            Err(e) => {
                proof {
                    assert(run_views(runs@) + Seq::<RunView>::empty() =~= run_views(runs@));
                }
                return Err(e);
            },
        };
        proof {
            use_type_invariant(&r);
            ByteReader::lemma_inv(r);
        }
        let header_span = Span::new(header_start, r.offset());
        let wanted = count - produced;
        let remaining = r.remaining();
        let ghost hp = r.pos();
        let run = if header % 2 == 0 {
            let repeat: u64 = header / 2;
            if remaining < value_bytes {
                return Err(
                    BytesError::UnexpectedEnd { offset: r.offset(), wanted: value_bytes as u64 },
                );
            }
            let (raw, body) = match r.read_bytes(value_bytes) {
                Ok(x) => x,
                Err(e) => {
                    return Err(e);
                },
            };
            let value = le_bytes_value(raw);
            let k: usize = if repeat < wanted as u64 {
                repeat as usize
            } else {
                wanted
            };
            let mut values: Vec<u32> = Vec::new();
            let mut j: usize = 0;
            while j < k
                invariant
                    j <= k,
                    values@.len() == j,
                    forall|t: int| 0 <= t < j ==> #[trigger] values@[t] == value,
                decreases k - j,
            {
                values.push(value);
                j = j + 1;
            }
            proof {
                assert(values@ =~= Seq::new(take_count((header / 2) as int, wanted as int), |i: int| value));
            }
            Run { kind: RunKind::Rle, header: header_span, body, values }
        } else {
            let groups: u64 = header / 2;
            assert(groups as u128 * bit_width as u128 <= 0xffff_ffff_ffff_ffff * 32) by (nonlinear_arith)
                requires
                    bit_width <= 32,
                    groups <= 0xffff_ffff_ffff_ffff,
            ;
            let need: u128 = groups as u128 * bit_width as u128;
            if need > remaining as u128 {
                let wanted_bytes: u64 = if need > u64::MAX as u128 {
                    u64::MAX
                } else {
                    need as u64
                };
                return Err(BytesError::UnexpectedEnd { offset: r.offset(), wanted: wanted_bytes });
            }
            let (raw, body) = match r.read_bytes(need as usize) {
                Ok(x) => x,
                Err(e) => {
                    return Err(e);
                },
            };
            let total: u128 = groups as u128 * 8;
            let k: usize = if total < wanted as u128 {
                total as usize
            } else {
                wanted
            };
            let mut values: Vec<u32> = Vec::new();
            let mut i: usize = 0;
            while i < k
                invariant
                    i <= k,
                    k <= groups * 8,
                    raw@.len() == groups * w,
                    w == bit_width as nat,
                    bit_width <= 32,
                    values@.len() == i,
                    forall|t: int|
                        0 <= t < i ==> #[trigger] values@[t] == bits_at(raw@, (t * w) as nat, w) as u32,
                decreases k - i,
            {
                assert((i + 1) * bit_width <= raw@.len() * 8) by (nonlinear_arith)
                    requires
                        i < k,
                        k <= groups * 8,
                        raw@.len() == groups * bit_width,
                ;
                let v = unpack(raw, i, bit_width);
                values.push(v);
                i = i + 1;
            }
            proof {
                assert(values@ =~= Seq::new(
                    take_count((header / 2) * 8, wanted as int),
                    |i: int| bits_at(raw@, (i * w) as nat, w) as u32,
                ));
            }
            Run { kind: RunKind::BitPacked, header: header_span, body, values }
        };
        if run.values.len() == 0 && run.body.start == run.body.end {
            return Err(BytesError::UnexpectedEnd { offset: header_start, wanted: 1 });
        }
        produced = produced + run.values.len();
        let ghost before = run_views(runs@);
        runs.push(run);
        proof {
            assert(run_views(runs@) =~= before + seq![run@]);
            assert(before + (seq![run@] + rle_runs(s, base, w, count as nat, r.pos(), produced as nat)->Ok_0)
                =~= run_views(runs@) + rle_runs(s, base, w, count as nat, r.pos(), produced as nat)->Ok_0);
        }
    }
    proof {
        assert(run_views(runs@) + Seq::<RunView>::empty() =~= run_views(runs@));
    }
    Ok(runs)
}

/// The little-endian value of at most four bytes.
pub(crate) fn le_bytes_value(raw: &[u8]) -> (v: u32)
    requires
        raw@.len() <= 4,
    ensures
        v == le_value(raw@),
        v < two_to(8 * raw@.len()),
{
    let mut v: u64 = 0;
    let mut i: usize = 0;
    let mut weight: u64 = 1;
    while i < raw.len()
        invariant
            i <= raw@.len() <= 4,
            v == le_value(raw@.subrange(0, i as int)),
            weight == two_to((8 * i) as nat),
            v < weight,
            weight <= 0x1_0000_0000,
        decreases raw@.len() - i,
    {
        proof {
            reveal_with_fuel(two_to, 9);
            assert(raw@.subrange(0, i + 1).drop_last() =~= raw@.subrange(0, i as int));
            lemma_two_to_add((8 * i) as nat, 8);
            lemma_two_to_mono((8 * (i + 1)) as nat, 32);
            proof_two_to_31();
        }
        let b = raw[i] as u64;
        assert(b * weight <= 255 * weight) by (nonlinear_arith)
            requires
                b <= 255,
        ;
        assert(v + b * weight < 256 * weight);
        v = v + b * weight;
        weight = weight * 256;
        i = i + 1;
    }
    assert(raw@.subrange(0, raw@.len() as int) =~= raw@);
    v as u32
}

pub(crate) proof fn lemma_two_to_add(a: nat, b: nat)
    ensures
        two_to(a + b) == two_to(a) * two_to(b),
    decreases a,
{
    if a == 0 {
        assert(two_to(0) == 1);
        assert(two_to(a + b) == two_to(b));
    } else {
        let a1 = (a - 1) as nat;
        lemma_two_to_add(a1, b);
        assert(a + b == (a1 + b) + 1);
        assert(two_to(a + b) == 2 * two_to(a1 + b));
        let x = two_to(a1);
        let y = two_to(b);
        assert(2 * (x * y) == (2 * x) * y) by (nonlinear_arith);
        assert(two_to(a) == 2 * x);
    }
}

/// The `width` bits of a little-endian bit stream that start at bit `start`, for a width of up to
/// 64 bits.
pub(crate) fn read_bits(raw: &[u8], start: u128, width: u32) -> (v: u64)
    requires
        width <= 64,
        start + width <= raw@.len() * 8,
    ensures
        v == bits_at(raw@, start as nat, width as nat),
        v < two_to(width as nat),
{
    let mut value: u128 = 0;
    let mut p: u128 = 1;
    let mut bit: u32 = 0;
    let n = raw.len();
    proof {
        proof_two_to_31();
        lemma_two_to_add(32, 32);
    }
    while bit < width
        invariant
            n == raw@.len(),
            bit <= width <= 64,
            start + width <= raw@.len() * 8,
            value == bits_at(raw@, start as nat, bit as nat),
            p == two_to(bit as nat),
            value < p,
            p <= 0x1_0000_0000_0000_0000,
            two_to(64) == 0x1_0000_0000_0000_0000,
        decreases width - bit,
    {
        let at: u128 = start + bit as u128;
        proof {
            reveal_with_fuel(two_to, 2);
            lemma_two_to_add(bit as nat, 1);
            lemma_two_to_mono(bit as nat + 1, 64);
        }
        let idx: usize = (at / 8) as usize;
        let byte = raw[idx];
        let b: u8 = (byte >> ((at % 8) as u8)) & 1u8;
        assert(b <= 1) by (bit_vector)
            requires
                b == (byte >> ((at % 8) as u8)) & 1u8,
        ;
        proof {
            assert(byte == raw@[(at / 8) as int]);
            assert(b as nat == stream_bit(raw@, at as nat));
            assert(bits_at(raw@, start as nat, (bit + 1) as nat) == bits_at(raw@, start as nat, bit as nat)
                + stream_bit(raw@, at as nat) * two_to(bit as nat));
        }
        if b == 1 {
            value = value + p;
            let ghost sb = stream_bit(raw@, at as nat);
            let ghost t = two_to(bit as nat);
            assert(sb * t == t) by (nonlinear_arith)
                requires
                    sb == 1,
            ;
        } else {
            let ghost sb = stream_bit(raw@, at as nat);
            let ghost t = two_to(bit as nat);
            assert(sb * t == 0) by (nonlinear_arith)
                requires
                    sb == 0,
            ;
        }
        p = p * 2;
        bit = bit + 1;
    }
    value as u64
}

/// The `i`th value of `bit_width` bits in a little-endian bit stream.
fn unpack(raw: &[u8], i: usize, bit_width: u32) -> (v: u32)
    requires
        bit_width <= 32,
        (i + 1) * bit_width <= raw@.len() * 8,
    ensures
        v == bits_at(raw@, (i * bit_width) as nat, bit_width as nat),
{
    let mut value: u64 = 0;
    let mut p: u64 = 1;
    let mut bit: u32 = 0;
    assert(i as u128 * bit_width as u128 <= 0xffff_ffff_ffff_ffff * 32) by (nonlinear_arith)
        requires
            bit_width <= 32,
            i <= 0xffff_ffff_ffff_ffff,
    ;
    let start: u128 = i as u128 * bit_width as u128;
    while bit < bit_width
        invariant
            bit <= bit_width <= 32,
            start == i * bit_width,
            start <= 0xffff_ffff_ffff_ffff * 32,
            (i + 1) * bit_width <= raw@.len() * 8,
            value == bits_at(raw@, start as nat, bit as nat),
            p == two_to(bit as nat),
            value < p,
            p <= 0x1_0000_0000,
        decreases bit_width - bit,
    {
        let at: u128 = start + bit as u128;
        proof {
            assert(at < raw@.len() * 8) by (nonlinear_arith)
                requires
                    at == i * bit_width + bit,
                    bit < bit_width,
                    (i + 1) * bit_width <= raw@.len() * 8,
            ;
            reveal_with_fuel(two_to, 2);
            lemma_two_to_add(bit as nat, 1);
            lemma_two_to_mono(bit as nat + 1, 32);
            proof_two_to_31();
        }
        let idx: usize = (at / 8) as usize;
        let byte = raw[idx];
        let b: u8 = (byte >> ((at % 8) as u8)) & 1u8;
        assert(b <= 1) by (bit_vector)
            requires
                b == (byte >> ((at % 8) as u8)) & 1u8,
        ;
        proof {
            assert(byte == raw@[(at / 8) as int]);
            assert(b as nat == stream_bit(raw@, at as nat));
            assert(bits_at(raw@, start as nat, (bit + 1) as nat) == bits_at(raw@, start as nat, bit as nat)
                + stream_bit(raw@, at as nat) * two_to(bit as nat));
        }
        let ghost prev = value;
        if b == 1 {
            value = value + p;
            let ghost sb = stream_bit(raw@, at as nat);
            let ghost t = two_to(bit as nat);
            assert(sb * t == t) by (nonlinear_arith)
                requires
                    sb == 1,
            ;
        } else {
            let ghost sb = stream_bit(raw@, at as nat);
            let ghost t = two_to(bit as nat);
            assert(sb * t == 0) by (nonlinear_arith)
                requires
                    sb == 0,
            ;
        }
        assert(value == bits_at(raw@, start as nat, (bit + 1) as nat));
        p = p * 2;
        bit = bit + 1;
    }
    value as u32
}

pub(crate) proof fn lemma_two_to_mono(a: nat, b: nat)
    requires
        a <= b,
    ensures
        two_to(a) <= two_to(b),
    decreases b,
{
    if a < b {
        lemma_two_to_mono(a, (b - 1) as nat);
    }
}

/// Every value of a list of runs, in order.
pub open spec fn all_values(runs: Seq<RunView>) -> Seq<u32>
    decreases runs.len(),
{
    if runs.len() == 0 {
        Seq::empty()
    } else {
        all_values(runs.drop_last()) + runs.last().values
    }
}

/// All the values of a sequence of runs, in order.
pub fn values(runs: &[Run]) -> (v: Vec<u32>)
    ensures
        v@ == all_values(run_views(runs@)),
{
    let mut out: Vec<u32> = Vec::new();
    let mut i: usize = 0;
    while i < runs.len()
        invariant
            i <= runs@.len(),
            out@ == all_values(run_views(runs@.subrange(0, i as int))),
        decreases runs@.len() - i,
    {
        let rv = &runs[i].values;
        let mut j: usize = 0;
        let ghost before = out@;
        while j < rv.len()
            invariant
                j <= rv@.len(),
                out@ == before + rv@.subrange(0, j as int),
            decreases rv@.len() - j,
        {
            out.push(rv[j]);
            proof {
                assert(before + rv@.subrange(0, j + 1) =~= (before + rv@.subrange(0, j as int)).push(
                    rv@[j as int],
                ));
            }
            j = j + 1;
        }
        proof {
            assert(rv@.subrange(0, rv@.len() as int) =~= rv@);
            assert(run_views(runs@.subrange(0, i + 1)).drop_last() =~= run_views(
                runs@.subrange(0, i as int),
            ));
        }
        i = i + 1;
    }
    assert(runs@.subrange(0, runs@.len() as int) =~= runs@);
    out
}


proof fn lemma_all_values_front(r: RunView, rest: Seq<RunView>)
    ensures
        all_values(seq![r] + rest) == r.values + all_values(rest),
    decreases rest.len(),
{
    if rest.len() > 0 {
        lemma_all_values_front(r, rest.drop_last());
        assert((seq![r] + rest).drop_last() =~= seq![r] + rest.drop_last());
        assert((seq![r] + rest).last() == rest.last());
        let a = r.values;
        let b = all_values(rest.drop_last());
        let c = rest.last().values;
        assert((a + b) + c =~= a + (b + c));
    } else {
        assert((seq![r] + rest).drop_last() =~= Seq::<RunView>::empty());
        assert(seq![r] + rest =~= seq![r]);
        assert(seq![r].drop_last() =~= Seq::<RunView>::empty());
        assert(seq![r].last() == r);
        assert(all_values(Seq::<RunView>::empty()) =~= Seq::<u32>::empty());
        assert(all_values(seq![r]) =~= Seq::<u32>::empty() + r.values);
        assert(r.values + Seq::<u32>::empty() =~= r.values);
        assert(Seq::<u32>::empty() + r.values =~= r.values);
    }
}

/// Runs decoded for `count` values hold exactly that many.
pub proof fn lemma_runs_hold_count(s: Seq<u8>, base: u64, w: nat, count: nat, pos: nat, produced: nat)
    requires
        produced <= count,
    ensures
        rle_runs(s, base, w, count, pos, produced) matches Ok(runs) ==> all_values(runs).len()
            == count - produced,
    decreases s.len() - pos,
{
    if produced < count {
        lemma_uleb_from_len(s, pos as int, 0, 0);
        if let Uleb::Value(h, n) = uleb(s, pos as int) {
            let hp = pos + n;
            let wanted = count - produced;
            let body_len: nat = if h % 2 == 0 {
                (w + 7) / 8
            } else {
                ((h / 2) as nat) * w
            };
            if hp + body_len <= s.len() {
                let raw = s.subrange(hp as int, (hp + body_len) as int);
                let values: Seq<u32> = if h % 2 == 0 {
                    Seq::new(take_count((h / 2) as int, wanted as int), |i: int| le_value(raw) as u32)
                } else {
                    Seq::new(
                        take_count((h / 2) * 8, wanted as int),
                        |i: int| bits_at(raw, (i * w) as nat, w) as u32,
                    )
                };
                if !(values.len() == 0 && body_len == 0) {
                    lemma_runs_hold_count(s, base, w, count, hp + body_len, produced + values.len());
                    let kind = if h % 2 == 0 {
                        RunKind::Rle
                    } else {
                        RunKind::BitPacked
                    };
                    let header = Span { start: (base + pos) as u64, end: (base + hp) as u64 };
                    let body = Span {
                        start: (base + hp) as u64,
                        end: (base + hp + body_len) as u64,
                    };
                    if let Ok(rest) = rle_runs(s, base, w, count, hp + body_len, produced + values.len()) {
                        lemma_all_values_front(RunView { kind, header, body, values }, rest);
                    }
                }
            }
        }
    } else {
        assert(all_values(Seq::<RunView>::empty()).len() == 0);
    }
}

} // verus!
