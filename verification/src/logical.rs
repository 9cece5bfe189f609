//! Logical types, and what they make of a value's bytes.
//!
//! A physical type says how many bytes a value has; a logical type says what they mean: the
//! same four bytes are a count, a day number, or a price in cents.

use vstd::prelude::*;
use vstd::arithmetic::div_mod::{lemma_fundamental_div_mod, lemma_hoist_over_denominator};
use vstd::arithmetic::mul::{lemma_mul_inequality, lemma_mul_unary_negation};

use vstd::utf8::{decode_utf8, valid_utf8};

use crate::bytes::{le_u32_value, le_u64_value, read_le_u32};
use crate::metadata::PhysicalType;
use crate::text::{
    debug_quoted, debug_text, dec, dec_chars, hex_byte, pad_digits, padded, push_char, push_chars,
    push_hex_byte, push_i64, push_padded, push_padded_digits, push_zeros, signed_dec, u64_text,
    i64_text, utf8_str, zeros,
};
use crate::thrift::{field_views, find_field, lemma_find_field_views, node_view, FieldV, Node, NodeV, Struct, Value, ValueV};

verus! {

/// Days in a 400-year era of the Gregorian calendar.
pub open spec fn era_days() -> int {
    146_097
}

/// The civil date (year, month, day) of a count of days since 1970-01-01, by Howard
/// Hinnant's `civil_from_days`: eras of 400 years, counted from 0000-03-01.
pub open spec fn civil(days: int) -> (int, int, int) {
    let z = days + 719_468;
    let era = z / 146_097;
    let doe = z - era * 146_097;
    let yoe = (doe - doe / 1460 + doe / 36_524 - doe / 146_096) / 365;
    let doy = doe - (365 * yoe + yoe / 4 - yoe / 100);
    let mp = (5 * doy + 2) / 153;
    let d = doy - (153 * mp + 2) / 5 + 1;
    let m = if mp < 10 {
        mp + 3
    } else {
        mp - 9
    };
    let y = yoe + era * 400 + if m <= 2 {
        1int
    } else {
        0int
    };
    (y, m, d)
}

/// A date as `YYYY-MM-DD`.
pub open spec fn date_text(days: int) -> Seq<char> {
    let (y, m, d) = civil(days);
    padded(y, 4) + seq!['-'] + padded(m, 2) + seq!['-'] + padded(d, 2)
}

/// The position within a 400-year era, and the era, of a count of days since 0000-03-01.
fn era_of(z: i128) -> (r: (i128, u64))
    requires
        -0x8000_0000_0000_0000 <= z <= 0x8000_0000_0000_0000,
    ensures
        r.0 == (z as int) / era_days(),
        r.1 == z - ((z as int) / era_days()) * era_days(),
        r.1 < 146_097,
        -0x1_0000_0000_0000 <= r.0 <= 0x1_0000_0000_0000,
{
    let k: i128 = 63_200_000_000_000;
    let shifted: i128 = z + k * 146_097;
    assert(shifted >= 0);
    let q: i128 = shifted / 146_097;
    let rem: i128 = shifted % 146_097;
    proof {
        lemma_hoist_over_denominator(z as int, k as int, 146_097);
        lemma_fundamental_div_mod(shifted as int, 146_097);
        lemma_fundamental_div_mod(z as int, 146_097);
        assert(q <= 0x1_0000_0000_0000_0000_0000) by (nonlinear_arith)
            requires
                q == shifted / 146_097,
                0 <= shifted <= 0x8000_0000_0000_0000 + 63_200_000_000_000 * 146_097,
        ;
    }
    let era = q - k;
    assert(-0x1_0000_0000_0000 <= era <= 0x1_0000_0000_0000) by (nonlinear_arith)
        requires
            era == q - k,
            q == shifted / 146_097,
            shifted == z + k * 146_097,
            k == 63_200_000_000_000,
            -0x8000_0000_0000_0000 <= z <= 0x8000_0000_0000_0000,
    ;
    (era, rem as u64)
}

/// Euclidean division of a number of moderate size: the quotient rounds towards minus
/// infinity, so the remainder is never negative.
fn ediv(a: i64, b: i64) -> (q: i64)
    requires
        -0x100_0000_0000 <= a <= 0x100_0000_0000,
        0 < b <= 0x100_0000_0000,
    ensures
        q == (a as int) / (b as int),
        a >= 0 ==> 0 <= q <= a,
        a < 0 ==> a <= q < 0,
{
    let k: i128 = 0x100_0000_0000;
    let shifted: i128 = a as i128 + k * b as i128;
    assert(shifted >= 0) by (nonlinear_arith)
        requires
            shifted == a + k * b,
            k == 0x100_0000_0000,
            b >= 1,
            a >= -0x100_0000_0000,
    ;
    let q: i128 = shifted / b as i128;
    proof {
        lemma_hoist_over_denominator(a as int, k as int, b as nat);
        lemma_fundamental_div_mod(a as int, b as int);
        assert(a >= 0 ==> 0 <= (a as int) / (b as int) <= a) by (nonlinear_arith)
            requires
                a == b * ((a as int) / (b as int)) + (a as int) % (b as int),
                0 <= (a as int) % (b as int) < b,
                b >= 1,
        ;
        assert(a < 0 ==> a <= (a as int) / (b as int) < 0) by (nonlinear_arith)
            requires
                a == b * ((a as int) / (b as int)) + (a as int) % (b as int),
                0 <= (a as int) % (b as int) < b,
                b >= 1,
        ;
    }
    (q - k) as i64
}

/// The year, month and day of a count of days since 0000-03-01, given its era and its day
/// within the era.
fn civil_parts(era: i128, doe: i64) -> (r: (i64, i64, i64))
    requires
        0 <= doe < 146_097,
        -0x1_0000_0000_0000 <= era <= 0x1_0000_0000_0000,
    ensures
        ({
            let yoe = (doe - doe / 1460 + doe / 36_524 - doe / 146_096) / 365;
            let doy = doe - (365 * yoe + yoe / 4 - yoe / 100);
            let mp = (5 * doy + 2) / 153;
            let d = doy - (153 * mp + 2) / 5 + 1;
            let m = if mp < 10 {
                mp + 3
            } else {
                mp - 9
            };
            let y = yoe + era * 400 + if m <= 2 {
                1int
            } else {
                0int
            };
            r == (y as i64, m as i64, d as i64) && y == r.0 && m == r.1 && d == r.2
        }),
{
    let yoe = ediv(doe - ediv(doe, 1460) + ediv(doe, 36_524) - ediv(doe, 146_096), 365);
    let doy = doe - (365 * yoe + ediv(yoe, 4) - ediv(yoe, 100));
    let mp = ediv(5 * doy + 2, 153);
    let d = doy - ediv(153 * mp + 2, 5) + 1;
    let m = if mp < 10 { mp + 3 } else { mp - 9 };
    let y: i128 = yoe as i128 + era * 400 + if m <= 2 { 1 } else { 0 };
    (y as i64, m, d)
}

/// The date for a count of days since 1970-01-01, as `YYYY-MM-DD`.
pub fn date_from_days(days: i64) -> (s: String)
    requires
        days + 719_468 <= i64::MAX,
    ensures
        s@ == date_text(days as int),
{
    let z: i128 = days as i128 + 719_468;
    let (era, doe) = era_of(z);
    let (y, m, d) = civil_parts(era, doe as i64);
    let mut s = String::new();
    push_padded(&mut s, y, 4);
    push_char(&mut s, '-');
    push_padded(&mut s, m, 2);
    push_char(&mut s, '-');
    push_padded(&mut s, d, 2);
    assert(s@ =~= date_text(days as int));
    s
}

/// The resolution of a time or timestamp.
#[derive(Clone, Copy, Debug, PartialEq, Eq, Structural)]
pub enum TimeUnit {
    Millis,
    Micros,
    Nanos,
}

/// Ticks of a unit in one second.
pub open spec fn ticks_per_second(u: TimeUnit) -> int {
    match u {
        TimeUnit::Millis => 1_000,
        TimeUnit::Micros => 1_000_000,
        TimeUnit::Nanos => 1_000_000_000,
    }
}

/// Digits after the decimal point of a fraction of a second in a unit.
pub open spec fn fraction_digits(u: TimeUnit) -> nat {
    match u {
        TimeUnit::Millis => 3,
        TimeUnit::Micros => 6,
        TimeUnit::Nanos => 9,
    }
}

impl TimeUnit {
    pub fn per_second(&self) -> (n: i64)
        ensures
            n == ticks_per_second(*self),
    {
        match self {
            TimeUnit::Millis => 1_000,
            TimeUnit::Micros => 1_000_000,
            TimeUnit::Nanos => 1_000_000_000,
        }
    }
}

/// What a logical type annotation says a value means.
#[derive(Clone, Copy, Debug, PartialEq, Eq, Structural)]
pub enum LogicalType {
    String,
    MapOf,
    List,
    Enum,
    Decimal { scale: i64, precision: i64 },
    Date,
    Time { utc: bool, unit: Option<TimeUnit> },
    Timestamp { utc: bool, unit: Option<TimeUnit> },
    Integer { bit_width: i64, signed: bool },
    Unknown,
    Json,
    Bson,
    Uuid,
    Float16,
    Variant,
    Geometry,
    Geography,
    Other(i16),
}

/// Euclidean division and remainder: the remainder is never negative.
pub fn div_rem_euclid(a: i64, b: i64) -> (r: (i64, i64))
    requires
        0 < b,
    ensures
        r.0 == (a as int) / (b as int),
        r.1 == (a as int) % (b as int),
        0 <= r.1 < b,
{
    if a >= 0 {
        let q: i64 = a / b;
        let m: i64 = a % b;
        (q, m)
    } else {
        // a = -(n + 1) with n >= 0, so a = -(q0 + 1) * b + (b - 1 - r0).
        let n: i64 = -(a + 1);
        let q0: i64 = n / b;
        let r0: i64 = n % b;
        proof {
            lemma_fundamental_div_mod(n as int, b as int);
            lemma_fundamental_div_mod(a as int, b as int);
            assert(0 <= q0 <= n) by (nonlinear_arith)
                requires
                    n == b * q0 + r0,
                    0 <= r0 < b,
                    b >= 1,
                    n >= 0,
            {
                if q0 < 0 {
                    assert(b * q0 <= -b);
                }
                assert(b * q0 >= q0);
            }
            let qa = (a as int) / (b as int);
            let ra = (a as int) % (b as int);
            assert(qa == -(q0 + 1) && ra == b - 1 - r0) by (nonlinear_arith)
                requires
                    a == b * qa + ra,
                    0 <= ra < b,
                    n == b * q0 + r0,
                    0 <= r0 < b,
                    a == -(n + 1),
            {
                assert(b * (qa + q0 + 1) == b - 1 - r0 - ra);
                if qa + q0 + 1 > 0 {
                    assert(b * (qa + q0 + 1) >= b);
                } else if qa + q0 + 1 < 0 {
                    assert(b * (qa + q0 + 1) <= -b);
                }
            }
        }
        (-q0 - 1, b - 1 - r0)
    }
}

/// Division that rounds towards zero, as Rust's `/` does for signed integers.
pub open spec fn tdiv(a: int, b: int) -> int {
    if a >= 0 {
        a / b
    } else {
        -((-a) / b)
    }
}

/// The remainder of division that rounds towards zero: it has the sign of `a`.
pub open spec fn trem(a: int, b: int) -> int {
    a - b * tdiv(a, b)
}

fn trunc_div(a: i64, b: i64) -> (q: i64)
    requires
        a > i64::MIN,
        b > 0,
    ensures
        q == tdiv(a as int, b as int),
{
    if a >= 0 {
        (a as u64 / b as u64) as i64
    } else {
        let p = (-a) as u64 / b as u64;
        -(p as i64)
    }
}

/// A time of day as `HH:MM:SS`, with the fraction of a second when it is not zero, written
/// as many digits as the unit has.
pub open spec fn time_text(ticks: int, u: TimeUnit) -> Seq<char> {
    let per = ticks_per_second(u);
    let secs = ticks / per;
    let frac = ticks % per;
    let h = tdiv(secs, 3600);
    let m = trem(tdiv(secs, 60), 60);
    let sec = trem(secs, 60);
    let hms = padded(h, 2) + seq![':'] + padded(m, 2) + seq![':'] + padded(sec, 2);
    if frac == 0 {
        hms
    } else {
        hms + seq!['.'] + pad_digits(dec(frac as nat), fraction_digits(u))
    }
}

/// The time of day `ticks` units after midnight.
pub fn time_of_day(ticks: i64, unit: TimeUnit) -> (s: String)
    ensures
        s@ == time_text(ticks as int, unit),
{
    let per = unit.per_second();
    let (secs, frac) = div_rem_euclid(ticks, per);
    proof {
        lemma_fundamental_div_mod(ticks as int, per as int);
    }
    proof {
        let r = (ticks as int) % (per as int);
        assert(per >= 1000);
        assert(ticks == (per as int) * (secs as int) + r);
        if secs >= 0x40_0000_0000_0000 {
            lemma_mul_inequality(1000, per as int, secs as int);
            assert(1000 * secs >= 1000 * 0x40_0000_0000_0000);
            assert(false);
        }
        if secs <= -0x40_0000_0000_0000 {
            lemma_mul_inequality(1000, per as int, -secs);
            lemma_mul_unary_negation(per as int, secs as int);
            lemma_mul_unary_negation(1000, secs as int);
            assert(1000 * secs <= 1000 * -0x40_0000_0000_0000);
            assert(per * secs <= 1000 * secs);
            assert(false);
        }
    }
    let h = trunc_div(secs, 3600);
    let m60 = trunc_div(secs, 60);
    let m = m60 - 60 * trunc_div(m60, 60);
    let sec = secs - 60 * trunc_div(secs, 60);
    let mut s = String::new();
    push_padded(&mut s, h, 2);
    push_char(&mut s, ':');
    push_padded(&mut s, m, 2);
    push_char(&mut s, ':');
    push_padded(&mut s, sec, 2);
    if frac != 0 {
        push_char(&mut s, '.');
        let digits: usize = match unit {
            TimeUnit::Millis => 3,
            TimeUnit::Micros => 6,
            TimeUnit::Nanos => 9,
        };
        push_padded_digits(&mut s, frac as u64, digits);
    }
    assert(s@ =~= time_text(ticks as int, unit));
    s
}

/// A timestamp: the date, `T`, the time of day, and `Z` when it is adjusted to UTC.
pub open spec fn timestamp_text(ticks: int, u: TimeUnit, utc: bool) -> Seq<char> {
    let per_day = ticks_per_second(u) * 86_400;
    date_text(ticks / per_day) + seq!['T'] + time_text(ticks % per_day, u) + if utc {
        seq!['Z']
    } else {
        Seq::empty()
    }
}

/// A timestamp `ticks` units after 1970-01-01T00:00:00.
pub fn timestamp(ticks: i64, unit: TimeUnit, utc: bool) -> (s: String)
    ensures
        s@ == timestamp_text(ticks as int, unit, utc),
{
    let per_day = unit.per_second() * 86_400;
    let (days, rest) = div_rem_euclid(ticks, per_day);
    proof {
        lemma_fundamental_div_mod(ticks as int, per_day as int);
    }
    assert(-0x1_0000_0000_0000 < days < 0x1_0000_0000_0000) by (nonlinear_arith)
        requires
            days == (ticks as int) / (per_day as int),
            per_day >= 86_400_000,
            ticks == per_day * days + (ticks as int) % (per_day as int),
            0 <= (ticks as int) % (per_day as int) < per_day,
    ;
    let mut s = date_from_days(days);
    push_char(&mut s, 'T');
    let t = time_of_day(rest, unit);
    s.append(t.as_str());
    if utc {
        push_char(&mut s, 'Z');
    }
    assert(s@ =~= timestamp_text(ticks as int, unit, utc));
    s
}

/// Ten to the power `n`.
pub open spec fn pow10(n: nat) -> int
    decreases n,
{
    if n == 0 {
        1
    } else {
        10 * pow10((n - 1) as nat)
    }
}

/// An unscaled integer with the decimal point `scale` digits from the right: a negative
/// scale multiplies by ten to its magnitude instead.
pub open spec fn decimal_text(unscaled: int, scale: int) -> Seq<char> {
    if scale <= 0 {
        signed_dec(unscaled * pow10((-scale) as nat))
    } else {
        let digits = dec(if unscaled < 0 {
            (-unscaled) as nat
        } else {
            unscaled as nat
        });
        let p = pad_digits(digits, (scale + 1) as nat);
        let cut = p.len() - scale;
        (if unscaled < 0 {
            seq!['-']
        } else {
            Seq::empty()
        }) + p.take(cut) + seq!['.'] + p.skip(cut)
    }
}

/// An unscaled integer with its decimal point put where the scale says.
pub fn decimal(unscaled: i128, scale: i64) -> (s: String)
    requires
        scale <= 0 ==> -scale <= 38 && i128::MIN <= unscaled * pow10((-scale) as nat) <= i128::MAX,
        scale < usize::MAX,
    ensures
        s@ == decimal_text(unscaled as int, scale as int),
{
    if scale <= 0 {
        let mut m: i128 = unscaled;
        let mut k: i64 = 0;
        while k < -scale
            invariant
                0 <= k <= -scale <= 38,
                m == unscaled * pow10(k as nat),
                i128::MIN <= unscaled * pow10((-scale) as nat) <= i128::MAX,
            decreases -scale - k,
        {
            proof {
                lemma_pow10_grows(k as nat + 1, (-scale) as nat, unscaled as int);
                assert(unscaled * pow10((k + 1) as nat) == (unscaled * pow10(k as nat)) * 10) by (nonlinear_arith)
                    requires
                        pow10((k + 1) as nat) == 10 * pow10(k as nat),
                ;
            }
            m = m * 10;
            k = k + 1;
        }
        let mut s = String::new();
        if m < 0 {
            push_char(&mut s, '-');
        }
        let mag: u128 = if m < 0 { (0 - (m + 1)) as u128 + 1 } else { m as u128 };
        let d = dec_chars(mag);
        push_chars(&mut s, d.as_slice());
        assert(s@ =~= decimal_text(unscaled as int, scale as int));
        return s;
    }
    let mag: u128 = if unscaled < 0 { (0 - (unscaled + 1)) as u128 + 1 } else { unscaled as u128 };
    let digits = dec_chars(mag);
    let width: usize = scale as usize + 1;
    let len = digits.len();
    let mut s = String::new();
    if unscaled < 0 {
        push_char(&mut s, '-');
    }
    let ghost p = pad_digits(digits@, width as nat);
    if len < width {
        // Zero-padded: one zero before the point, then the zeros and digits after it.
        push_char(&mut s, '0');
        push_char(&mut s, '.');
        push_zeros(&mut s, width - 1 - len);
        push_chars(&mut s, digits.as_slice());
        proof {
            assert(p =~= zeros((width - len) as nat) + digits@);
            assert(p.take(p.len() - scale) =~= seq!['0']);
            assert(p.skip(p.len() - scale) =~= zeros((width - 1 - len) as nat) + digits@);
        }
    } else {
        let cut = len - scale as usize;
        push_chars(&mut s, vstd::slice::slice_subrange(digits.as_slice(), 0, cut));
        push_char(&mut s, '.');
        push_chars(&mut s, vstd::slice::slice_subrange(digits.as_slice(), cut, len));
        proof {
            assert(p == digits@);
            assert(p.take(p.len() - scale) =~= digits@.subrange(0, cut as int));
            assert(p.skip(p.len() - scale) =~= digits@.subrange(cut as int, len as int));
        }
    }
    assert(s@ =~= decimal_text(unscaled as int, scale as int));
    s
}

/// Multiplying by a smaller power of ten keeps a product in range.
proof fn lemma_pow10_grows(a: nat, b: nat, x: int)
    requires
        a <= b,
    ensures
        pow10(a) <= pow10(b),
        pow10(a) >= 1,
        x >= 0 ==> 0 <= x * pow10(a) <= x * pow10(b),
        x < 0 ==> x * pow10(b) <= x * pow10(a) < 0,
    decreases b,
{
    if a < b {
        lemma_pow10_grows(a, (b - 1) as nat, x);
        assert(pow10(b) == 10 * pow10((b - 1) as nat));
    } else {
        lemma_pow10_pos(a);
    }
    lemma_pow10_pos(a);
    lemma_pow10_pos(b);
    assert(x >= 0 ==> 0 <= x * pow10(a) <= x * pow10(b)) by (nonlinear_arith)
        requires
            pow10(a) <= pow10(b),
            pow10(a) >= 1,
    ;
    assert(x < 0 ==> x * pow10(b) <= x * pow10(a) < 0) by (nonlinear_arith)
        requires
            pow10(a) <= pow10(b),
            pow10(a) >= 1,
    ;
}

proof fn lemma_pow10_pos(n: nat)
    ensures
        pow10(n) >= 1,
    decreases n,
{
    if n > 0 {
        lemma_pow10_pos((n - 1) as nat);
    }
}

/// The unsigned value of big-endian bytes.
pub open spec fn be_value(b: Seq<u8>) -> int
    decreases b.len(),
{
    if b.len() == 0 {
        0
    } else {
        be_value(b.drop_last()) * 256 + b.last()
    }
}

/// 256 to the power `n`.
pub open spec fn pow256(n: nat) -> int
    decreases n,
{
    if n == 0 {
        1
    } else {
        256 * pow256((n - 1) as nat)
    }
}

/// The value of big-endian two's-complement bytes: the unsigned value, less 256 to the
/// number of bytes when the first byte's sign bit is set.
pub open spec fn twos_complement(b: Seq<u8>) -> int {
    if b[0] >= 128 {
        be_value(b) - pow256(b.len())
    } else {
        be_value(b)
    }
}

proof fn lemma_be_value_bound(b: Seq<u8>)
    ensures
        0 <= be_value(b) < pow256(b.len()),
        b.len() > 0 ==> (b[0] >= 128 <==> be_value(b) >= 128 * pow256((b.len() - 1) as nat)),
    decreases b.len(),
{
    if b.len() > 0 {
        lemma_be_value_bound(b.drop_last());
        let v = be_value(b.drop_last());
        let p = pow256(b.drop_last().len());
        assert(v * 256 + b.last() < p * 256) by (nonlinear_arith)
            requires
                0 <= v < p,
                b.last() < 256,
        ;
        assert(v * 256 + b.last() >= 0) by (nonlinear_arith)
            requires
                0 <= v,
                b.last() >= 0,
        ;
        if b.len() > 1 {
            assert(b.drop_last()[0] == b[0]);
            let q = pow256((b.len() - 2) as nat);
            assert(p == 256 * q);
            assert(v >= 128 * q ==> v * 256 + b.last() >= 128 * p) by (nonlinear_arith)
                requires
                    p == 256 * q,
                    b.last() >= 0,
            ;
            assert(v < 128 * q ==> v * 256 + b.last() < 128 * p) by (nonlinear_arith)
                requires
                    p == 256 * q,
                    b.last() < 256,
            ;
        } else {
            assert(b.drop_last().len() == 0);
            assert(be_value(b) == b[0]);
        }
    }
}

/// Big-endian two's-complement bytes, as DECIMAL values in byte arrays are stored; `None`
/// for no bytes or more than sixteen.
pub fn be_twos_complement(bytes: &[u8]) -> (v: Option<i128>)
    ensures
        0 < bytes@.len() <= 16 ==> i128::MIN <= twos_complement(bytes@) <= i128::MAX,
        bytes@.len() == 0 || bytes@.len() > 16 ==> v is None,
        0 < bytes@.len() <= 16 ==> v == Some(twos_complement(bytes@) as i128),
{
    if bytes.len() == 0 || bytes.len() > 16 {
        return None;
    }
    let mut u: u128 = 0;
    let mut i: usize = 0;
    proof {
        assert(bytes@.subrange(0, 0) =~= Seq::<u8>::empty());
    }
    while i < bytes.len()
        invariant
            i <= bytes@.len() <= 16,
            u == be_value(bytes@.subrange(0, i as int)),
        decreases bytes@.len() - i,
    {
        proof {
            assert(bytes@.subrange(0, i + 1).drop_last() =~= bytes@.subrange(0, i as int));
            lemma_be_value_bound(bytes@.subrange(0, i as int));
            lemma_pow256_16(i as nat);
            assert(u * 256 + bytes@[i as int] < 0x1_0000_0000_0000_0000_0000_0000_0000_0000) by (nonlinear_arith)
                requires
                    u < pow256(i as nat),
                    pow256(i as nat) * 256 <= 0x1_0000_0000_0000_0000_0000_0000_0000_0000,
                    bytes@[i as int] < 256,
            ;
        }
        u = u * 256 + bytes[i] as u128;
        i = i + 1;
    }
    proof {
        assert(bytes@.subrange(0, bytes@.len() as int) =~= bytes@);
        lemma_be_value_bound(bytes@);
        lemma_pow256_16((bytes@.len() - 1) as nat);
    }
    if bytes[0] >= 128 {
        // 256 to the n, less the unsigned value: at most 2 to the 127.
        let n = bytes.len();
        let d: u128 = if n == 16 {
            (u128::MAX - u) + 1
        } else {
            let mut p: u128 = 1;
            let mut k: usize = 0;
            while k < n
                invariant
                    k <= n < 16,
                    p == pow256(k as nat),
                decreases n - k,
            {
                proof {
                    lemma_pow256_16(k as nat);
                    lemma_pow256_16((k + 1) as nat);
                }
                p = p * 256;
                k = k + 1;
            }
            p - u
        };
        proof {
            lemma_pow256_16(15);
            lemma_pow256_16((n - 1) as nat);
            assert(d == pow256(n as nat) - u);
            assert(d <= 0x8000_0000_0000_0000_0000_0000_0000_0000) by (nonlinear_arith)
                requires
                    d == pow256(n as nat) - u,
                    u >= 128 * pow256((n - 1) as nat),
                    pow256(n as nat) == 256 * pow256((n - 1) as nat),
                    pow256((n - 1) as nat) * 256 <= 0x1_0000_0000_0000_0000_0000_0000_0000_0000,
            ;
        }
        if d == 0x8000_0000_0000_0000_0000_0000_0000_0000u128 {
            Some(i128::MIN)
        } else {
            Some(-(d as i128))
        }
    } else {
        proof {
            assert(u < 128 * pow256((bytes@.len() - 1) as nat));
            lemma_pow256_16((bytes@.len() - 1) as nat);
        }
        Some(u as i128)
    }
}

/// 256 to the power of anything up to sixteen is small enough to count with.
proof fn lemma_pow256_16(n: nat)
    requires
        n <= 15,
    ensures
        pow256(n) * 256 <= 0x1_0000_0000_0000_0000_0000_0000_0000_0000,
        pow256(n + 1) == pow256(n) * 256,
        pow256(n) >= 1,
        n == 15 ==> pow256(n) * 256 == 0x1_0000_0000_0000_0000_0000_0000_0000_0000,
        n == 15 ==> 128 * pow256(n) == 0x8000_0000_0000_0000_0000_0000_0000_0000,
    decreases n,
{
    reveal_with_fuel(pow256, 17);
    if n > 0 {
        lemma_pow256_16((n - 1) as nat);
    }
}

/// How a logical type's text names a time unit.
pub open spec fn unit_text(u: Option<TimeUnit>) -> Seq<char> {
    match u {
        Some(TimeUnit::Millis) => "MILLIS"@,
        Some(TimeUnit::Micros) => "MICROS"@,
        Some(TimeUnit::Nanos) => "NANOS"@,
        None => "?"@,
    }
}

/// How a logical type's text says whether a time is adjusted to UTC.
pub open spec fn zone_text(utc: bool) -> Seq<char> {
    if utc {
        "UTC"@
    } else {
        "local"@
    }
}

/// A logical type as the schema browser shows it: `DATE`, `DECIMAL(9, 2)`, `TIME(MILLIS, UTC)`.
pub open spec fn logical_text(l: LogicalType) -> Seq<char> {
    match l {
        LogicalType::String => "STRING"@,
        LogicalType::MapOf => "MAP"@,
        LogicalType::List => "LIST"@,
        LogicalType::Enum => "ENUM"@,
        LogicalType::Decimal { scale, precision } => "DECIMAL("@ + signed_dec(precision as int)
            + ", "@ + signed_dec(scale as int) + ")"@,
        LogicalType::Date => "DATE"@,
        LogicalType::Time { utc, unit } => "TIME("@ + unit_text(unit) + ", "@ + zone_text(utc)
            + ")"@,
        LogicalType::Timestamp { utc, unit } => "TIMESTAMP("@ + unit_text(unit) + ", "@
            + zone_text(utc) + ")"@,
        LogicalType::Integer { bit_width, signed } => "INTEGER("@ + signed_dec(bit_width as int)
            + ", "@ + (if signed {
            "signed"@
        } else {
            "unsigned"@
        }) + ")"@,
        LogicalType::Unknown => "UNKNOWN"@,
        LogicalType::Json => "JSON"@,
        LogicalType::Bson => "BSON"@,
        LogicalType::Uuid => "UUID"@,
        LogicalType::Float16 => "FLOAT16"@,
        LogicalType::Variant => "VARIANT"@,
        LogicalType::Geometry => "GEOMETRY"@,
        LogicalType::Geography => "GEOGRAPHY"@,
        LogicalType::Other(id) => "logical type "@ + signed_dec(id as int),
    }
}

fn push_unit(s: &mut String, u: Option<TimeUnit>)
    ensures
        final(s)@ == old(s)@ + unit_text(u),
{
    match u {
        Some(TimeUnit::Millis) => s.append("MILLIS"),
        Some(TimeUnit::Micros) => s.append("MICROS"),
        Some(TimeUnit::Nanos) => s.append("NANOS"),
        None => s.append("?"),
    }
}

fn push_zone(s: &mut String, utc: bool)
    ensures
        final(s)@ == old(s)@ + zone_text(utc),
{
    if utc {
        s.append("UTC");
    } else {
        s.append("local");
    }
}

impl LogicalType {
    /// The type as text, the way the schema browser shows it.
    pub fn to_string(&self) -> (r: String)
        ensures
            r@ == logical_text(*self),
    {
        let mut s = String::new();
        match self {
            LogicalType::String => s.append("STRING"),
            LogicalType::MapOf => s.append("MAP"),
            LogicalType::List => s.append("LIST"),
            LogicalType::Enum => s.append("ENUM"),
            LogicalType::Decimal { scale, precision } => {
                s.append("DECIMAL(");
                push_i64(&mut s, *precision);
                s.append(", ");
                push_i64(&mut s, *scale);
                s.append(")");
            },
            LogicalType::Date => s.append("DATE"),
            LogicalType::Time { utc, unit } => {
                s.append("TIME(");
                push_unit(&mut s, *unit);
                s.append(", ");
                push_zone(&mut s, *utc);
                s.append(")");
            },
            LogicalType::Timestamp { utc, unit } => {
                s.append("TIMESTAMP(");
                push_unit(&mut s, *unit);
                s.append(", ");
                push_zone(&mut s, *utc);
                s.append(")");
            },
            LogicalType::Integer { bit_width, signed } => {
                s.append("INTEGER(");
                push_i64(&mut s, *bit_width);
                s.append(", ");
                if *signed {
                    s.append("signed");
                } else {
                    s.append("unsigned");
                }
                s.append(")");
            },
            LogicalType::Unknown => s.append("UNKNOWN"),
            LogicalType::Json => s.append("JSON"),
            LogicalType::Bson => s.append("BSON"),
            LogicalType::Uuid => s.append("UUID"),
            LogicalType::Float16 => s.append("FLOAT16"),
            LogicalType::Variant => s.append("VARIANT"),
            LogicalType::Geometry => s.append("GEOMETRY"),
            LogicalType::Geography => s.append("GEOGRAPHY"),
            LogicalType::Other(id) => {
                s.append("logical type ");
                push_i64(&mut s, *id as i64);
            },
        }
        assert(s@ =~= logical_text(*self));
        s
    }
}

/// The fields of a struct node; `None` for any other node.
pub open spec fn struct_fields(n: NodeV) -> Option<Seq<FieldV>> {
    match n.value {
        ValueV::Struct(fs) => Some(fs),
        _ => None,
    }
}

/// The integer in the first field with the given id, if that field holds an integer.
pub open spec fn int_in(fs: Seq<FieldV>, id: i16) -> Option<i64> {
    match find_field(fs, id) {
        Some(i) => match fs[i].node.value {
            ValueV::Int(v) => Some(v),
            _ => None,
        },
        None => None,
    }
}

/// The boolean in the first field with the given id, if that field holds a boolean.
pub open spec fn bool_in(fs: Seq<FieldV>, id: i16) -> Option<bool> {
    match find_field(fs, id) {
        Some(i) => match fs[i].node.value {
            ValueV::Bool(v) => Some(v),
            _ => None,
        },
        None => None,
    }
}

/// The unit of a TIME or TIMESTAMP annotation: field 2, a union whose member id names it.
pub open spec fn unit_in(fs: Seq<FieldV>) -> Option<TimeUnit> {
    match find_field(fs, 2) {
        Some(i) => match fs[i].node.value {
            ValueV::Struct(u) => if u.len() == 0 {
                None
            } else if u[0].id == 1 {
                Some(TimeUnit::Millis)
            } else if u[0].id == 2 {
                Some(TimeUnit::Micros)
            } else if u[0].id == 3 {
                Some(TimeUnit::Nanos)
            } else {
                None
            },
            _ => None,
        },
        None => None,
    }
}

pub open spec fn int_or(inner: Option<Seq<FieldV>>, id: i16, default: i64) -> i64 {
    match inner {
        Some(fs) => match int_in(fs, id) {
            Some(v) => v,
            None => default,
        },
        None => default,
    }
}

pub open spec fn bool_or(inner: Option<Seq<FieldV>>, id: i16, default: bool) -> bool {
    match inner {
        Some(fs) => match bool_in(fs, id) {
            Some(v) => v,
            None => default,
        },
        None => default,
    }
}

pub open spec fn unit_of(inner: Option<Seq<FieldV>>) -> Option<TimeUnit> {
    match inner {
        Some(fs) => unit_in(fs),
        None => None,
    }
}

/// The logical type a union member names by its id, with the parameters its struct holds.
pub open spec fn member_type(id: i16, inner: Option<Seq<FieldV>>) -> LogicalType {
    if id == 1 {
        LogicalType::String
    } else if id == 2 {
        LogicalType::MapOf
    } else if id == 3 {
        LogicalType::List
    } else if id == 4 {
        LogicalType::Enum
    } else if id == 5 {
        LogicalType::Decimal { scale: int_or(inner, 1, 0), precision: int_or(inner, 2, 0) }
    } else if id == 6 {
        LogicalType::Date
    } else if id == 7 {
        LogicalType::Time { utc: bool_or(inner, 1, false), unit: unit_of(inner) }
    } else if id == 8 {
        LogicalType::Timestamp { utc: bool_or(inner, 1, false), unit: unit_of(inner) }
    } else if id == 10 {
        LogicalType::Integer { bit_width: int_or(inner, 1, 0), signed: bool_or(inner, 2, true) }
    } else if id == 11 {
        LogicalType::Unknown
    } else if id == 12 {
        LogicalType::Json
    } else if id == 13 {
        LogicalType::Bson
    } else if id == 14 {
        LogicalType::Uuid
    } else if id == 15 {
        LogicalType::Float16
    } else if id == 16 {
        LogicalType::Variant
    } else if id == 17 {
        LogicalType::Geometry
    } else if id == 18 {
        LogicalType::Geography
    } else {
        LogicalType::Other(id)
    }
}

/// A `LogicalType` union: its first member says which type it is. `None` when the node is not
/// a struct or has no member.
pub open spec fn logical_of(n: NodeV) -> Option<LogicalType> {
    match n.value {
        ValueV::Struct(fs) => if fs.len() == 0 {
            None
        } else {
            Some(member_type(fs[0].id, struct_fields(fs[0].node)))
        },
        _ => None,
    }
}

fn int_field(s: &Struct, id: i16) -> (r: Option<i64>)
    ensures
        r == int_in(field_views(s.fields@), id),
{
    proof {
        lemma_find_field_views(s.fields@, id);
    }
    match s.field(id) {
        Some(f) => match f.node.value {
            Value::Int(v) => Some(v),
            _ => None,
        },
        None => None,
    }
}

fn bool_field(s: &Struct, id: i16) -> (r: Option<bool>)
    ensures
        r == bool_in(field_views(s.fields@), id),
{
    proof {
        lemma_find_field_views(s.fields@, id);
    }
    match s.field(id) {
        Some(f) => match f.node.value {
            Value::Bool(v) => Some(v),
            _ => None,
        },
        None => None,
    }
}

fn time_unit(s: &Struct) -> (r: Option<TimeUnit>)
    ensures
        r == unit_in(field_views(s.fields@)),
{
    proof {
        lemma_find_field_views(s.fields@, 2);
    }
    match s.field(2) {
        Some(f) => match &f.node.value {
            Value::Struct(u) => {
                if u.fields.len() == 0 {
                    None
                } else {
                    let id = u.fields[0].id;
                    assert(field_views(u.fields@)[0].id == id);
                    if id == 1 {
                        Some(TimeUnit::Millis)
                    } else if id == 2 {
                        Some(TimeUnit::Micros)
                    } else if id == 3 {
                        Some(TimeUnit::Nanos)
                    } else {
                        None
                    }
                }
            },
            _ => None,
        },
        None => None,
    }
}

/// Decode a `LogicalType` union: its first member's id says which type it is.
pub fn decode(node: &Node) -> (r: Option<LogicalType>)
    ensures
        r == logical_of(node_view(*node)),
{
    let union = match &node.value {
        Value::Struct(u) => u,
        _ => {
            return None;
        },
    };
    if union.fields.len() == 0 {
        return None;
    }
    let member = &union.fields[0];
    assert(field_views(union.fields@)[0] == crate::thrift::field_view(*member));
    let inner: Option<&Struct> = match &member.node.value {
        Value::Struct(s) => Some(s),
        _ => None,
    };
    let int_or_zero = |id: i16| -> (v: i64)
        ensures
            v == int_or(struct_fields(node_view(member.node)), id, 0),
        {
            match inner {
                Some(s) => match int_field(s, id) {
                    Some(v) => v,
                    None => 0,
                },
                None => 0,
            }
        };
    let flag_or = |id: i16, d: bool| -> (v: bool)
        ensures
            v == bool_or(struct_fields(node_view(member.node)), id, d),
        {
            match inner {
                Some(s) => match bool_field(s, id) {
                    Some(v) => v,
                    None => d,
                },
                None => d,
            }
        };
    let unit: Option<TimeUnit> = match inner {
        Some(s) => time_unit(s),
        None => None,
    };
    let id = member.id;
    let t = if id == 1 {
        LogicalType::String
    } else if id == 2 {
        LogicalType::MapOf
    } else if id == 3 {
        LogicalType::List
    } else if id == 4 {
        LogicalType::Enum
    } else if id == 5 {
        LogicalType::Decimal { scale: int_or_zero(1), precision: int_or_zero(2) }
    } else if id == 6 {
        LogicalType::Date
    } else if id == 7 {
        LogicalType::Time { utc: flag_or(1, false), unit }
    } else if id == 8 {
        LogicalType::Timestamp { utc: flag_or(1, false), unit }
    } else if id == 10 {
        LogicalType::Integer { bit_width: int_or_zero(1), signed: flag_or(2, true) }
    } else if id == 11 {
        LogicalType::Unknown
    } else if id == 12 {
        LogicalType::Json
    } else if id == 13 {
        LogicalType::Bson
    } else if id == 14 {
        LogicalType::Uuid
    } else if id == 15 {
        LogicalType::Float16
    } else if id == 16 {
        LogicalType::Variant
    } else if id == 17 {
        LogicalType::Geometry
    } else if id == 18 {
        LogicalType::Geography
    } else {
        LogicalType::Other(id)
    };
    Some(t)
}

/// Four little-endian bytes as a signed 32-bit integer.
pub open spec fn le_i32_value(b: Seq<u8>) -> int {
    let u = le_u32_value(b);
    if u >= 0x8000_0000 {
        u - 0x1_0000_0000
    } else {
        u
    }
}

/// Eight little-endian bytes as a signed 64-bit integer.
pub open spec fn le_i64_value(b: Seq<u8>) -> int {
    let u = le_u64_value(b);
    if u >= 0x8000_0000_0000_0000 {
        u - 0x1_0000_0000_0000_0000
    } else {
        u
    }
}

/// Four bytes from position `i`, as a little-endian unsigned integer.
pub(crate) fn le_u32_at(b: &[u8], i: usize) -> (v: u32)
    requires
        i + 4 <= b@.len(),
    ensures
        v == le_u32_value(b@.subrange(i as int, i + 4)),
{
    read_le_u32([b[i], b[i + 1], b[i + 2], b[i + 3]])
}

/// Four bytes from position `i`, as a little-endian signed integer.
pub(crate) fn le_i32_at(b: &[u8], i: usize) -> (v: i32)
    requires
        i + 4 <= b@.len(),
    ensures
        v == le_i32_value(b@.subrange(i as int, i + 4)),
{
    let u = le_u32_at(b, i);
    if u >= 0x8000_0000 {
        -((0xFFFF_FFFFu32 - u) as i32) - 1
    } else {
        u as i32
    }
}

/// Eight bytes from position `i`, as a little-endian unsigned integer.
pub(crate) fn le_u64_at(b: &[u8], i: usize) -> (v: u64)
    requires
        i + 8 <= b@.len(),
    ensures
        v == le_u64_value(b@.subrange(i as int, i + 8)),
{
    let n = b.len();
    let lo = le_u32_at(b, i);
    let hi = le_u32_at(b, i + 4);
    assert(b@.subrange(i as int, i + 8).subrange(4, 8) =~= b@.subrange(i + 4, i + 8));
    lo as u64 + 4294967296 * (hi as u64)
}

/// Eight bytes from position `i`, as a little-endian signed integer.
pub(crate) fn le_i64_at(b: &[u8], i: usize) -> (v: i64)
    requires
        i + 8 <= b@.len(),
    ensures
        v == le_i64_value(b@.subrange(i as int, i + 8)),
{
    let u = le_u64_at(b, i);
    if u >= 0x8000_0000_0000_0000 {
        -((0xFFFF_FFFF_FFFF_FFFFu64 - u) as i64) - 1
    } else {
        u as i64
    }
}

/// Sixteen bytes as a UUID: each byte in two hexadecimal digits, with a dash before bytes 4, 6,
/// 8 and 10.
pub open spec fn uuid_text(b: Seq<u8>) -> Seq<char> {
    uuid_prefix(b, 16)
}

/// The first `n` bytes of a UUID's text.
pub open spec fn uuid_prefix(b: Seq<u8>, n: nat) -> Seq<char>
    decreases n,
{
    if n == 0 {
        Seq::empty()
    } else {
        let k = (n - 1) as nat;
        uuid_prefix(b, k) + (if k == 4 || k == 6 || k == 8 || k == 10 {
            seq!['-']
        } else {
            Seq::empty()
        }) + hex_byte(b[k as int])
    }
}

/// Whether `decimal` can write an unscaled value at a scale: a negative scale multiplies, and
/// the product must fit.
pub open spec fn decimal_fits(unscaled: int, scale: int) -> bool {
    &&& scale <= 0 ==> -scale <= 38 && i128::MIN <= unscaled * pow10((-scale) as nat) <= i128::MAX
    &&& scale < usize::MAX
}

/// Whether `decimal` can write an unscaled value at a scale.
pub fn decimal_fits_check(unscaled: i128, scale: i64) -> (b: bool)
    ensures
        b == decimal_fits(unscaled as int, scale as int),
{
    if scale as i128 >= usize::MAX as i128 {
        return false;
    }
    if scale > 0 {
        return true;
    }
    if scale < -38 {
        return false;
    }
    let n: i64 = -scale;
    let mut m: i128 = unscaled;
    let mut k: i64 = 0;
    while k < n
        invariant
            0 <= k <= n <= 38,
            n == -scale,
            scale < usize::MAX,
            m == unscaled * pow10(k as nat),
        decreases n - k,
    {
        proof {
            lemma_pow10_grows(k as nat + 1, n as nat, unscaled as int);
            assert(unscaled * pow10((k + 1) as nat) == (unscaled * pow10(k as nat)) * 10) by (nonlinear_arith)
                requires
                    pow10((k + 1) as nat) == 10 * pow10(k as nat),
            ;
        }
        match m.checked_mul(10) {
            Some(x) => {
                m = x;
            },
            None => {
                return false;
            },
        }
        k = k + 1;
    }
    true
}

/// Whether `interpret` can read a value: a decimal's unscaled value must fit at its scale.
pub fn interpret_fits_check(physical: PhysicalType, logical: &LogicalType, bytes: &[u8]) -> (b: bool)
    ensures
        b == interpret_fits(physical.0, *logical, bytes@),
{
    match logical {
        LogicalType::Decimal { scale, .. } => {
            let p = physical.0;
            let n = bytes.len();
            proof {
                if n == 4 {
                    assert(bytes@.subrange(0, 4) =~= bytes@);
                }
                if n == 8 {
                    assert(bytes@.subrange(0, 8) =~= bytes@);
                }
            }
            if p == 1 && n == 4 {
                decimal_fits_check(le_i32_at(bytes, 0) as i128, *scale as i64)
            } else if p == 2 && n == 8 {
                decimal_fits_check(le_i64_at(bytes, 0) as i128, *scale as i64)
            } else if (p == 6 || p == 7) && 0 < n && n <= 16 {
                match be_twos_complement(bytes) {
                    Some(v) => decimal_fits_check(v, *scale as i64),
                    None => true,
                }
            } else {
                true
            }
        },
        _ => true,
    }
}

/// What a PLAIN value's bytes mean through a logical type; `None` where the bytes do not fit
/// the type, or the logical type adds nothing to the physical reading.
pub open spec fn interpret_text(physical: i64, l: LogicalType, b: Seq<u8>) -> Option<Seq<char>> {
    let four = physical == 1 && b.len() == 4;
    let eight = physical == 2 && b.len() == 8;
    let arrays = physical == 6 || physical == 7;
    match l {
        LogicalType::Date => if four {
            Some(date_text(le_i32_value(b)))
        } else {
            None
        },
        LogicalType::Integer { bit_width, signed } => if signed && ((four && bit_width == 32) || (
        eight && bit_width == 64)) {
            None
        } else if four {
            Some(
                if signed {
                    signed_dec(le_i32_value(b))
                } else {
                    dec(le_u32_value(b) as nat)
                },
            )
        } else if eight {
            Some(
                if signed {
                    signed_dec(le_i64_value(b))
                } else {
                    dec(le_u64_value(b) as nat)
                },
            )
        } else {
            None
        },
        LogicalType::Timestamp { utc, unit } => match unit {
            Some(u) => if eight {
                Some(timestamp_text(le_i64_value(b), u, utc))
            } else {
                None
            },
            None => None,
        },
        LogicalType::Time { unit, .. } => match unit {
            Some(u) => if four {
                Some(time_text(le_i32_value(b), u))
            } else if eight {
                Some(time_text(le_i64_value(b), u))
            } else {
                None
            },
            None => None,
        },
        LogicalType::Decimal { scale, .. } => if four {
            Some(decimal_text(le_i32_value(b), scale as int))
        } else if eight {
            Some(decimal_text(le_i64_value(b), scale as int))
        } else if arrays && 0 < b.len() <= 16 {
            Some(decimal_text(twos_complement(b), scale as int))
        } else {
            None
        },
        LogicalType::String | LogicalType::Enum | LogicalType::Json => if arrays && valid_utf8(b) {
            Some(debug_text(decode_utf8(b)))
        } else {
            None
        },
        LogicalType::Uuid => if physical == 7 && b.len() == 16 {
            Some(uuid_text(b))
        } else {
            None
        },
        _ => None,
    }
}

/// The inputs on which reading a value through its logical type would overflow: a decimal with
/// a negative scale whose product is too large.
pub open spec fn interpret_fits(physical: i64, l: LogicalType, b: Seq<u8>) -> bool {
    match l {
        LogicalType::Decimal { scale, .. } => {
            &&& physical == 1 && b.len() == 4 ==> decimal_fits(le_i32_value(b), scale as int)
            &&& physical == 2 && b.len() == 8 ==> decimal_fits(le_i64_value(b), scale as int)
            &&& (physical == 6 || physical == 7) && 0 < b.len() <= 16 ==> decimal_fits(
                twos_complement(b),
                scale as int,
            )
        },
        _ => true,
    }
}

/// A half-precision float: the one reading that needs floating point, which this library
/// leaves to its caller.
pub open spec fn is_half_float(physical: i64, l: LogicalType, b: Seq<u8>) -> bool {
    physical == 7 && l is Float16 && b.len() == 2
}

fn uuid(bytes: &[u8]) -> (s: String)
    requires
        bytes@.len() == 16,
    ensures
        s@ == uuid_text(bytes@),
{
    let mut s = String::new();
    let mut i: usize = 0;
    while i < 16
        invariant
            i <= 16,
            bytes@.len() == 16,
            s@ == uuid_prefix(bytes@, i as nat),
        decreases 16 - i,
    {
        if i == 4 || i == 6 || i == 8 || i == 10 {
            push_char(&mut s, '-');
        }
        push_hex_byte(&mut s, bytes[i]);
        i = i + 1;
        assert(s@ =~= uuid_prefix(bytes@, i as nat));
    }
    s
}

/// One PLAIN-encoded value, read through its logical type. `None` when the bytes do not fit the
/// type, or the logical type adds nothing to the physical reading. A PLAIN statistics value has
/// no length prefix, so a `BYTE_ARRAY` value here is the bare bytes.
pub fn interpret(physical: PhysicalType, logical: &LogicalType, bytes: &[u8]) -> (r: Option<String>)
    requires
        !is_half_float(physical.0, *logical, bytes@),
        interpret_fits(physical.0, *logical, bytes@),
    ensures
        match interpret_text(physical.0, *logical, bytes@) {
            Some(t) => r matches Some(s) && s@ == t,
            None => r is None,
        },
{
    let p = physical.0;
    let n = bytes.len();
    let four = p == 1 && n == 4;
    let eight = p == 2 && n == 8;
    let arrays = p == 6 || p == 7;
    proof {
        if four {
            assert(bytes@.subrange(0, 4) =~= bytes@);
        }
        if eight {
            assert(bytes@.subrange(0, 8) =~= bytes@);
        }
    }
    match logical {
        LogicalType::Date => if four {
            Some(date_from_days(le_i32_at(bytes, 0) as i64))
        } else {
            None
        },
        LogicalType::Integer { bit_width, signed } => if *signed && ((four && *bit_width == 32) || (
        eight && *bit_width == 64)) {
            // A signed integer as wide as the physical type reads just as the physical type does.
            None
        } else if four {
            if *signed {
                Some(i64_text(le_i32_at(bytes, 0) as i64))
            } else {
                Some(u64_text(le_u32_at(bytes, 0) as u64))
            }
        } else if eight {
            if *signed {
                Some(i64_text(le_i64_at(bytes, 0)))
            } else {
                Some(u64_text(le_u64_at(bytes, 0)))
            }
        } else {
            None
        },
        LogicalType::Timestamp { utc, unit } => match unit {
            Some(u) => if eight {
                Some(timestamp(le_i64_at(bytes, 0), *u, *utc))
            } else {
                None
            },
            None => None,
        },
        LogicalType::Time { unit, .. } => match unit {
            Some(u) => if four {
                Some(time_of_day(le_i32_at(bytes, 0) as i64, *u))
            } else if eight {
                Some(time_of_day(le_i64_at(bytes, 0), *u))
            } else {
                None
            },
            None => None,
        },
        LogicalType::Decimal { scale, .. } => if four {
            Some(decimal(le_i32_at(bytes, 0) as i128, *scale))
        } else if eight {
            Some(decimal(le_i64_at(bytes, 0) as i128, *scale))
        } else if arrays && 0 < n && n <= 16 {
            match be_twos_complement(bytes) {
                Some(v) => Some(decimal(v, *scale)),
                None => None,
            }
        } else {
            None
        },
        LogicalType::String | LogicalType::Enum | LogicalType::Json => if arrays {
            match utf8_str(bytes) {
                Ok(text) => Some(debug_quoted(text)),
                Err(_) => None,
            }
        } else {
            None
        },
        LogicalType::Uuid => if p == 7 && n == 16 {
            Some(uuid(bytes))
        } else {
            None
        },
        _ => None,
    }
}

/// The instant an `INT96` value names, in nanoseconds since 1970-01-01: eight bytes of
/// nanoseconds within the day, then a four-byte Julian day, of which 2440588 is 1970-01-01.
pub open spec fn int96_ticks(b: Seq<u8>) -> int {
    (le_i32_value(b.subrange(8, 12)) - 2_440_588) * 86_400_000_000_000 + le_i64_value(
        b.subrange(0, 8),
    )
}

/// Whether an `INT96` value's instant, and the day's start on the way to it, count in
/// nanoseconds within 64 bits.
pub open spec fn int96_fits(b: Seq<u8>) -> bool {
    let day = (le_i32_value(b.subrange(8, 12)) - 2_440_588) * 86_400_000_000_000;
    &&& i64::MIN <= day <= i64::MAX
    &&& i64::MIN <= int96_ticks(b) <= i64::MAX
}

/// An `INT96` timestamp as text; `None` unless there are exactly twelve bytes.
///
/// Deprecated, and still written by some engines. It has no logical type: the convention lives
/// outside the specification.
pub fn int96_timestamp(bytes: &[u8]) -> (r: Option<String>)
    requires
        bytes@.len() == 12 ==> int96_fits(bytes@),
    ensures
        bytes@.len() != 12 ==> r is None,
        bytes@.len() == 12 ==> (r matches Some(s) && s@ == timestamp_text(
            int96_ticks(bytes@),
            TimeUnit::Nanos,
            false,
        )),
{
    if bytes.len() != 12 {
        return None;
    }
    let nanos = le_i64_at(bytes, 0);
    let julian = le_i32_at(bytes, 8) as i64;
    let days = julian - 2_440_588;
    let day = days * 86_400 * 1_000_000_000;
    Some(timestamp(day + nanos, TimeUnit::Nanos, false))
}

} // verus!
