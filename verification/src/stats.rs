//! Statistics: what the footer says about a column chunk's values, and when a reader may
//! believe it.
//!
//! A column chunk's `Statistics` hold a minimum and a maximum as bytes. They mean something only
//! with an order, and the right order depends on the column's type, not on its bytes:
//!
//! | Column | Order |
//! |---|---|
//! | `INT32`, `INT64`, and the dates, times and timestamps on them | signed |
//! | `INT32`, `INT64` marked as unsigned integers | unsigned |
//! | `FLOAT`, `DOUBLE`, `FLOAT16` | signed, by value, with NaN left out |
//! | `DECIMAL` on bytes | signed, as a big-endian two's complement number |
//! | any other byte array: strings, UUIDs, binary | unsigned, byte by byte |
//! | `INT96`, `INTERVAL` | undefined |
//!
//! Floating-point values are compared through their bits: a non-NaN float's order is the
//! order of its magnitude bits, negated when the sign bit is set, so no float arithmetic is
//! needed to place one.

use std::cmp::Ordering;

use vstd::prelude::*;

use crate::bytes::{le_u32_value, le_u64_value};
use crate::logical::{
    be_twos_complement, le_i32_at, le_i32_value, le_i64_at, le_i64_value, le_u32_at, le_u64_at,
    twos_complement, LogicalType,
};
use crate::metadata::{opt_bytes_view, opt_text, Statistics};
use crate::schema::Leaf;
use crate::text::str_eq;

verus! {

/// The three sort orders the format distinguishes.
#[derive(Clone, Copy, Debug, PartialEq, Eq, Structural)]
pub enum SortOrder {
    Signed,
    Unsigned,
    Undefined,
}

impl SortOrder {
    pub fn name(&self) -> (n: &'static str)
        ensures
            n@ == match *self {
                SortOrder::Signed => "signed"@,
                SortOrder::Unsigned => "unsigned"@,
                SortOrder::Undefined => "undefined"@,
            },
    {
        match self {
            SortOrder::Signed => "signed",
            SortOrder::Unsigned => "unsigned",
            SortOrder::Undefined => "undefined",
        }
    }
}

/// How to compare two PLAIN-encoded values of one column (without a length prefix).
#[derive(Clone, Copy, Debug, PartialEq, Eq, Structural)]
pub enum Comparator {
    Bool,
    I32,
    U32,
    I64,
    U64,
    F32,
    F64,
    F16,
    /// A decimal stored in bytes: big-endian two's complement.
    BigEndianSigned,
    /// Strings and other byte arrays: byte by byte, each byte unsigned, shorter first on a tie.
    Bytes,
    /// Byte by byte with each byte signed, as Java's `byte` compares. Never right; it is how
    /// early writers computed the deprecated `min` and `max` of strings.
    SignedBytes,
    /// A float's bits compared as a signed integer. Never right either.
    FloatBits,
    /// No order at all: INT96 and INTERVAL.
    NoOrder,
}

/// Whether a converted type names an unsigned integer.
pub open spec fn unsigned_name(c: Option<Seq<char>>) -> bool {
    match c {
        Some(s) => s == "UINT_8"@ || s == "UINT_16"@ || s == "UINT_32"@ || s == "UINT_64"@,
        None => false,
    }
}

/// The comparator for a column of physical type `physical`, with its logical type and its
/// converted type.
pub open spec fn comparator_for(
    physical: i64,
    logical: Option<LogicalType>,
    converted: Option<Seq<char>>,
) -> Comparator {
    let unsigned = (logical matches Some(LogicalType::Integer { signed, .. }) && !signed)
        || unsigned_name(converted);
    let decimal = (logical matches Some(LogicalType::Decimal { .. })) || converted == Some(
        "DECIMAL"@,
    );
    if physical == 0 {
        Comparator::Bool
    } else if physical == 1 {
        if unsigned {
            Comparator::U32
        } else {
            Comparator::I32
        }
    } else if physical == 2 {
        if unsigned {
            Comparator::U64
        } else {
            Comparator::I64
        }
    } else if physical == 4 {
        Comparator::F32
    } else if physical == 5 {
        Comparator::F64
    } else if physical == 7 && logical == Some(LogicalType::Float16) {
        Comparator::F16
    } else if physical == 7 && converted == Some("INTERVAL"@) {
        Comparator::NoOrder
    } else if (physical == 6 || physical == 7) && decimal {
        Comparator::BigEndianSigned
    } else if physical == 6 || physical == 7 {
        Comparator::Bytes
    } else {
        Comparator::NoOrder
    }
}

pub open spec fn order_of(c: Comparator) -> SortOrder {
    match c {
        Comparator::U32 | Comparator::U64 | Comparator::Bytes => SortOrder::Unsigned,
        Comparator::NoOrder => SortOrder::Undefined,
        _ => SortOrder::Signed,
    }
}

pub open spec fn comparator_name(c: Comparator) -> Seq<char> {
    match c {
        Comparator::Bool => "booleans, false first"@,
        Comparator::I32 | Comparator::I64 => "signed integers"@,
        Comparator::U32 | Comparator::U64 => "unsigned integers"@,
        Comparator::F32 | Comparator::F64 | Comparator::F16 => "floating-point values, leaving out NaN"@,
        Comparator::BigEndianSigned => "signed big-endian integers"@,
        Comparator::Bytes => "unsigned bytes"@,
        Comparator::SignedBytes => "signed bytes"@,
        Comparator::FloatBits => "the bits as signed integers"@,
        Comparator::NoOrder => "nothing, because the order is undefined"@,
    }
}

/// The mistaken comparator a reader is most likely to use for a column of this one.
pub open spec fn mistaken(c: Comparator) -> Option<Comparator> {
    match c {
        Comparator::U32 => Some(Comparator::I32),
        Comparator::U64 => Some(Comparator::I64),
        Comparator::I32 => Some(Comparator::U32),
        Comparator::I64 => Some(Comparator::U64),
        Comparator::Bytes => Some(Comparator::SignedBytes),
        Comparator::BigEndianSigned => Some(Comparator::Bytes),
        Comparator::F32 | Comparator::F64 => Some(Comparator::FloatBits),
        _ => None,
    }
}

/// The order of two integers.
pub open spec fn int_order(x: int, y: int) -> Ordering {
    if x < y {
        Ordering::Less
    } else if x == y {
        Ordering::Equal
    } else {
        Ordering::Greater
    }
}

/// A byte as a number.
pub open spec fn byte_value(x: u8) -> int {
    x as int
}

/// A byte read as a signed number, as Java's `byte` reads it.
pub open spec fn signed_byte(x: u8) -> int {
    if x >= 128 {
        x - 256
    } else {
        byte_value(x)
    }
}

/// Two byte strings in dictionary order: the first differing byte decides, and a prefix comes
/// first. With `signed`, each byte is read as a signed number.
pub open spec fn lex_order(a: Seq<u8>, b: Seq<u8>, signed: bool) -> Ordering
    decreases a.len(),
{
    if a.len() == 0 {
        if b.len() == 0 {
            Ordering::Equal
        } else {
            Ordering::Less
        }
    } else if b.len() == 0 {
        Ordering::Greater
    } else if a[0] != b[0] {
        if signed {
            int_order(signed_byte(a[0]), signed_byte(b[0]))
        } else {
            int_order(byte_value(a[0]), byte_value(b[0]))
        }
    } else {
        lex_order(a.drop_first(), b.drop_first(), signed)
    }
}

/// An IEEE 754 value's bits are NaN: the exponent is all ones and the mantissa is not zero.
/// `m` is two to the number of mantissa bits, `e` two to the number of exponent bits.
pub open spec fn is_nan_bits(bits: int, m: int, e: int) -> bool {
    (bits / m) % e == e - 1 && bits % m != 0
}

/// Where a float sits in the order of values: its magnitude bits, negated when the sign bit
/// `sign` is set. Both zeros sit at 0.
pub open spec fn float_key(bits: int, sign: int) -> int {
    if bits >= sign {
        -(bits - sign)
    } else {
        bits
    }
}

/// The order of two floats given by their bits; `None` when either is NaN.
pub open spec fn float_order(a: int, b: int, sign: int, m: int, e: int) -> Option<Ordering> {
    if is_nan_bits(a, m, e) || is_nan_bits(b, m, e) {
        None
    } else {
        Some(int_order(float_key(a, sign), float_key(b, sign)))
    }
}

/// Two little-endian bytes as an unsigned integer.
pub open spec fn le_u16_value(b: Seq<u8>) -> int {
    b[0] + 256 * b[1]
}

/// How two PLAIN values compare in a comparator's order: `None` when either is not a valid
/// value of the type, or either is NaN, which has no place in the order.
#[verifier::opaque]
pub open spec fn value_order(c: Comparator, a: Seq<u8>, b: Seq<u8>) -> Option<Ordering> {
    match c {
        Comparator::Bool => if a.len() > 0 && b.len() > 0 {
            Some(int_order(byte_value(a[0]), byte_value(b[0])))
        } else {
            None
        },
        Comparator::I32 => if a.len() == 4 && b.len() == 4 {
            Some(int_order(le_i32_value(a), le_i32_value(b)))
        } else {
            None
        },
        Comparator::U32 => if a.len() == 4 && b.len() == 4 {
            Some(int_order(le_u32_value(a), le_u32_value(b)))
        } else {
            None
        },
        Comparator::I64 => if a.len() == 8 && b.len() == 8 {
            Some(int_order(le_i64_value(a), le_i64_value(b)))
        } else {
            None
        },
        Comparator::U64 => if a.len() == 8 && b.len() == 8 {
            Some(int_order(le_u64_value(a), le_u64_value(b)))
        } else {
            None
        },
        Comparator::F32 => if a.len() == 4 && b.len() == 4 {
            float_order(le_u32_value(a), le_u32_value(b), 0x8000_0000, 0x80_0000, 0x100)
        } else {
            None
        },
        Comparator::F64 => if a.len() == 8 && b.len() == 8 {
            float_order(
                le_u64_value(a),
                le_u64_value(b),
                0x8000_0000_0000_0000,
                0x10_0000_0000_0000,
                0x800,
            )
        } else {
            None
        },
        Comparator::F16 => if a.len() == 2 && b.len() == 2 {
            float_order(le_u16_value(a), le_u16_value(b), 0x8000, 0x400, 0x20)
        } else {
            None
        },
        Comparator::BigEndianSigned => if 0 < a.len() <= 16 && 0 < b.len() <= 16 {
            Some(int_order(twos_complement(a), twos_complement(b)))
        } else {
            None
        },
        Comparator::Bytes => Some(lex_order(a, b, false)),
        Comparator::SignedBytes => Some(lex_order(a, b, true)),
        Comparator::FloatBits => if a.len() == 4 {
            if b.len() == 4 {
                Some(int_order(le_i32_value(a), le_i32_value(b)))
            } else {
                None
            }
        } else if a.len() == 8 {
            if b.len() == 8 {
                Some(int_order(le_i64_value(a), le_i64_value(b)))
            } else {
                None
            }
        } else {
            None
        },
        Comparator::NoOrder => None,
    }
}

/// A wide integer as a number.
pub open spec fn wide(x: i128) -> int {
    x as int
}

/// The characters of an optional string slice.
pub open spec fn opt_str_view(o: Option<&str>) -> Option<Seq<char>> {
    match o {
        Some(s) => Some(s@),
        None => None,
    }
}

fn order_wide(x: i128, y: i128) -> (o: Ordering)
    ensures
        o == int_order(wide(x), wide(y)),
{
    if x < y {
        Ordering::Less
    } else if x == y {
        Ordering::Equal
    } else {
        Ordering::Greater
    }
}

fn byte_wide(x: u8, signed: bool) -> (v: i128)
    ensures
        wide(v) == if signed {
            signed_byte(x)
        } else {
            byte_value(x)
        },
{
    if signed && x >= 128 {
        x as i128 - 256
    } else {
        x as i128
    }
}

fn i32_wide(b: &[u8]) -> (v: i128)
    requires
        b@.len() == 4,
    ensures
        wide(v) == le_i32_value(b@),
{
    assert(b@.subrange(0, 4) =~= b@);
    le_i32_at(b, 0) as i128
}

fn u32_wide(b: &[u8]) -> (v: i128)
    requires
        b@.len() == 4,
    ensures
        wide(v) == le_u32_value(b@),
{
    assert(b@.subrange(0, 4) =~= b@);
    le_u32_at(b, 0) as i128
}

fn i64_wide(b: &[u8]) -> (v: i128)
    requires
        b@.len() == 8,
    ensures
        wide(v) == le_i64_value(b@),
{
    assert(b@.subrange(0, 8) =~= b@);
    le_i64_at(b, 0) as i128
}

fn u64_wide(b: &[u8]) -> (v: i128)
    requires
        b@.len() == 8,
    ensures
        wide(v) == le_u64_value(b@),
{
    assert(b@.subrange(0, 8) =~= b@);
    le_u64_at(b, 0) as i128
}

fn u16_wide(b: &[u8]) -> (v: i128)
    requires
        b@.len() == 2,
    ensures
        wide(v) == le_u16_value(b@),
{
    b[0] as i128 + 256 * (b[1] as i128)
}

/// Whether float bits are NaN, and the float's place in the order of values.
fn float_place(bits: i128, sign: i128, m: i128, e: i128) -> (r: (bool, i128))
    requires
        0 <= bits < 2 * sign,
        sign <= 0x8000_0000_0000_0000,
        0 < m,
        0 < e,
    ensures
        r.0 == is_nan_bits(wide(bits), wide(m), wide(e)),
        wide(r.1) == float_key(wide(bits), wide(sign)),
{
    let nan = (bits / m) % e == e - 1 && bits % m != 0;
    let key = if bits >= sign {
        -(bits - sign)
    } else {
        bits
    };
    (nan, key)
}

fn float_compare(a: i128, b: i128, sign: i128, m: i128, e: i128) -> (o: Option<Ordering>)
    requires
        0 <= a < 2 * sign,
        0 <= b < 2 * sign,
        sign <= 0x8000_0000_0000_0000,
        0 < m,
        0 < e,
    ensures
        o == float_order(wide(a), wide(b), wide(sign), wide(m), wide(e)),
{
    let (nan_a, key_a) = float_place(a, sign, m, e);
    let (nan_b, key_b) = float_place(b, sign, m, e);
    if nan_a || nan_b {
        None
    } else {
        Some(order_wide(key_a, key_b))
    }
}

/// The bytes from position `i` on.
pub open spec fn rest(s: Seq<u8>, i: usize) -> Seq<u8> {
    s.subrange(i as int, s.len() as int)
}

proof fn lemma_rest(s: Seq<u8>, i: usize, j: usize)
    requires
        i < s.len(),
        j == i + 1,
    ensures
        rest(s, i).drop_first() == rest(s, j),
        rest(s, i).len() > 0,
        rest(s, i)[0] == s[i as int],
{
    assert(rest(s, i).drop_first() =~= rest(s, j));
}

proof fn lemma_rest_start(s: Seq<u8>)
    ensures
        rest(s, 0) == s,
{
    assert(rest(s, 0) =~= s);
}

fn lex_compare(a: &[u8], b: &[u8], signed: bool) -> (o: Ordering)
    ensures
        o == lex_order(a@, b@, signed),
{
    let mut i: usize = 0;
    proof {
        lemma_rest_start(a@);
        lemma_rest_start(b@);
    }
    while i < a.len() && i < b.len() && a[i] == b[i]
        invariant
            i <= a@.len(),
            i <= b@.len(),
            lex_order(a@, b@, signed) == lex_order(rest(a@, i), rest(b@, i), signed),
        decreases a@.len() - i,
    {
        let ghost prev = i;
        i = i + 1;
        proof {
            lemma_rest(a@, prev, i);
            lemma_rest(b@, prev, i);
        }
    }
    if i == a.len() {
        if i == b.len() {
            Ordering::Equal
        } else {
            Ordering::Less
        }
    } else if i == b.len() {
        Ordering::Greater
    } else {
        order_wide(byte_wide(a[i], signed), byte_wide(b[i], signed))
    }
}

impl Comparator {
    /// The comparator for a leaf column, from its physical type and its annotations.
    pub fn for_leaf(leaf: &Leaf, converted: Option<&str>) -> (c: Comparator)
        ensures
            c == comparator_for(leaf.physical_type.0, leaf.logical_type, opt_str_view(converted)),
    {
        let logical = leaf.logical_type;
        let named_unsigned = match converted {
            Some(s) => str_eq(s, "UINT_8") || str_eq(s, "UINT_16") || str_eq(s, "UINT_32")
                || str_eq(s, "UINT_64"),
            None => false,
        };
        let unsigned = match logical {
            Some(LogicalType::Integer { signed, .. }) => !signed,
            _ => false,
        } || named_unsigned;
        let named_decimal = match converted {
            Some(s) => str_eq(s, "DECIMAL"),
            None => false,
        };
        let decimal = match logical {
            Some(LogicalType::Decimal { .. }) => true,
            _ => false,
        } || named_decimal;
        let named_interval = match converted {
            Some(s) => str_eq(s, "INTERVAL"),
            None => false,
        };
        let half = match logical {
            Some(LogicalType::Float16) => true,
            _ => false,
        };
        let p = leaf.physical_type.0;
        if p == 0 {
            Comparator::Bool
        } else if p == 1 {
            if unsigned {
                Comparator::U32
            } else {
                Comparator::I32
            }
        } else if p == 2 {
            if unsigned {
                Comparator::U64
            } else {
                Comparator::I64
            }
        } else if p == 4 {
            Comparator::F32
        } else if p == 5 {
            Comparator::F64
        } else if p == 7 && half {
            Comparator::F16
        } else if p == 7 && named_interval {
            Comparator::NoOrder
        } else if (p == 6 || p == 7) && decimal {
            Comparator::BigEndianSigned
        } else if p == 6 || p == 7 {
            Comparator::Bytes
        } else {
            Comparator::NoOrder
        }
    }

    pub fn order(&self) -> (o: SortOrder)
        ensures
            o == order_of(*self),
    {
        match self {
            Comparator::U32 | Comparator::U64 | Comparator::Bytes => SortOrder::Unsigned,
            Comparator::NoOrder => SortOrder::Undefined,
            _ => SortOrder::Signed,
        }
    }

    pub fn name(&self) -> (n: &'static str)
        ensures
            n@ == comparator_name(*self),
    {
        match self {
            Comparator::Bool => "booleans, false first",
            Comparator::I32 | Comparator::I64 => "signed integers",
            Comparator::U32 | Comparator::U64 => "unsigned integers",
            Comparator::F32 | Comparator::F64 | Comparator::F16 => "floating-point values, leaving out NaN",
            Comparator::BigEndianSigned => "signed big-endian integers",
            Comparator::Bytes => "unsigned bytes",
            Comparator::SignedBytes => "signed bytes",
            Comparator::FloatBits => "the bits as signed integers",
            Comparator::NoOrder => "nothing, because the order is undefined",
        }
    }

    /// The mistake a reader is most likely to make with this column, and what it does wrong.
    pub fn mistake(&self) -> (m: Option<(Comparator, &'static str)>)
        ensures
            match mistaken(*self) {
                Some(c) => m matches Some((x, _)) && x == c,
                None => m is None,
            },
    {
        match self {
            Comparator::U32 => Some((Comparator::I32, "reads values of 2^31 and above as negative")),
            Comparator::U64 => Some((Comparator::I64, "reads values of 2^63 and above as negative")),
            Comparator::I32 => Some((Comparator::U32, "reads negative values as large positive ones")),
            Comparator::I64 => Some((Comparator::U64, "reads negative values as large positive ones")),
            Comparator::Bytes => Some(
                (
                    Comparator::SignedBytes,
                    "puts bytes 0x80 and above, every non-ASCII character, before the letter A",
                ),
            ),
            Comparator::BigEndianSigned => Some(
                (Comparator::Bytes, "ignores the sign, so negative amounts sort last"),
            ),
            Comparator::F32 | Comparator::F64 => Some(
                (Comparator::FloatBits, "reverses negative numbers and sorts NaN above everything"),
            ),
            _ => None,
        }
    }

    /// Compare two values. `None` when either is not a valid value of the type, or either is
    /// NaN, which has no place in the order.
    pub fn compare(&self, a: &[u8], b: &[u8]) -> (r: Option<Ordering>)
        ensures
            r == value_order(*self, a@, b@),
    {
        proof {
            reveal(value_order);
        }
        let na = a.len();
        let nb = b.len();
        match self {
            Comparator::Bool => if na > 0 && nb > 0 {
                Some(order_wide(byte_wide(a[0], false), byte_wide(b[0], false)))
            } else {
                None
            },
            Comparator::I32 => if na == 4 && nb == 4 {
                Some(order_wide(i32_wide(a), i32_wide(b)))
            } else {
                None
            },
            Comparator::U32 => if na == 4 && nb == 4 {
                Some(order_wide(u32_wide(a), u32_wide(b)))
            } else {
                None
            },
            Comparator::I64 => if na == 8 && nb == 8 {
                Some(order_wide(i64_wide(a), i64_wide(b)))
            } else {
                None
            },
            Comparator::U64 => if na == 8 && nb == 8 {
                Some(order_wide(u64_wide(a), u64_wide(b)))
            } else {
                None
            },
            Comparator::F32 => if na == 4 && nb == 4 {
                float_compare(u32_wide(a), u32_wide(b), 0x8000_0000, 0x80_0000, 0x100)
            } else {
                None
            },
            Comparator::F64 => if na == 8 && nb == 8 {
                float_compare(
                    u64_wide(a),
                    u64_wide(b),
                    0x8000_0000_0000_0000,
                    0x10_0000_0000_0000,
                    0x800,
                )
            } else {
                None
            },
            Comparator::F16 => if na == 2 && nb == 2 {
                float_compare(u16_wide(a), u16_wide(b), 0x8000, 0x400, 0x20)
            } else {
                None
            },
            Comparator::BigEndianSigned => match (be_twos_complement(a), be_twos_complement(b)) {
                (Some(x), Some(y)) => Some(order_wide(x, y)),
                _ => None,
            },
            Comparator::Bytes => Some(lex_compare(a, b, false)),
            Comparator::SignedBytes => Some(lex_compare(a, b, true)),
            Comparator::FloatBits => if na == 4 {
                if nb == 4 {
                    Some(order_wide(i32_wide(a), i32_wide(b)))
                } else {
                    None
                }
            } else if na == 8 {
                if nb == 8 {
                    Some(order_wide(i64_wide(a), i64_wide(b)))
                } else {
                    None
                }
            } else {
                None
            },
            Comparator::NoOrder => None,
        }
    }
}

/// The smallest and largest values in a comparator's order, leaving out values it cannot
/// place, taking the values in turn: a later value replaces a bound only when it is strictly
/// beyond it.
pub open spec fn min_max_of(c: Comparator, vals: Seq<Seq<u8>>) -> Option<(Seq<u8>, Seq<u8>)>
    decreases vals.len(),
{
    if vals.len() == 0 {
        None
    } else {
        let prev = min_max_of(c, vals.drop_last());
        let v = vals.last();
        if value_order(c, v, v) is None {
            prev
        } else {
            match prev {
                None => Some((v, v)),
                Some((lo, hi)) => Some(
                    (
                        if value_order(c, v, lo) == Some(Ordering::Less) {
                            v
                        } else {
                            lo
                        },
                        if value_order(c, v, hi) == Some(Ordering::Greater) {
                            v
                        } else {
                            hi
                        },
                    ),
                ),
            }
        }
    }
}

/// The bytes of each value.
pub open spec fn slice_views(values: Seq<&[u8]>) -> Seq<Seq<u8>> {
    Seq::new(values.len(), |i: int| values[i]@)
}

/// The bytes of the first `i` values.
pub open spec fn first_views(values: Seq<&[u8]>, i: usize) -> Seq<Seq<u8>> {
    slice_views(values).take(i as int)
}

proof fn lemma_first_views(values: Seq<&[u8]>, i: usize, j: usize)
    requires
        i < values.len(),
        j == i + 1,
    ensures
        first_views(values, j).drop_last() == first_views(values, i),
        first_views(values, j).last() == values[i as int]@,
{
    assert(first_views(values, j).drop_last() =~= first_views(values, i));
}

proof fn lemma_all_views(values: Seq<&[u8]>, n: usize)
    requires
        n == values.len(),
    ensures
        first_views(values, n) == slice_views(values),
        first_views(values, 0) == Seq::<Seq<u8>>::empty(),
{
    assert(first_views(values, n) =~= slice_views(values));
    assert(first_views(values, 0) =~= Seq::<Seq<u8>>::empty());
}

impl Comparator {
    /// The smallest and largest of `values` in this order, skipping values it cannot place
    /// (NaN). This is how a writer computes the statistics, so a reader can check them.
    pub fn min_max<'a>(&self, values: &[&'a [u8]]) -> (r: Option<(&'a [u8], &'a [u8])>)
        ensures
            match min_max_of(*self, slice_views(values@)) {
                Some((lo, hi)) => r matches Some((l, h)) && l@ == lo && h@ == hi,
                None => r is None,
            },
    {
        let mut out: Option<(&'a [u8], &'a [u8])> = None;
        let mut i: usize = 0;
        let n = values.len();
        proof {
            lemma_all_views(values@, n);
        }
        while i < values.len()
            invariant
                i <= values@.len(),
                match min_max_of(*self, first_views(values@, i)) {
                    Some((lo, hi)) => out matches Some((l, h)) && l@ == lo && h@ == hi,
                    None => out is None,
                },
            decreases values@.len() - i,
        {
            let v = values[i];
            let ghost prev = i;
            match self.compare(v, v) {
                None => {},
                Some(_) => {
                    out = match out {
                        None => Some((v, v)),
                        Some((lo, hi)) => {
                            let new_lo = match self.compare(v, lo) {
                                Some(Ordering::Less) => v,
                                _ => lo,
                            };
                            let new_hi = match self.compare(v, hi) {
                                Some(Ordering::Greater) => v,
                                _ => hi,
                            };
                            Some((new_lo, new_hi))
                        },
                    };
                },
            }
            i = i + 1;
            proof {
                lemma_first_views(values@, prev, i);
            }
        }
        proof {
            lemma_all_views(values@, i);
        }
        out
    }
}

/// Which pair of fields the bounds came from.
#[derive(Clone, Copy, Debug, PartialEq, Eq, Structural)]
pub enum Source {
    MinMaxValue,
    Deprecated,
}

/// A minimum and a maximum a reader may compare values against.
#[derive(Clone, Debug, PartialEq)]
pub struct Bounds {
    pub min: Vec<u8>,
    pub max: Vec<u8>,
    pub source: Source,
    /// False when the writer shortened the value: the bound holds, but no row has it.
    pub min_exact: bool,
    pub max_exact: bool,
}

pub open spec fn undefined_message() -> Seq<char> {
    "this type has no defined sort order, so its minimum and maximum mean nothing"@
}

pub open spec fn unordered_message() -> Seq<char> {
    "the footer has no column_orders, so the order of min_value and max_value is undefined"@
}

pub open spec fn nan_message() -> Seq<char> {
    "a bound is NaN, which writers were never meant to store; ignore both"@
}

pub open spec fn deprecated_message(c: Comparator) -> Seq<char> {
    "only the deprecated min and max are present, and they were computed with signed comparison; this column's order is "@
        + comparator_name(c)
}

pub open spec fn missing_message() -> Seq<char> {
    "the footer records no minimum and maximum for this column chunk"@
}

pub open spec fn unwrap_or_true(o: Option<bool>) -> bool {
    match o {
        Some(b) => b,
        None => true,
    }
}

/// Whether a value has no place in a comparator's order.
pub open spec fn unplaceable(c: Comparator, v: Seq<u8>) -> bool {
    value_order(c, v, v) is None
}

/// Which bounds a reader may use, or why it may use none: the newer `min_value` and
/// `max_value` when the footer gives their order, and the deprecated `min` and `max` only where
/// signed comparison, with which they were computed, is the column's order anyway.
pub open spec fn bounds_outcome(st: Statistics, c: Comparator, type_order: bool) -> Result<
    (Seq<u8>, Seq<u8>, Source, bool, bool),
    Seq<char>,
> {
    if order_of(c) == SortOrder::Undefined {
        Err(undefined_message())
    } else if opt_bytes_view(st.min_value) is Some && opt_bytes_view(st.max_value) is Some {
        let lo = st.min_value->0@;
        let hi = st.max_value->0@;
        if !type_order {
            Err(unordered_message())
        } else if unplaceable(c, lo) || unplaceable(c, hi) {
            Err(nan_message())
        } else {
            Ok(
                (
                    lo,
                    hi,
                    Source::MinMaxValue,
                    unwrap_or_true(st.is_min_value_exact),
                    unwrap_or_true(st.is_max_value_exact),
                ),
            )
        }
    } else if st.min is Some && st.max is Some {
        let lo = st.min->0@;
        let hi = st.max->0@;
        if order_of(c) != SortOrder::Signed || c == Comparator::Bytes || c
            == Comparator::BigEndianSigned {
            Err(deprecated_message(c))
        } else if unplaceable(c, lo) || unplaceable(c, hi) {
            Err(nan_message())
        } else {
            Ok((lo, hi, Source::Deprecated, true, true))
        }
    } else {
        Err(missing_message())
    }
}

fn unplaced(c: Comparator, v: &[u8]) -> (b: bool)
    ensures
        b == unplaceable(c, v@),
{
    match c.compare(v, v) {
        Some(_) => false,
        None => true,
    }
}

/// The bounds a reader may use, or why it may not use any.
///
/// `type_order` is whether the footer's `column_orders` gives this column `TYPE_ORDER`.
pub fn bounds(stats: &Statistics, comparator: Comparator, type_order: bool) -> (r: Result<
    Bounds,
    String,
>)
    ensures
        match bounds_outcome(*stats, comparator, type_order) {
            Ok((lo, hi, source, min_exact, max_exact)) => r matches Ok(b) && b.min@ == lo && b.max@
                == hi && b.source == source && b.min_exact == min_exact && b.max_exact == max_exact,
            Err(m) => r matches Err(s) && s@ == m,
        },
{
    if comparator.order() == SortOrder::Undefined {
        return Err(
            "this type has no defined sort order, so its minimum and maximum mean nothing".to_owned(),
        );
    }
    match (&stats.min_value, &stats.max_value) {
        (Some(min), Some(max)) => {
            if !type_order {
                return Err(
                    "the footer has no column_orders, so the order of min_value and max_value is undefined".to_owned(),
                );
            }
            if unplaced(comparator, min.as_slice()) || unplaced(comparator, max.as_slice()) {
                return Err(
                    "a bound is NaN, which writers were never meant to store; ignore both".to_owned(),
                );
            }
            return Ok(
                Bounds {
                    min: vstd::slice::slice_to_vec(min.as_slice()),
                    max: vstd::slice::slice_to_vec(max.as_slice()),
                    source: Source::MinMaxValue,
                    min_exact: match stats.is_min_value_exact {
                        Some(b) => b,
                        None => true,
                    },
                    max_exact: match stats.is_max_value_exact {
                        Some(b) => b,
                        None => true,
                    },
                },
            );
        },
        _ => {},
    }
    match (&stats.min, &stats.max) {
        (Some(min), Some(max)) => {
            // The deprecated fields were computed with signed comparison. That is right only for
            // types whose order is signed and that are not compared as bytes.
            let byte_array = match comparator {
                Comparator::Bytes | Comparator::BigEndianSigned => true,
                _ => false,
            };
            if comparator.order() != SortOrder::Signed || byte_array {
                let mut m = "only the deprecated min and max are present, and they were computed with signed comparison; this column's order is ".to_owned();
                m.append(comparator.name());
                return Err(m);
            }
            if unplaced(comparator, min.as_slice()) || unplaced(comparator, max.as_slice()) {
                return Err(
                    "a bound is NaN, which writers were never meant to store; ignore both".to_owned(),
                );
            }
            Ok(
                Bounds {
                    min: vstd::slice::slice_to_vec(min.as_slice()),
                    max: vstd::slice::slice_to_vec(max.as_slice()),
                    source: Source::Deprecated,
                    min_exact: true,
                    max_exact: true,
                },
            )
        },
        _ => Err("the footer records no minimum and maximum for this column chunk".to_owned()),
    }
}

/// The order in the other direction.
pub open spec fn reversed(o: Ordering) -> Ordering {
    match o {
        Ordering::Less => Ordering::Greater,
        Ordering::Equal => Ordering::Equal,
        Ordering::Greater => Ordering::Less,
    }
}

/// Where a comparator that orders values by a number places a value, if it can.
pub open spec fn key_of(c: Comparator, a: Seq<u8>) -> Option<int> {
    match c {
        Comparator::Bool => if a.len() > 0 {
            Some(byte_value(a[0]))
        } else {
            None
        },
        Comparator::I32 => if a.len() == 4 {
            Some(le_i32_value(a))
        } else {
            None
        },
        Comparator::U32 => if a.len() == 4 {
            Some(le_u32_value(a))
        } else {
            None
        },
        Comparator::I64 => if a.len() == 8 {
            Some(le_i64_value(a))
        } else {
            None
        },
        Comparator::U64 => if a.len() == 8 {
            Some(le_u64_value(a))
        } else {
            None
        },
        Comparator::F32 => if a.len() == 4 && !is_nan_bits(le_u32_value(a), 0x80_0000, 0x100) {
            Some(float_key(le_u32_value(a), 0x8000_0000))
        } else {
            None
        },
        Comparator::F64 => if a.len() == 8 && !is_nan_bits(
            le_u64_value(a),
            0x10_0000_0000_0000,
            0x800,
        ) {
            Some(float_key(le_u64_value(a), 0x8000_0000_0000_0000))
        } else {
            None
        },
        Comparator::F16 => if a.len() == 2 && !is_nan_bits(le_u16_value(a), 0x400, 0x20) {
            Some(float_key(le_u16_value(a), 0x8000))
        } else {
            None
        },
        Comparator::BigEndianSigned => if 0 < a.len() <= 16 {
            Some(twos_complement(a))
        } else {
            None
        },
        _ => None,
    }
}

/// The comparators a column can have: each orders the values it can place as numbers, or as
/// unsigned bytes.
pub open spec fn column_comparator(c: Comparator) -> bool {
    c != Comparator::SignedBytes && c != Comparator::FloatBits
}

/// A numeric comparator compares two values by where it places them.
proof fn lemma_keyed(c: Comparator, a: Seq<u8>, b: Seq<u8>)
    requires
        column_comparator(c),
        c != Comparator::Bytes,
    ensures
        value_order(c, a, b) == match (key_of(c, a), key_of(c, b)) {
            (Some(x), Some(y)) => Some(int_order(x, y)),
            _ => None::<Ordering>,
        },
{
    reveal(value_order);
}

proof fn lemma_bytes_order(a: Seq<u8>, b: Seq<u8>)
    ensures
        value_order(Comparator::Bytes, a, b) == Some(lex_order(a, b, false)),
{
    reveal(value_order);
}

proof fn lemma_lex_reverse(a: Seq<u8>, b: Seq<u8>)
    ensures
        lex_order(b, a, false) == reversed(lex_order(a, b, false)),
    decreases a.len(),
{
    if a.len() > 0 && b.len() > 0 && a[0] == b[0] {
        lemma_lex_reverse(a.drop_first(), b.drop_first());
    }
}

proof fn lemma_lex_trans(a: Seq<u8>, b: Seq<u8>, d: Seq<u8>)
    ensures
        lex_order(a, b, false) != Ordering::Greater && lex_order(b, d, false) != Ordering::Greater
            ==> lex_order(a, d, false) != Ordering::Greater,
        lex_order(a, b, false) == Ordering::Less && lex_order(b, d, false) != Ordering::Greater
            ==> lex_order(a, d, false) == Ordering::Less,
        lex_order(a, b, false) != Ordering::Greater && lex_order(b, d, false) == Ordering::Less
            ==> lex_order(a, d, false) == Ordering::Less,
    decreases a.len(),
{
    if a.len() > 0 && b.len() > 0 && d.len() > 0 {
        lemma_lex_trans(a.drop_first(), b.drop_first(), d.drop_first());
    }
}

proof fn lemma_int_orders(x: int, y: int, z: int)
    ensures
        int_order(y, x) == reversed(int_order(x, y)),
        int_order(x, y) != Ordering::Greater && int_order(y, z) != Ordering::Greater ==> int_order(
            x,
            z,
        ) != Ordering::Greater,
        int_order(x, y) == Ordering::Less && int_order(y, z) != Ordering::Greater ==> int_order(x, z)
            == Ordering::Less,
        int_order(x, y) != Ordering::Greater && int_order(y, z) == Ordering::Less ==> int_order(x, z)
            == Ordering::Less,
{
}

/// Whether a column's order places `a` at or before `b`.
pub open spec fn at_most(c: Comparator, a: Seq<u8>, b: Seq<u8>) -> bool {
    value_order(c, a, b) == Some(Ordering::Less) || value_order(c, a, b) == Some(Ordering::Equal)
}

/// Whether a column's order places `a` strictly before `b`.
pub open spec fn below(c: Comparator, a: Seq<u8>, b: Seq<u8>) -> bool {
    value_order(c, a, b) == Some(Ordering::Less)
}

/// A column's order is an order: reversing the arguments reverses it, and it is transitive.
pub proof fn lemma_value_order(c: Comparator, a: Seq<u8>, b: Seq<u8>, d: Seq<u8>)
    requires
        column_comparator(c),
    ensures
        value_order(c, b, a) == match value_order(c, a, b) {
            Some(o) => Some(reversed(o)),
            None => None::<Ordering>,
        },
        value_order(c, a, b) is Some && value_order(c, b, d) is Some ==> value_order(c, a, d) is Some,
        at_most(c, a, b) && at_most(c, b, d) ==> at_most(c, a, d),
        below(c, a, b) && at_most(c, b, d) ==> below(c, a, d),
        at_most(c, a, b) && below(c, b, d) ==> below(c, a, d),
{
    if c == Comparator::Bytes {
        lemma_lex_reverse(a, b);
        lemma_lex_trans(a, b, d);
        lemma_bytes_order(a, b);
        lemma_bytes_order(b, a);
        lemma_bytes_order(b, d);
        lemma_bytes_order(a, d);
    } else {
        lemma_keyed(c, a, b);
        lemma_keyed(c, b, a);
        lemma_keyed(c, b, d);
        lemma_keyed(c, a, d);
        if key_of(c, a) is Some && key_of(c, b) is Some && key_of(c, d) is Some {
            let x = key_of(c, a)->0;
            let y = key_of(c, b)->0;
            let z = key_of(c, d)->0;
            lemma_int_orders(x, y, z);
            assert(value_order(c, a, b) == Some(int_order(x, y)));
            assert(value_order(c, b, d) == Some(int_order(y, z)));
            assert(value_order(c, a, d) == Some(int_order(x, z)));
        } else if key_of(c, a) is Some && key_of(c, b) is Some {
            lemma_int_orders(key_of(c, a)->0, key_of(c, b)->0, 0);
        }
    }
}

} // verus!
