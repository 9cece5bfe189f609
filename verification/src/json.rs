//! JSON: the value type the table logs and snapshot files are read into, and a parser for it.
//!
//! Enough of the grammar for the logs this crate reads: objects, arrays, strings with escapes,
//! numbers, `true`, `false` and `null`. Objects keep their keys in the order written.
//!
//! A number becomes an unsigned integer where it reads as a `u64`, a signed one where it reads
//! as an `i64`, and otherwise, where it has the form of a floating-point number, is kept as the
//! text it was written as: turning that text into a binary fraction is floating-point work,
//! left to the caller.

use vstd::prelude::*;

use crate::text::{
    char_from_u32, dec, hex_number, hex_number_value, hex_u32, push_char, push_u64, str_eq,
    radix_error_text, utf8_error_text, utf8_str,
};
use vstd::slice::slice_subrange;
use vstd::utf8::{decode_utf8, valid_utf8};

verus! {

/// A JSON value.
#[derive(Debug, PartialEq)]
pub enum Json {
    Null,
    Bool(bool),
    Int(i64),
    UInt(u64),
    /// A number that is neither a `u64` nor an `i64`, as the text it was written as.
    Float(String),
    Str(String),
    Arr(Vec<Json>),
    Obj(Vec<(String, Json)>),
}

/// A JSON value as a mathematical value.
pub enum JsonV {
    Null,
    Bool(bool),
    Int(i64),
    UInt(u64),
    Float(Seq<char>),
    Str(Seq<char>),
    Arr(Seq<JsonV>),
    Obj(Seq<(Seq<char>, JsonV)>),
}

pub open spec fn json_view(j: Json) -> JsonV
    decreases j,
{
    match j {
        Json::Null => JsonV::Null,
        Json::Bool(b) => JsonV::Bool(b),
        Json::Int(i) => JsonV::Int(i),
        Json::UInt(u) => JsonV::UInt(u),
        Json::Float(t) => JsonV::Float(t@),
        Json::Str(t) => JsonV::Str(t@),
        Json::Arr(items) => JsonV::Arr(jsons_view(items@)),
        Json::Obj(pairs) => JsonV::Obj(pairs_view(pairs@)),
    }
}

pub open spec fn jsons_view(s: Seq<Json>) -> Seq<JsonV>
    decreases s,
{
    if s.len() == 0 {
        Seq::empty()
    } else {
        jsons_view(s.subrange(0, s.len() - 1)).push(json_view(s[s.len() - 1]))
    }
}

pub open spec fn pairs_view(s: Seq<(String, Json)>) -> Seq<(Seq<char>, JsonV)>
    decreases s,
{
    if s.len() == 0 {
        Seq::empty()
    } else {
        pairs_view(s.subrange(0, s.len() - 1)).push(
            (s[s.len() - 1].0@, json_view(s[s.len() - 1].1)),
        )
    }
}

// ---- The grammar, over bytes -------------------------------------------------------------

/// The bytes `u8::is_ascii_whitespace` accepts: space, tab, line feed, form feed, carriage
/// return.
pub open spec fn is_ws(b: u8) -> bool {
    b == 0x20 || b == 0x09 || b == 0x0A || b == 0x0C || b == 0x0D
}

/// The first position from `i` on that holds no whitespace.
pub open spec fn skip_ws(s: Seq<u8>, i: int) -> int
    decreases s.len() - i,
{
    if 0 <= i < s.len() && is_ws(s[i]) {
        skip_ws(s, i + 1)
    } else {
        i
    }
}

pub proof fn lemma_skip_ws(s: Seq<u8>, i: int)
    ensures
        i <= skip_ws(s, i),
        i <= s.len() ==> skip_ws(s, i) <= s.len(),
        0 <= skip_ws(s, i) < s.len() ==> !is_ws(s[skip_ws(s, i)]),
    decreases s.len() - i,
{
    if 0 <= i < s.len() && is_ws(s[i]) {
        lemma_skip_ws(s, i + 1);
    }
}

/// Whether the bytes of `lit` stand at position `i`.
pub open spec fn at_lit(s: Seq<u8>, i: int, lit: Seq<u8>) -> bool {
    0 <= i && i + lit.len() <= s.len() && s.subrange(i, i + lit.len()) == lit
}

/// The message for a literal that is not there.
pub open spec fn expected_text(lit: Seq<char>, i: int) -> Seq<char> {
    "expected "@ + lit + " at "@ + dec(i as nat)
}

/// Bytes as the characters of the same codes.
pub open spec fn ascii_chars(b: Seq<u8>) -> Seq<char> {
    b.map_values(|x: u8| x as char)
}

pub open spec fn is_digit(b: u8) -> bool {
    0x30 <= b <= 0x39
}

/// The bytes a number is written with: digits, signs, a point and exponent markers.
pub open spec fn is_num_byte(b: u8) -> bool {
    is_digit(b) || b == 0x2D || b == 0x2B || b == 0x2E || b == 0x65 || b == 0x45
}

/// The first position from `i` on that is not a number's byte.
pub open spec fn num_end(s: Seq<u8>, i: int) -> int
    decreases s.len() - i,
{
    if 0 <= i < s.len() && is_num_byte(s[i]) {
        num_end(s, i + 1)
    } else {
        i
    }
}

/// The first position from `i` on that is not a digit.
pub open spec fn digits_end(t: Seq<u8>, i: int) -> int
    decreases t.len() - i,
{
    if 0 <= i < t.len() && is_digit(t[i]) {
        digits_end(t, i + 1)
    } else {
        i
    }
}

/// The value of the decimal digits `t[a..e]`.
pub open spec fn digits_value(t: Seq<u8>, a: int, e: int) -> nat
    decreases e - a,
{
    if e <= a {
        0
    } else {
        digits_value(t, a, e - 1) * 10 + (t[e - 1] - 0x30) as nat
    }
}

/// The number `u64::from_str` reads: an optional `+`, then one or more digits, at most
/// `u64::MAX`.
pub open spec fn u64_of(t: Seq<u8>) -> Option<u64> {
    let a: int = if t.len() > 0 && t[0] == 0x2B {
        1
    } else {
        0
    };
    if t.len() > a && digits_end(t, a) == t.len() && digits_value(t, a, t.len() as int) <= u64::MAX {
        Some(digits_value(t, a, t.len() as int) as u64)
    } else {
        None
    }
}

/// The negative number `i64::from_str` reads: `-`, then one or more digits, at least
/// `i64::MIN`.
pub open spec fn negative_of(t: Seq<u8>) -> Option<i64> {
    if t.len() > 1 && t[0] == 0x2D && digits_end(t, 1) == t.len() && digits_value(
        t,
        1,
        t.len() as int,
    ) <= 0x8000_0000_0000_0000 {
        Some((0 - digits_value(t, 1, t.len() as int)) as i64)
    } else {
        None
    }
}

/// Whether `t` has the form `f64::from_str` reads, among texts made of digits, signs, points
/// and exponent markers: an optional sign, digits with at most one point and at least one
/// digit, then optionally `e` or `E`, an optional sign and one or more digits.
pub open spec fn float_form(t: Seq<u8>) -> bool {
    let a: int = if t.len() > 0 && (t[0] == 0x2B || t[0] == 0x2D) {
        1
    } else {
        0
    };
    let d1 = digits_end(t, a);
    let d2 = if d1 < t.len() && t[d1] == 0x2E {
        digits_end(t, d1 + 1)
    } else {
        d1
    };
    let mantissa_digits = if d1 < t.len() && t[d1] == 0x2E {
        (d1 - a) + (d2 - d1 - 1)
    } else {
        d1 - a
    };
    &&& mantissa_digits > 0
    &&& (d2 == t.len() || {
        &&& (t[d2] == 0x65 || t[d2] == 0x45)
        &&& {
            let b = if d2 + 1 < t.len() && (t[d2 + 1] == 0x2B || t[d2 + 1] == 0x2D) {
                d2 + 2
            } else {
                d2 + 1
            };
            digits_end(t, b) == t.len() && t.len() > b
        }
    })
}

/// The number at position `p`: its value and where it ends, or the message.
pub open spec fn jnumber(s: Seq<u8>, p: int) -> Result<(JsonV, int), Seq<char>> {
    let e = num_end(s, p);
    let t = s.subrange(p, e);
    match u64_of(t) {
        Some(u) => Ok((JsonV::UInt(u), e)),
        None => match negative_of(t) {
            Some(i) => Ok((JsonV::Int(i), e)),
            None => if float_form(t) {
                Ok((JsonV::Float(ascii_chars(t)), e))
            } else {
                Err("bad number \""@ + ascii_chars(t) + "\" at "@ + dec(p as nat))
            },
        },
    }
}

/// The character an escape `\uXXXX` stands for: the code's character, or U+FFFD where the code
/// is a surrogate.
pub open spec fn escaped_char(code: nat) -> char {
    if 0xD800 <= code <= 0xDFFF || code > 0x10FFFF {
        '\u{FFFD}'
    } else {
        code as char
    }
}

/// The character a one-letter escape stands for, if the letter is one.
pub open spec fn simple_escape(e: u8) -> Option<char> {
    if e == 0x22 {
        Some('"')
    } else if e == 0x5C {
        Some('\\')
    } else if e == 0x2F {
        Some('/')
    } else if e == 0x6E {
        Some('\n')
    } else if e == 0x72 {
        Some('\r')
    } else if e == 0x74 {
        Some('\t')
    } else if e == 0x62 {
        Some('\u{8}')
    } else if e == 0x66 {
        Some('\u{c}')
    } else {
        None
    }
}

/// The first position from `i` on that does not hold a UTF-8 continuation byte.
pub open spec fn sequence_end(s: Seq<u8>, i: int) -> int
    decreases s.len() - i,
{
    if 0 <= i < s.len() && s[i] & 0xC0 == 0x80 {
        sequence_end(s, i + 1)
    } else {
        i
    }
}

/// The rest of a string from position `j`, after the characters `out` read so far: the
/// characters and the position after the closing quote, or the message.
pub open spec fn jchars(s: Seq<u8>, j: int, out: Seq<char>) -> Result<(Seq<char>, int), Seq<char>>
    decreases s.len() - j,
{
    if j < 0 || j >= s.len() {
        Err("unterminated string"@)
    } else if s[j] == 0x22 {
        Ok((out, j + 1))
    } else if s[j] == 0x5C {
        if j + 1 >= s.len() {
            Err("unterminated escape"@)
        } else {
            let e = s[j + 1];
            match simple_escape(e) {
                Some(c) => jchars(s, j + 2, out.push(c)),
                None => if e == 0x75 {
                    if j + 6 > s.len() {
                        Err("short \\u"@)
                    } else {
                        let h = s.subrange(j + 2, j + 6);
                        if !valid_utf8(h) {
                            Err(utf8_error_text(h))
                        } else {
                            let t = decode_utf8(h);
                            if hex_number(t) && hex_number_value(t) <= u32::MAX {
                                jchars(s, j + 6, out.push(escaped_char(hex_number_value(t))))
                            } else {
                                Err(radix_error_text(t))
                            }
                        }
                    }
                } else {
                    Err("bad escape \\"@.push(e as char))
                },
            }
        }
    } else {
        let end = sequence_end(s, j + 1);
        let b = s.subrange(j, end);
        if !valid_utf8(b) {
            Err(utf8_error_text(b))
        } else {
            proof {
                lemma_sequence_end(s, j + 1);
            }
            jchars(s, end, out + decode_utf8(b))
        }
    }
}

pub proof fn lemma_sequence_end(s: Seq<u8>, i: int)
    ensures
        i <= sequence_end(s, i),
        i <= s.len() ==> sequence_end(s, i) <= s.len(),
    decreases s.len() - i,
{
    if 0 <= i < s.len() && s[i] & 0xC0 == 0x80 {
        lemma_sequence_end(s, i + 1);
    }
}

/// The string at position `i`: its characters and the position after it, or the message.
pub open spec fn jstring(s: Seq<u8>, i: int) -> Result<(Seq<char>, int), Seq<char>> {
    if !at_lit(s, i, seq![0x22u8]) {
        Err(expected_text("\""@, i))
    } else {
        jchars(s, i + 1, Seq::empty())
    }
}

/// The value after any whitespace from position `i`, and how many bytes it took, whitespace
/// included; or the message.
pub open spec fn jvalue(s: Seq<u8>, i: int) -> Result<(JsonV, nat), Seq<char>>
    decreases s.len() - i, 0int,
{
    let p = skip_ws(s, i);
    proof {
        lemma_skip_ws(s, i);
    }
    if i < 0 || p >= s.len() {
        Err("unexpected end"@)
    } else if s[p] == 0x7B {
        let q = skip_ws(s, p + 1);
        if q < s.len() && s[q] == 0x7D {
            Ok((JsonV::Obj(Seq::empty()), (q + 1 - i) as nat))
        } else {
            match jmembers(s, p + 1, Seq::empty()) {
                Ok((pairs, n)) => Ok((JsonV::Obj(pairs), (p + 1 + n - i) as nat)),
                Err(m) => Err(m),
            }
        }
    } else if s[p] == 0x5B {
        let q = skip_ws(s, p + 1);
        if q < s.len() && s[q] == 0x5D {
            Ok((JsonV::Arr(Seq::empty()), (q + 1 - i) as nat))
        } else {
            match jitems(s, p + 1, Seq::empty()) {
                Ok((items, n)) => Ok((JsonV::Arr(items), (p + 1 + n - i) as nat)),
                Err(m) => Err(m),
            }
        }
    } else if s[p] == 0x22 {
        match jstring(s, p) {
            Ok((t, e)) => Ok((JsonV::Str(t), (e - i) as nat)),
            Err(m) => Err(m),
        }
    } else if s[p] == 0x74 {
        if at_lit(s, p, seq![0x74u8, 0x72u8, 0x75u8, 0x65u8]) {
            Ok((JsonV::Bool(true), (p + 4 - i) as nat))
        } else {
            Err(expected_text("true"@, p))
        }
    } else if s[p] == 0x66 {
        if at_lit(s, p, seq![0x66u8, 0x61u8, 0x6Cu8, 0x73u8, 0x65u8]) {
            Ok((JsonV::Bool(false), (p + 5 - i) as nat))
        } else {
            Err(expected_text("false"@, p))
        }
    } else if s[p] == 0x6E {
        if at_lit(s, p, seq![0x6Eu8, 0x75u8, 0x6Cu8, 0x6Cu8]) {
            Ok((JsonV::Null, (p + 4 - i) as nat))
        } else {
            Err(expected_text("null"@, p))
        }
    } else {
        match jnumber(s, p) {
            Ok((v, e)) => Ok((v, (e - i) as nat)),
            Err(m) => Err(m),
        }
    }
}

/// The items of an array from position `i`, after the items `acc` read so far, through the
/// closing bracket; and how many bytes they took from `i`.
pub open spec fn jitems(s: Seq<u8>, i: int, acc: Seq<JsonV>) -> Result<(Seq<JsonV>, nat), Seq<char>>
    decreases s.len() - i, 1int,
{
    match jvalue(s, i) {
        Err(m) => Err(m),
        Ok((v, n)) => {
            let r = skip_ws(s, i + n);
            proof {
                lemma_skip_ws(s, i + n);
            }
            if r < s.len() && s[r] == 0x2C {
                match jitems(s, r + 1, acc.push(v)) {
                    Ok((items, k)) => Ok((items, (r + 1 + k - i) as nat)),
                    Err(m) => Err(m),
                }
            } else if r < s.len() && s[r] == 0x5D {
                Ok((acc.push(v), (r + 1 - i) as nat))
            } else {
                Err("expected , or ] at "@ + dec(r as nat))
            }
        },
    }
}

/// The members of an object from position `i`, after the members `acc` read so far, through
/// the closing brace; and how many bytes they took from `i`.
pub open spec fn jmembers(s: Seq<u8>, i: int, acc: Seq<(Seq<char>, JsonV)>) -> Result<
    (Seq<(Seq<char>, JsonV)>, nat),
    Seq<char>,
>
    decreases s.len() - i, 1int,
{
    let k0 = skip_ws(s, i);
    proof {
        lemma_skip_ws(s, i);
    }
    match jstring(s, k0) {
        Err(m) => Err(m),
        Ok((key, a)) => {
            let b = skip_ws(s, a);
            proof {
                lemma_jstring_after(s, k0);
                lemma_skip_ws(s, a);
            }
            if !(b < s.len() && s[b] == 0x3A) {
                Err(expected_text(":"@, b))
            } else {
                match jvalue(s, b + 1) {
                    Err(m) => Err(m),
                    Ok((v, n)) => {
                        let d = skip_ws(s, b + 1 + n);
                        proof {
                            lemma_skip_ws(s, b + 1 + n);
                        }
                        if d < s.len() && s[d] == 0x2C {
                            match jmembers(s, d + 1, acc.push((key, v))) {
                                Ok((pairs, k)) => Ok((pairs, (d + 1 + k - i) as nat)),
                                Err(m) => Err(m),
                            }
                        } else if d < s.len() && s[d] == 0x7D {
                            Ok((acc.push((key, v)), (d + 1 - i) as nat))
                        } else {
                            Err("expected , or } at "@ + dec(d as nat))
                        }
                    },
                }
            }
        },
    }
}

/// A string that reads ends after the position it starts at.
pub proof fn lemma_jstring_after(s: Seq<u8>, i: int)
    ensures
        jstring(s, i) matches Ok((_, e)) ==> i < e <= s.len(),
{
    if at_lit(s, i, seq![0x22u8]) {
        lemma_jchars_after(s, i + 1, Seq::empty());
    }
}

proof fn lemma_jchars_after(s: Seq<u8>, j: int, out: Seq<char>)
    ensures
        jchars(s, j, out) matches Ok((_, e)) ==> j < e <= s.len(),
    decreases s.len() - j,
{
    if 0 <= j < s.len() && s[j] != 0x22 {
        if s[j] == 0x5C {
            if j + 1 < s.len() {
                let e = s[j + 1];
                match simple_escape(e) {
                    Some(c) => lemma_jchars_after(s, j + 2, out.push(c)),
                    None => if e == 0x75 && j + 6 <= s.len() {
                        let h = s.subrange(j + 2, j + 6);
                        if valid_utf8(h) {
                            let t = decode_utf8(h);
                            lemma_jchars_after(s, j + 6, out.push(escaped_char(hex_number_value(t))));
                        }
                    },
                }
            }
        } else {
            let end = sequence_end(s, j + 1);
            lemma_sequence_end(s, j + 1);
            let b = s.subrange(j, end);
            lemma_jchars_after(s, end, out + decode_utf8(b));
        }
    }
}

/// JSON text: one value, with nothing but whitespace after it.
pub open spec fn json_of(s: Seq<u8>) -> Result<JsonV, Seq<char>> {
    match jvalue(s, 0) {
        Err(m) => Err(m),
        Ok((v, n)) => {
            let p = skip_ws(s, n as int);
            if p != s.len() {
                Err("trailing characters at "@ + dec(p as nat))
            } else {
                Ok(v)
            }
        },
    }
}

proof fn lemma_jsons_push(s: Seq<Json>, j: Json)
    ensures
        jsons_view(s.push(j)) == jsons_view(s).push(json_view(j)),
{
    assert(s.push(j).subrange(0, s.len() as int) =~= s);
}

proof fn lemma_pairs_push(s: Seq<(String, Json)>, p: (String, Json))
    ensures
        pairs_view(s.push(p)) == pairs_view(s).push((p.0@, json_view(p.1))),
{
    assert(s.push(p).subrange(0, s.len() as int) =~= s);
}

/// A result whose count of bytes taken is `d` more.
pub open spec fn shifted<T>(r: Result<(T, nat), Seq<char>>, d: int) -> Result<(T, nat), Seq<char>> {
    match r {
        Ok((x, k)) => Ok((x, (k + d) as nat)),
        Err(m) => Err(m),
    }
}

/// The first position from `i` on that holds no whitespace.
fn skip_whitespace(s: &[u8], i: usize) -> (p: usize)
    requires
        i <= s@.len(),
    ensures
        p == skip_ws(s@, i as int),
{
    let mut p = i;
    while p < s.len() && (s[p] == 0x20 || s[p] == 0x09 || s[p] == 0x0A || s[p] == 0x0C || s[p]
        == 0x0D)
        invariant
            i <= p <= s@.len(),
            skip_ws(s@, i as int) == skip_ws(s@, p as int),
        decreases s@.len() - p,
    {
        p = p + 1;
    }
    p
}

/// Whether the bytes of `lit` stand at position `i`.
fn lit_at(s: &[u8], i: usize, lit: &[u8]) -> (b: bool)
    requires
        i <= s@.len(),
    ensures
        b == at_lit(s@, i as int, lit@),
{
    let sl: usize = s.len();
    if lit.len() > sl - i {
        return false;
    }
    let mut k: usize = 0;
    while k < lit.len()
        invariant
            k <= lit@.len(),
            sl == s@.len(),
            i + lit@.len() <= sl,
            forall|m: int| 0 <= m < k ==> s@[i + m] == lit@[m],
        decreases lit@.len() - k,
    {
        if s[i + k] != lit[k] {
            assert(s@.subrange(i as int, i + lit@.len())[k as int] != lit@[k as int]);
            return false;
        }
        k = k + 1;
    }
    assert(s@.subrange(i as int, i + lit@.len()) =~= lit@);
    true
}

proof fn lemma_char_code(c: char, code: u32)
    requires
        c as u32 == code && !(0xD800 <= code <= 0xDFFF || code > 0x10FFFF) || c == '\u{FFFD}' && (
        0xD800 <= code <= 0xDFFF || code > 0x10FFFF),
    ensures
        c == escaped_char(code as nat),
{
}

/// The message for a literal that is not there.
fn expected(lit: &str, i: usize) -> (m: String)
    ensures
        m@ == expected_text(lit@, i as int),
{
    let mut m = "expected ".to_owned();
    m.append(lit);
    m.append(" at ");
    push_u64(&mut m, i as u64);
    m
}

/// The value of the digits `t[a..e]`, where it fits in a `u64`.
fn digits_u64(t: &[u8], a: usize, e: usize) -> (r: Option<u64>)
    requires
        a <= e <= t@.len(),
        forall|k: int| a <= k < e ==> is_digit(#[trigger] t@[k]),
    ensures
        match r {
            Some(v) => v == digits_value(t@, a as int, e as int),
            None => digits_value(t@, a as int, e as int) > u64::MAX,
        },
{
    let mut acc: u64 = 0;
    let mut k = a;
    while k < e
        invariant
            a <= k <= e <= t@.len(),
            forall|m: int| a <= m < e ==> is_digit(#[trigger] t@[m]),
            acc == digits_value(t@, a as int, k as int),
        decreases e - k,
    {
        assert(is_digit(t@[k as int]));
        let d = (t[k] - 0x30) as u64;
        match acc.checked_mul(10) {
            Some(x) => match x.checked_add(d) {
                Some(y) => {
                    acc = y;
                },
                None => {
                    proof {
                        lemma_digits_grow(t@, a as int, (k + 1) as int, e as int);
                    }
                    return None;
                },
            },
            None => {
                proof {
                    lemma_digits_grow(t@, a as int, (k + 1) as int, e as int);
                }
                return None;
            },
        }
        k = k + 1;
    }
    Some(acc)
}

/// More digits never make a smaller value.
proof fn lemma_digits_grow(t: Seq<u8>, a: int, k: int, e: int)
    requires
        a <= k <= e,
    ensures
        digits_value(t, a, k) <= digits_value(t, a, e),
    decreases e - k,
{
    if k < e {
        lemma_digits_grow(t, a, k, e - 1);
    }
}

/// The first position from `i` on that is not a digit.
fn digits_from(t: &[u8], i: usize) -> (e: usize)
    requires
        i <= t@.len(),
    ensures
        e == digits_end(t@, i as int),
        i <= e <= t@.len(),
        forall|k: int| i <= k < e ==> is_digit(#[trigger] t@[k]),
{
    let mut e = i;
    while e < t.len() && t[e] >= 0x30 && t[e] <= 0x39
        invariant
            i <= e <= t@.len(),
            digits_end(t@, i as int) == digits_end(t@, e as int),
            forall|k: int| i <= k < e ==> is_digit(#[trigger] t@[k]),
        decreases t@.len() - e,
    {
        e = e + 1;
    }
    e
}

/// Whether `t` has the form of a floating-point number.
fn is_float_form(t: &[u8]) -> (b: bool)
    ensures
        b == float_form(t@),
{
    let n = t.len();
    let a: usize = if n > 0 && (t[0] == 0x2B || t[0] == 0x2D) {
        1
    } else {
        0
    };
    let d1 = digits_from(t, a);
    let point = d1 < n && t[d1] == 0x2E;
    let d2 = if point {
        digits_from(t, d1 + 1)
    } else {
        d1
    };
    let mantissa: usize = if point {
        (d1 - a) + (d2 - d1 - 1)
    } else {
        d1 - a
    };
    if mantissa == 0 {
        return false;
    }
    if d2 == n {
        return true;
    }
    if !(t[d2] == 0x65 || t[d2] == 0x45) {
        return false;
    }
    let b: usize = if d2 + 1 < n && (t[d2 + 1] == 0x2B || t[d2 + 1] == 0x2D) {
        d2 + 2
    } else {
        d2 + 1
    };
    let e = digits_from(t, b);
    e == n && n > b
}

/// The number at position `p`.
fn number(s: &[u8], p: usize) -> (r: Result<(Json, usize), String>)
    requires
        p <= s@.len(),
    ensures
        match jnumber(s@, p as int) {
            Ok((v, e)) => r matches Ok((j, e2)) && json_view(j) == v && e2 == e,
            Err(m) => r matches Err(x) && x@ == m,
        },
        r matches Ok((_, e)) ==> e <= s@.len(),
{
    let mut e = p;
    while e < s.len() && (s[e] >= 0x30 && s[e] <= 0x39 || s[e] == 0x2D || s[e] == 0x2B || s[e]
        == 0x2E || s[e] == 0x65 || s[e] == 0x45)
        invariant
            p <= e <= s@.len(),
            num_end(s@, p as int) == num_end(s@, e as int),
        decreases s@.len() - e,
    {
        e = e + 1;
    }
    let t = slice_subrange(s, p, e);
    let n = t.len();
    let ghost tv = t@;
    // As a u64: an optional `+`, then digits.
    let a: usize = if n > 0 && t[0] == 0x2B {
        1
    } else {
        0
    };
    if n > a {
        let d = digits_from(t, a);
        if d == n {
            if let Some(u) = digits_u64(t, a, n) {
                return Ok((Json::UInt(u), e));
            }
        }
    }
    // As a negative i64: `-`, then digits.
    if n > 1 && t[0] == 0x2D {
        let d = digits_from(t, 1);
        if d == n {
            if let Some(m) = digits_u64(t, 1, n) {
                if m <= 0x8000_0000_0000_0000 {
                    let v: i64 = if m == 0x8000_0000_0000_0000 {
                        i64::MIN
                    } else {
                        0 - (m as i64)
                    };
                    return Ok((Json::Int(v), e));
                }
            }
        }
    }
    let mut text = String::new();
    let mut k: usize = 0;
    while k < n
        invariant
            k <= n == t@.len(),
            text@ =~= ascii_chars(t@).subrange(0, k as int),
        decreases n - k,
    {
        push_char(&mut text, t[k] as char);
        k = k + 1;
    }
    assert(ascii_chars(t@).subrange(0, n as int) =~= ascii_chars(t@));
    if is_float_form(t) {
        return Ok((Json::Float(text), e));
    }
    let mut m = "bad number \"".to_owned();
    m.append(text.as_str());
    m.append("\" at ");
    push_u64(&mut m, p as u64);
    Err(m)
}

/// The string at position `i`.
fn string(s: &[u8], i: usize) -> (r: Result<(String, usize), String>)
    requires
        i <= s@.len(),
    ensures
        match jstring(s@, i as int) {
            Ok((t, e)) => r matches Ok((x, e2)) && x@ == t && e2 == e,
            Err(m) => r matches Err(x) && x@ == m,
        },
        r matches Ok((_, e)) ==> e <= s@.len(),
{
    let quote: [u8; 1] = [0x22u8];
    assert(quote@ =~= seq![0x22u8]);
    if !lit_at(s, i, &quote) {
        return Err(expected("\"", i));
    }
    let sl: usize = s.len();
    assert(i < sl);
    let mut out = String::new();
    let mut j = i + 1;
    assert(out@ =~= Seq::<char>::empty());
    loop
        invariant
            i < j <= s@.len(),
            jstring(s@, i as int) == jchars(s@, j as int, out@),
        ensures
            jstring(s@, i as int) matches Ok((_, e)) ==> e <= s@.len(),
        decreases s@.len() - j,
    {
        proof {
            lemma_jchars_after(s@, j as int, out@);
        }
        if j >= s.len() {
            return Err("unterminated string".to_owned());
        }
        let c = s[j];
        if c == 0x22 {
            return Ok((out, j + 1));
        }
        if c == 0x5C {
            if j + 1 >= s.len() {
                return Err("unterminated escape".to_owned());
            }
            let e = s[j + 1];
            let simple: Option<char> = if e == 0x22 {
                Some('"')
            } else if e == 0x5C {
                Some('\\')
            } else if e == 0x2F {
                Some('/')
            } else if e == 0x6E {
                Some('\n')
            } else if e == 0x72 {
                Some('\r')
            } else if e == 0x74 {
                Some('\t')
            } else if e == 0x62 {
                Some('\u{8}')
            } else if e == 0x66 {
                Some('\u{c}')
            } else {
                None
            };
            assert(simple == simple_escape(e));
            match simple {
                Some(ch) => {
                    push_char(&mut out, ch);
                    j = j + 2;
                },
                None => {
                    if e != 0x75 {
                        let mut m = "bad escape \\".to_owned();
                        push_char(&mut m, e as char);
                        return Err(m);
                    }
                    if s.len() - j < 6 {
                        return Err("short \\u".to_owned());
                    }
                    let h = slice_subrange(s, j + 2, j + 6);
                    let hex = match utf8_str(h) {
                        Ok(x) => x,
                        Err(m) => return Err(m),
                    };
                    let code = match hex_u32(hex) {
                        Ok(v) => v,
                        Err(m) => return Err(m),
                    };
                    let ch = match char_from_u32(code) {
                        Some(ch) => ch,
                        None => '\u{FFFD}',
                    };
                    proof {
                        lemma_char_code(ch, code);
                    }
                    push_char(&mut out, ch);
                    j = j + 6;
                },
            }
        } else {
            let mut end = j + 1;
            while end < s.len() && s[end] & 0xC0 == 0x80
                invariant
                    j < end <= s@.len(),
                    sequence_end(s@, (j + 1) as int) == sequence_end(s@, end as int),
                decreases s@.len() - end,
            {
                end = end + 1;
            }
            let b = slice_subrange(s, j, end);
            let piece = match utf8_str(b) {
                Ok(x) => x,
                Err(m) => return Err(m),
            };
            out.append(piece);
            j = end;
        }
    }
}

/// The value after any whitespace from position `i`, and the position after it.
fn value(s: &[u8], i: usize) -> (r: Result<(Json, usize), String>)
    requires
        i <= s@.len(),
    ensures
        match jvalue(s@, i as int) {
            Ok((v, n)) => r matches Ok((j, e)) && json_view(j) == v && e == i + n,
            Err(m) => r matches Err(x) && x@ == m,
        },
        r matches Ok((_, e)) ==> e <= s@.len(),
    decreases s@.len() - i, 0int,
{
    let p = skip_whitespace(s, i);
    proof {
        lemma_skip_ws(s@, i as int);
    }
    if p >= s.len() {
        return Err("unexpected end".to_owned());
    }
    let c = s[p];
    if c == 0x7B {
        let q = skip_whitespace(s, p + 1);
        proof {
            lemma_skip_ws(s@, p + 1);
        }
        if q < s.len() && s[q] == 0x7D {
            proof {
                assert(pairs_view(Seq::<(String, Json)>::empty()) =~= Seq::empty());
            }
            return Ok((Json::Obj(Vec::new()), q + 1));
        }
        return match members(s, p + 1) {
            Ok((pairs, e)) => Ok((Json::Obj(pairs), e)),
            Err(m) => Err(m),
        };
    }
    if c == 0x5B {
        let q = skip_whitespace(s, p + 1);
        proof {
            lemma_skip_ws(s@, p + 1);
        }
        if q < s.len() && s[q] == 0x5D {
            proof {
                assert(jsons_view(Seq::<Json>::empty()) =~= Seq::empty());
            }
            return Ok((Json::Arr(Vec::new()), q + 1));
        }
        return match items(s, p + 1) {
            Ok((xs, e)) => Ok((Json::Arr(xs), e)),
            Err(m) => Err(m),
        };
    }
    if c == 0x22 {
        proof {
            lemma_jstring_after(s@, p as int);
        }
        return match string(s, p) {
            Ok((t, e)) => Ok((Json::Str(t), e)),
            Err(m) => Err(m),
        };
    }
    if c == 0x74 {
        let lit: [u8; 4] = [0x74u8, 0x72u8, 0x75u8, 0x65u8];
        assert(lit@ =~= seq![0x74u8, 0x72u8, 0x75u8, 0x65u8]);
        return if lit_at(s, p, &lit) {
            Ok((Json::Bool(true), p + 4))
        } else {
            Err(expected("true", p))
        };
    }
    if c == 0x66 {
        let lit: [u8; 5] = [0x66u8, 0x61u8, 0x6Cu8, 0x73u8, 0x65u8];
        assert(lit@ =~= seq![0x66u8, 0x61u8, 0x6Cu8, 0x73u8, 0x65u8]);
        return if lit_at(s, p, &lit) {
            Ok((Json::Bool(false), p + 5))
        } else {
            Err(expected("false", p))
        };
    }
    if c == 0x6E {
        let lit: [u8; 4] = [0x6Eu8, 0x75u8, 0x6Cu8, 0x6Cu8];
        assert(lit@ =~= seq![0x6Eu8, 0x75u8, 0x6Cu8, 0x6Cu8]);
        return if lit_at(s, p, &lit) {
            Ok((Json::Null, p + 4))
        } else {
            Err(expected("null", p))
        };
    }
    proof {
        lemma_num_end(s@, p as int);
    }
    match number(s, p) {
        Ok((v, e)) => Ok((v, e)),
        Err(m) => Err(m),
    }
}

pub proof fn lemma_num_end(s: Seq<u8>, i: int)
    ensures
        i <= num_end(s, i),
        i <= s.len() ==> num_end(s, i) <= s.len(),
    decreases s.len() - i,
{
    if 0 <= i < s.len() && is_num_byte(s[i]) {
        lemma_num_end(s, i + 1);
    }
}

/// The items of an array from position `i` through the closing bracket, and the position
/// after it.
fn items(s: &[u8], i: usize) -> (r: Result<(Vec<Json>, usize), String>)
    requires
        i <= s@.len(),
    ensures
        match jitems(s@, i as int, Seq::empty()) {
            Ok((v, n)) => r matches Ok((xs, e)) && jsons_view(xs@) == v && e == i + n,
            Err(m) => r matches Err(x) && x@ == m,
        },
        r matches Ok((_, e)) ==> e <= s@.len(),
    decreases s@.len() - i, 1int,
{
    let mut acc: Vec<Json> = Vec::new();
    let mut cur = i;
    assert(jsons_view(acc@) =~= Seq::<JsonV>::empty());
    loop
        invariant
            i <= cur <= s@.len(),
            jitems(s@, i as int, Seq::empty()) == shifted(
                jitems(s@, cur as int, jsons_view(acc@)),
                cur - i,
            ),
        decreases s@.len() - cur,
    {
        let (v, j) = match value(s, cur) {
            Ok(x) => x,
            Err(m) => return Err(m),
        };
        let r = skip_whitespace(s, j);
        proof {
            lemma_skip_ws(s@, j as int);
            lemma_jsons_push(acc@, v);
        }
        if r < s.len() && s[r] == 0x2C {
            acc.push(v);
            cur = r + 1;
        } else if r < s.len() && s[r] == 0x5D {
            acc.push(v);
            return Ok((acc, r + 1));
        } else {
            let mut m = "expected , or ] at ".to_owned();
            push_u64(&mut m, r as u64);
            return Err(m);
        }
    }
}

/// The members of an object from position `i` through the closing brace, and the position
/// after it.
fn members(s: &[u8], i: usize) -> (r: Result<(Vec<(String, Json)>, usize), String>)
    requires
        i <= s@.len(),
    ensures
        match jmembers(s@, i as int, Seq::empty()) {
            Ok((v, n)) => r matches Ok((ps, e)) && pairs_view(ps@) == v && e == i + n,
            Err(m) => r matches Err(x) && x@ == m,
        },
        r matches Ok((_, e)) ==> e <= s@.len(),
    decreases s@.len() - i, 1int,
{
    let mut acc: Vec<(String, Json)> = Vec::new();
    let mut cur = i;
    assert(pairs_view(acc@) =~= Seq::<(Seq<char>, JsonV)>::empty());
    loop
        invariant
            i <= cur <= s@.len(),
            jmembers(s@, i as int, Seq::empty()) == shifted(
                jmembers(s@, cur as int, pairs_view(acc@)),
                cur - i,
            ),
        decreases s@.len() - cur,
    {
        let k0 = skip_whitespace(s, cur);
        proof {
            lemma_skip_ws(s@, cur as int);
            lemma_jstring_after(s@, k0 as int);
        }
        let (key, a) = match string(s, k0) {
            Ok(x) => x,
            Err(m) => return Err(m),
        };
        let b = skip_whitespace(s, a);
        proof {
            lemma_skip_ws(s@, a as int);
        }
        if !(b < s.len() && s[b] == 0x3A) {
            return Err(expected(":", b));
        }
        let (v, n) = match value(s, b + 1) {
            Ok(x) => x,
            Err(m) => return Err(m),
        };
        let d = skip_whitespace(s, n);
        proof {
            lemma_skip_ws(s@, n as int);
            lemma_pairs_push(acc@, (key, v));
        }
        if d < s.len() && s[d] == 0x2C {
            acc.push((key, v));
            cur = d + 1;
        } else if d < s.len() && s[d] == 0x7D {
            acc.push((key, v));
            return Ok((acc, d + 1));
        } else {
            let mut m = "expected , or } at ".to_owned();
            push_u64(&mut m, d as u64);
            return Err(m);
        }
    }
}

/// Parse JSON text: one value, with nothing but whitespace after it.
pub fn parse_json(text: &[u8]) -> (r: Result<Json, String>)
    ensures
        match json_of(text@) {
            Ok(v) => r matches Ok(j) && json_view(j) == v,
            Err(m) => r matches Err(x) && x@ == m,
        },
{
    let (v, n) = match value(text, 0) {
        Ok(x) => x,
        Err(m) => return Err(m),
    };
    let p = skip_whitespace(text, n);
    if p != text.len() {
        let mut m = "trailing characters at ".to_owned();
        push_u64(&mut m, p as u64);
        return Err(m);
    }
    Ok(v)
}

// ---- Reading values out --------------------------------------------------------------------

proof fn lemma_jsons_index(s: Seq<Json>)
    ensures
        jsons_view(s).len() == s.len(),
        forall|k: int| 0 <= k < s.len() ==> #[trigger] jsons_view(s)[k] == json_view(s[k]),
    decreases s.len(),
{
    if s.len() > 0 {
        let t = s.subrange(0, s.len() - 1);
        lemma_jsons_index(t);
        assert forall|k: int| 0 <= k < s.len() implies #[trigger] jsons_view(s)[k] == json_view(
            s[k],
        ) by {
            if k < s.len() - 1 {
                assert(t[k] == s[k]);
            }
        }
    }
}

proof fn lemma_pairs_index(s: Seq<(String, Json)>)
    ensures
        pairs_view(s).len() == s.len(),
        forall|k: int|
            0 <= k < s.len() ==> #[trigger] pairs_view(s)[k] == (s[k].0@, json_view(s[k].1)),
    decreases s.len(),
{
    if s.len() > 0 {
        let t = s.subrange(0, s.len() - 1);
        lemma_pairs_index(t);
        assert forall|k: int| 0 <= k < s.len() implies #[trigger] pairs_view(s)[k] == (
            s[k].0@,
            json_view(s[k].1),
        ) by {
            if k < s.len() - 1 {
                assert(t[k] == s[k]);
            }
        }
    }
}

/// The value of the first member from index `k` on whose key is `key`.
pub open spec fn member_from(pairs: Seq<(Seq<char>, JsonV)>, key: Seq<char>, k: int) -> Option<JsonV>
    decreases pairs.len() - k,
{
    if k < 0 || k >= pairs.len() {
        None
    } else if pairs[k].0 == key {
        Some(pairs[k].1)
    } else {
        member_from(pairs, key, k + 1)
    }
}

/// The value of an object's first member named `key`; none for anything else.
pub open spec fn get_of(v: JsonV, key: Seq<char>) -> Option<JsonV> {
    match v {
        JsonV::Obj(pairs) => member_from(pairs, key, 0),
        _ => None,
    }
}

/// A value as an `i64`: a signed integer, or an unsigned one that fits.
pub open spec fn as_i64_of(v: JsonV) -> Option<i64> {
    match v {
        JsonV::Int(x) => Some(x),
        JsonV::UInt(u) => if u <= i64::MAX {
            Some(u as i64)
        } else {
            None
        },
        _ => None,
    }
}

/// A value as a `u64`: an unsigned integer, or a signed one that is not negative.
pub open spec fn as_u64_of(v: JsonV) -> Option<u64> {
    match v {
        JsonV::UInt(u) => Some(u),
        JsonV::Int(x) => if x >= 0 {
            Some(x as u64)
        } else {
            None
        },
        _ => None,
    }
}

/// A value as text, where it is a string.
pub open spec fn as_str_of(v: JsonV) -> Option<Seq<char>> {
    match v {
        JsonV::Str(t) => Some(t),
        _ => None,
    }
}

/// A value as a list, where it is an array.
pub open spec fn as_array_of(v: JsonV) -> Option<Seq<JsonV>> {
    match v {
        JsonV::Arr(items) => Some(items),
        _ => None,
    }
}

/// A member of `v`, as a list where it is one.
pub open spec fn list_of(v: JsonV, key: Seq<char>) -> Option<Seq<JsonV>> {
    match get_of(v, key) {
        Some(x) => as_array_of(x),
        None => None,
    }
}

/// A member of `v`, as text where it is text.
pub open spec fn text_of(v: JsonV, key: Seq<char>) -> Option<Seq<char>> {
    match get_of(v, key) {
        Some(x) => as_str_of(x),
        None => None,
    }
}

/// A member of `v`, as an `i64` where it is one.
pub open spec fn int_of(v: JsonV, key: Seq<char>) -> Option<i64> {
    match get_of(v, key) {
        Some(x) => as_i64_of(x),
        None => None,
    }
}

impl Json {
    /// The value of an object's first member named `key`; none for anything else.
    pub fn get(&self, key: &str) -> (r: Option<&Json>)
        ensures
            match get_of(json_view(*self), key@) {
                Some(v) => r matches Some(j) && json_view(*j) == v,
                None => r is None,
            },
    {
        match self {
            Json::Obj(pairs) => {
                proof {
                    lemma_pairs_index(pairs@);
                }
                let ghost pv = pairs_view(pairs@);
                assert(json_view(*self) == JsonV::Obj(pv));
                let mut k: usize = 0;
                while k < pairs.len()
                    invariant
                        k <= pairs@.len(),
                        pv == pairs_view(pairs@),
                        pv.len() == pairs@.len(),
                        forall|m: int|
                            0 <= m < pairs@.len() ==> #[trigger] pv[m] == (
                                pairs@[m].0@,
                                json_view(pairs@[m].1),
                            ),
                        member_from(pv, key@, 0) == member_from(pv, key@, k as int),
                        get_of(json_view(*self), key@) == member_from(pv, key@, 0),
                    decreases pairs@.len() - k,
                {
                    assert(pv[k as int] == (pairs@[k as int].0@, json_view(pairs@[k as int].1)));
                    if str_eq(pairs[k].0.as_str(), key) {
                        assert(member_from(pv, key@, k as int) == Some(pv[k as int].1));
                        return Some(&pairs[k].1);
                    }
                    k = k + 1;
                }
                None
            },
            _ => None,
        }
    }

    /// The value as an `i64`: a signed integer, or an unsigned one that fits.
    pub fn as_i64(&self) -> (r: Option<i64>)
        ensures
            r == as_i64_of(json_view(*self)),
    {
        match self {
            Json::Int(v) => Some(*v),
            Json::UInt(u) => if *u <= 0x7fff_ffff_ffff_ffff {
                Some(*u as i64)
            } else {
                None
            },
            _ => None,
        }
    }

    /// The value as a `u64`: an unsigned integer, or a signed one that is not negative.
    pub fn as_u64(&self) -> (r: Option<u64>)
        ensures
            r == as_u64_of(json_view(*self)),
    {
        match self {
            Json::UInt(u) => Some(*u),
            Json::Int(v) => if *v >= 0 {
                Some(*v as u64)
            } else {
                None
            },
            _ => None,
        }
    }

    /// The value as text, where it is a string.
    pub fn as_str(&self) -> (r: Option<&str>)
        ensures
            match as_str_of(json_view(*self)) {
                Some(t) => r matches Some(x) && x@ == t,
                None => r is None,
            },
    {
        match self {
            Json::Str(s) => Some(s.as_str()),
            _ => None,
        }
    }

    /// The value as a list, where it is an array.
    pub fn as_array(&self) -> (r: Option<&Vec<Json>>)
        ensures
            match as_array_of(json_view(*self)) {
                Some(items) => r matches Some(x) && jsons_view(x@) == items,
                None => r is None,
            },
    {
        match self {
            Json::Arr(items) => Some(items),
            _ => None,
        }
    }
}

/// The items of a list, with what `jsons_view` makes of each.
pub proof fn lemma_items_view(s: Seq<Json>)
    ensures
        jsons_view(s).len() == s.len(),
        forall|k: int| 0 <= k < s.len() ==> #[trigger] jsons_view(s)[k] == json_view(s[k]),
{
    lemma_jsons_index(s);
}

/// The members of an object, with what `pairs_view` makes of each.
pub proof fn lemma_members_view(s: Seq<(String, Json)>)
    ensures
        pairs_view(s).len() == s.len(),
        forall|k: int|
            0 <= k < s.len() ==> #[trigger] pairs_view(s)[k] == (s[k].0@, json_view(s[k].1)),
{
    lemma_pairs_index(s);
}

/// A copy of a value.
pub fn copy_json(j: &Json) -> (r: Json)
    ensures
        json_view(r) == json_view(*j),
    decreases j,
{
    match j {
        Json::Null => Json::Null,
        Json::Bool(b) => Json::Bool(*b),
        Json::Int(i) => Json::Int(*i),
        Json::UInt(u) => Json::UInt(*u),
        Json::Float(t) => Json::Float(t.clone()),
        Json::Str(t) => Json::Str(t.clone()),
        Json::Arr(items) => {
            let mut out: Vec<Json> = Vec::new();
            let mut k: usize = 0;
            assert(jsons_view(out@) =~= jsons_view(items@).take(0));
            while k < items.len()
                invariant
                    k <= items@.len(),
                    jsons_view(out@) == jsons_view(items@.take(k as int)),
                    *j == Json::Arr(*items),
                decreases items@.len() - k,
            {
                assert(decreases_to!(*j => (*j)->Arr_0));
                assert(decreases_to!(*items => items@));
                assert(decreases_to!(items@ => items@[k as int]));
                let c = copy_json(&items[k]);
                proof {
                    lemma_jsons_push(out@, c);
                    lemma_jsons_push(items@.take(k as int), items@[k as int]);
                    assert(items@.take(k + 1) =~= items@.take(k as int).push(items@[k as int]));
                }
                out.push(c);
                k = k + 1;
            }
            assert(items@.take(items@.len() as int) =~= items@);
            Json::Arr(out)
        },
        Json::Obj(pairs) => {
            let mut out: Vec<(String, Json)> = Vec::new();
            let mut k: usize = 0;
            assert(pairs_view(out@) =~= pairs_view(pairs@.take(0)));
            while k < pairs.len()
                invariant
                    k <= pairs@.len(),
                    pairs_view(out@) == pairs_view(pairs@.take(k as int)),
                    *j == Json::Obj(*pairs),
                decreases pairs@.len() - k,
            {
                assert(decreases_to!(*j => (*j)->Obj_0));
                assert(decreases_to!(*pairs => pairs@));
                assert(decreases_to!(pairs@ => pairs@[k as int]));
                assert(decreases_to!(pairs@[k as int] => pairs@[k as int].1));
                let c = copy_json(&pairs[k].1);
                let key = pairs[k].0.clone();
                proof {
                    lemma_pairs_push(out@, (key, c));
                    lemma_pairs_push(pairs@.take(k as int), pairs@[k as int]);
                    assert(pairs@.take(k + 1) =~= pairs@.take(k as int).push(pairs@[k as int]));
                }
                out.push((key, c));
                k = k + 1;
            }
            assert(pairs@.take(pairs@.len() as int) =~= pairs@);
            Json::Obj(out)
        },
    }
}

} // verus!
