//! Text the reader shows: decimal numbers, hexadecimal bytes, and strings built from them.
//!
//! Every piece of text the library produces is specified by the spec functions here, so a
//! contract can say exactly which characters a function returns.

use vstd::prelude::*;
use vstd::utf8::{decode_utf8, encode_utf8, encode_utf8_decode_utf8, valid_utf8};

verus! {

/// The character of an ASCII byte.
pub open spec fn ascii(b: u8) -> char {
    b as char
}

/// The character of a decimal digit `0..=9`.
pub open spec fn digit(d: nat) -> char {
    ascii((48 + d) as u8)
}

/// The decimal digits of `n`, most significant first, with no leading zeros.
pub open spec fn dec(n: nat) -> Seq<char>
    decreases n,
{
    if n < 10 {
        seq![digit(n)]
    } else {
        dec(n / 10).push(digit(n % 10))
    }
}

/// A signed integer in decimal: a minus sign before the digits of a negative number.
pub open spec fn signed_dec(i: int) -> Seq<char> {
    if i < 0 {
        seq!['-'].add(dec((-i) as nat))
    } else {
        dec(i as nat)
    }
}

/// The character of a hexadecimal digit `0..=15`, in lower case.
pub open spec fn hex_digit(d: nat) -> char {
    if d < 10 {
        digit(d)
    } else {
        ascii((87 + d) as u8)
    }
}

/// A byte as two lower-case hexadecimal digits.
pub open spec fn hex_byte(b: u8) -> Seq<char> {
    seq![hex_digit((b / 16) as nat), hex_digit((b % 16) as nat)]
}

/// `n` zero characters.
pub open spec fn zeros(n: nat) -> Seq<char> {
    Seq::new(n, |i: int| '0')
}

/// Digits padded with zeros on the left to at least `w` characters.
pub open spec fn pad_digits(digits: Seq<char>, w: nat) -> Seq<char> {
    if digits.len() < w {
        zeros((w - digits.len()) as nat) + digits
    } else {
        digits
    }
}

/// An integer as Rust's `{:0w}` writes it: zero-padded to width `w`, the sign counted in the
/// width.
pub open spec fn padded(v: int, w: nat) -> Seq<char> {
    if v < 0 {
        seq!['-'] + pad_digits(dec((-v) as nat), if w >= 1 {
            (w - 1) as nat
        } else {
            0
        })
    } else {
        pad_digits(dec(v as nat), w)
    }
}

/// Append `digits` padded with zeros to at least `w` characters.
pub fn push_padded_digits(s: &mut String, n: u64, w: usize)
    ensures
        final(s)@ == old(s)@ + pad_digits(dec(n as nat), w as nat),
{
    let digits = u64_text(n);
    let len = digits.as_str().unicode_len();
    let mut k: usize = len;
    let ghost start = s@;
    while k < w
        invariant
            len == dec(n as nat).len(),
            len <= k,
            k <= w || k == len,
            s@ == start + zeros((k - len) as nat),
        decreases w - k,
    {
        push_char(s, '0');
        proof {
            assert(zeros((k + 1 - len) as nat) =~= zeros((k - len) as nat).push('0'));
        }
        k = k + 1;
    }
    s.append(digits.as_str());
    proof {
        if len < w {
            assert(k == w);
        } else {
            assert(zeros(0) =~= Seq::<char>::empty());
        }
        assert(s@ =~= start + pad_digits(dec(n as nat), w as nat));
    }
}

/// Append `v` as `{:0w}` writes it.
pub fn push_padded(s: &mut String, v: i64, w: usize)
    ensures
        final(s)@ == old(s)@ + padded(v as int, w as nat),
{
    if v < 0 {
        push_char(s, '-');
        let magnitude: u64 = (0i128 - v as i128) as u64;
        let inner = if w >= 1 { w - 1 } else { 0 };
        push_padded_digits(s, magnitude, inner);
        assert(s@ =~= old(s)@ + padded(v as int, w as nat));
    } else {
        push_padded_digits(s, v as u64, w);
    }
}

/// Whether two strings hold the same characters, compared byte by byte.
pub fn str_eq(a: &str, b: &str) -> (r: bool)
    ensures
        r == (a@ == b@),
{
    let x = a.as_bytes();
    let y = b.as_bytes();
    proof {
        encode_utf8_decode_utf8(a@);
        encode_utf8_decode_utf8(b@);
        assert(x@ == encode_utf8(a@));
        assert(y@ == encode_utf8(b@));
        if a@ == b@ {
            assert(x@ == y@);
        }
        if x@ == y@ {
            assert(a@ == b@);
        }
    }
    if x.len() != y.len() {
        return false;
    }
    let mut i: usize = 0;
    while i < x.len()
        invariant
            i <= x@.len() == y@.len(),
            forall|k: int| 0 <= k < i ==> x@[k] == y@[k],
            a@ == b@ ==> x@ == y@,
            x@ == y@ ==> a@ == b@,
        decreases x@.len() - i,
    {
        if x[i] != y[i] {
            return false;
        }
        i = i + 1;
    }
    assert(x@ =~= y@);
    true
}

/// Append one character to a string.
///
/// Calls `String::push`, which appends the character: the contract says exactly that.
#[verifier::external_body]
pub fn push_char(s: &mut String, c: char)
    ensures
        final(s)@ == old(s)@.push(c),
{
    s.push(c);
}

/// Append `n` in decimal.
pub fn push_u64(s: &mut String, n: u64)
    ensures
        final(s)@ == old(s)@ + dec(n as nat),
    decreases n,
{
    if n >= 10 {
        push_u64(s, n / 10);
    }
    let d = (n % 10) as u8;
    push_char(s, (48u8 + d) as char);
    assert(s@ == old(s)@ + dec(n as nat));
}

/// The decimal digits of `n`, as characters.
pub fn dec_chars(n: u128) -> (v: Vec<char>)
    ensures
        v@ == dec(n as nat),
    decreases n,
{
    let mut v = if n >= 10 {
        dec_chars(n / 10)
    } else {
        Vec::new()
    };
    let d = (n % 10) as u8;
    v.push((48u8 + d) as char);
    proof {
        if n < 10 {
            assert(v@ =~= dec(n as nat));
        }
    }
    v
}

/// Append characters to a string.
pub fn push_chars(s: &mut String, cs: &[char])
    ensures
        final(s)@ == old(s)@ + cs@,
{
    let mut i: usize = 0;
    while i < cs.len()
        invariant
            i <= cs@.len(),
            s@ == old(s)@ + cs@.subrange(0, i as int),
        decreases cs@.len() - i,
    {
        push_char(s, cs[i]);
        assert(s@ =~= old(s)@ + cs@.subrange(0, i + 1));
        i = i + 1;
    }
    assert(cs@.subrange(0, cs@.len() as int) =~= cs@);
}

/// Append `n` zeros.
pub fn push_zeros(s: &mut String, n: usize)
    ensures
        final(s)@ == old(s)@ + zeros(n as nat),
{
    let mut i: usize = 0;
    while i < n
        invariant
            i <= n,
            s@ == old(s)@ + zeros(i as nat),
        decreases n - i,
    {
        push_char(s, '0');
        assert(s@ =~= old(s)@ + zeros((i + 1) as nat));
        i = i + 1;
    }
}

/// Append `i` in decimal, with a minus sign when it is negative.
pub fn push_i64(s: &mut String, i: i64)
    ensures
        final(s)@ == old(s)@ + signed_dec(i as int),
{
    if i < 0 {
        push_char(s, '-');
        let magnitude: u64 = (0i128 - i as i128) as u64;
        push_u64(s, magnitude);
        assert(s@ == old(s)@ + signed_dec(i as int));
    } else {
        push_u64(s, i as u64);
    }
}

/// Append a byte as two hexadecimal digits.
pub fn push_hex_byte(s: &mut String, b: u8)
    ensures
        final(s)@ == old(s)@ + hex_byte(b),
{
    let hi = b / 16;
    let lo = b % 16;
    let c1 = if hi < 10 { (48u8 + hi) as char } else { (87u8 + hi) as char };
    let c2 = if lo < 10 { (48u8 + lo) as char } else { (87u8 + lo) as char };
    push_char(s, c1);
    push_char(s, c2);
    assert(s@ == old(s)@ + hex_byte(b));
}

/// Integers separated by ", ".
pub open spec fn ints_joined(xs: Seq<int>) -> Seq<char>
    decreases xs.len(),
{
    if xs.len() == 0 {
        Seq::empty()
    } else if xs.len() == 1 {
        signed_dec(xs[0])
    } else {
        ints_joined(xs.drop_last()) + ", "@ + signed_dec(xs.last())
    }
}

/// A list of integers as Rust's `{:?}` writes it: `[1, -2, 3]`.
pub open spec fn ints_text(xs: Seq<int>) -> Seq<char> {
    "["@ + ints_joined(xs) + "]"@
}

/// Append a list of signed integers as `{:?}` writes it.
pub fn push_i64_list(s: &mut String, xs: &[i64])
    ensures
        final(s)@ == old(s)@ + ints_text(xs@.map_values(|x: i64| x as int)),
{
    let ghost ints = xs@.map_values(|x: i64| x as int);
    s.append("[");
    let mut k: usize = 0;
    while k < xs.len()
        invariant
            k <= xs@.len(),
            ints == xs@.map_values(|x: i64| x as int),
            s@ == old(s)@ + "["@ + ints_joined(ints.take(k as int)),
        decreases xs@.len() - k,
    {
        if k > 0 {
            s.append(", ");
        }
        push_i64(s, xs[k]);
        assert(ints.take(k + 1).drop_last() =~= ints.take(k as int));
        k = k + 1;
    }
    assert(ints.take(k as int) =~= ints);
    s.append("]");
}

/// Append a list of bytes as `{:?}` writes it.
pub fn push_u8_list(s: &mut String, xs: &[u8])
    ensures
        final(s)@ == old(s)@ + ints_text(xs@.map_values(|x: u8| x as int)),
{
    let ghost ints = xs@.map_values(|x: u8| x as int);
    s.append("[");
    let mut k: usize = 0;
    while k < xs.len()
        invariant
            k <= xs@.len(),
            ints == xs@.map_values(|x: u8| x as int),
            s@ == old(s)@ + "["@ + ints_joined(ints.take(k as int)),
        decreases xs@.len() - k,
    {
        if k > 0 {
            s.append(", ");
        }
        push_u64(s, xs[k] as u64);
        assert(ints.take(k + 1).drop_last() =~= ints.take(k as int));
        k = k + 1;
    }
    assert(ints.take(k as int) =~= ints);
    s.append("]");
}

/// Whether `a` comes no later than `b` in the order Rust sorts strings: character by
/// character, and a string before any longer string it begins.
pub open spec fn text_le(a: Seq<char>, b: Seq<char>) -> bool
    decreases a.len(),
{
    if a.len() == 0 {
        true
    } else if b.len() == 0 {
        false
    } else if a[0] != b[0] {
        (a[0] as int) < (b[0] as int)
    } else {
        text_le(a.drop_first(), b.drop_first())
    }
}

/// `text_le` as a relation value, for sorting.
pub open spec fn text_order() -> spec_fn(Seq<char>, Seq<char>) -> bool {
    |a: Seq<char>, b: Seq<char>| text_le(a, b)
}

proof fn lemma_text_le_props(a: Seq<char>, b: Seq<char>, c: Seq<char>)
    ensures
        text_le(a, a),
        text_le(a, b) || text_le(b, a),
        text_le(a, b) && text_le(b, a) ==> a =~= b,
        text_le(a, b) && text_le(b, c) ==> text_le(a, c),
    decreases a.len(),
{
    if a.len() > 0 && b.len() > 0 && c.len() > 0 {
        lemma_text_le_props(a.drop_first(), b.drop_first(), c.drop_first());
    } else if a.len() > 0 && b.len() > 0 {
        lemma_text_le_props(a.drop_first(), b.drop_first(), b.drop_first());
    } else if a.len() > 0 {
        lemma_text_le_props(a.drop_first(), a.drop_first(), a.drop_first());
    }
    if a.len() > 0 && b.len() > 0 && a[0] == b[0] && text_le(a, b) && text_le(b, a) {
        assert(a =~= seq![a[0]] + a.drop_first());
        assert(b =~= seq![b[0]] + b.drop_first());
    }
}

/// Ordering strings character by character is a total order.
pub proof fn lemma_text_order_total()
    ensures
        vstd::relations::total_ordering(text_order()),
{
    let r = text_order();
    assert forall|a: Seq<char>| #[trigger] r(a, a) by {
        lemma_text_le_props(a, a, a);
    }
    assert forall|a: Seq<char>, b: Seq<char>| #[trigger] r(a, b) && #[trigger] r(b, a) implies a
        == b by {
        lemma_text_le_props(a, b, b);
    }
    assert forall|a: Seq<char>, b: Seq<char>, c: Seq<char>| #[trigger] r(a, b) && #[trigger] r(
        b,
        c,
    ) implies r(a, c) by {
        lemma_text_le_props(a, b, c);
    }
    assert forall|a: Seq<char>, b: Seq<char>| #[trigger] r(a, b) || r(b, a) by {
        lemma_text_le_props(a, b, b);
    }
}

proof fn lemma_text_le_skip(a: Seq<char>, b: Seq<char>, i: int)
    requires
        0 <= i <= a.len(),
        i <= b.len(),
        a.subrange(0, i) == b.subrange(0, i),
    ensures
        text_le(a, b) == text_le(a.skip(i), b.skip(i)),
    decreases i,
{
    if i > 0 {
        assert(a[0] == a.subrange(0, i)[0]);
        assert(b[0] == b.subrange(0, i)[0]);
        assert(a.drop_first().subrange(0, i - 1) =~= a.subrange(0, i).drop_first());
        assert(b.drop_first().subrange(0, i - 1) =~= b.subrange(0, i).drop_first());
        lemma_text_le_skip(a.drop_first(), b.drop_first(), i - 1);
        assert(a.drop_first().skip(i - 1) =~= a.skip(i));
        assert(b.drop_first().skip(i - 1) =~= b.skip(i));
    } else {
        assert(a.skip(0) =~= a);
        assert(b.skip(0) =~= b);
    }
}

/// Whether `a` sorts no later than `b`.
pub fn text_leq(a: &str, b: &str) -> (r: bool)
    ensures
        r == text_le(a@, b@),
{
    let na = a.unicode_len();
    let nb = b.unicode_len();
    let mut i: usize = 0;
    while i < na && i < nb && a.get_char(i) == b.get_char(i)
        invariant
            na == a@.len(),
            nb == b@.len(),
            i <= na,
            i <= nb,
            a@.subrange(0, i as int) == b@.subrange(0, i as int),
        decreases na - i,
    {
        assert(a@.subrange(0, i + 1) =~= a@.subrange(0, i as int).push(a@[i as int]));
        assert(b@.subrange(0, i + 1) =~= b@.subrange(0, i as int).push(b@[i as int]));
        i = i + 1;
    }
    proof {
        lemma_text_le_skip(a@, b@, i as int);
    }
    if i == na {
        true
    } else if i == nb {
        false
    } else {
        (a.get_char(i) as u32) < (b.get_char(i) as u32)
    }
}

/// The characters of some strings.
pub open spec fn texts_view(v: Seq<String>) -> Seq<Seq<char>> {
    v.map_values(|s: String| s@)
}

/// Sort strings the way Rust sorts them.
pub fn sort_texts(v: Vec<String>) -> (out: Vec<String>)
    ensures
        texts_view(out@) == texts_view(v@).sort_by(text_order()),
{
    let ghost vv = texts_view(v@);
    let mut out: Vec<String> = Vec::new();
    let mut i: usize = 0;
    proof {
        lemma_text_order_total();
        assert(vv.subrange(0, 0) =~= texts_view(out@));
    }
    while i < v.len()
        invariant
            i <= v@.len(),
            vv == texts_view(v@),
            vstd::relations::sorted_by(texts_view(out@), text_order()),
            texts_view(out@).to_multiset() == vv.subrange(0, i as int).to_multiset(),
            vstd::relations::total_ordering(text_order()),
        decreases v@.len() - i,
    {
        let x = v[i].clone();
        assert(x@ == vv[i as int]);
        let mut p: usize = 0;
        while p < out.len() && text_leq(out[p].as_str(), x.as_str())
            invariant
                p <= out@.len(),
                forall|k: int| 0 <= k < p ==> text_le(#[trigger] texts_view(out@)[k], x@),
            decreases out@.len() - p,
        {
            p = p + 1;
        }
        let ghost before = texts_view(out@);
        let ghost xv = x@;
        out.insert(p, x);
        proof {
            assert(texts_view(out@) =~= before.insert(p as int, xv));
            vstd::seq_lib::to_multiset_insert(before, p as int, xv);
            assert(vv.subrange(0, i + 1) =~= vv.subrange(0, i as int).push(xv));
            vstd::seq_lib::to_multiset_build(vv.subrange(0, i as int), xv);
            let now = texts_view(out@);
            assert forall|a: int, b: int| 0 <= a < b < now.len() implies #[trigger] text_order()(
                now[a],
                now[b],
            ) by {
                if b < p {
                    assert(now[a] == before[a] && now[b] == before[b]);
                } else if b == p {
                    assert(now[a] == before[a]);
                } else if a == p {
                    assert(now[b] == before[b - 1]);
                    assert(!text_le(before[p as int], xv));
                    lemma_text_le_props(before[p as int], xv, xv);
                    if (b - 1) > p {
                        assert(text_order()(before[p as int], before[b - 1]));
                        lemma_text_le_props(xv, before[p as int], before[b - 1]);
                    }
                } else if a < p {
                    assert(now[a] == before[a] && now[b] == before[b - 1]);
                    assert(text_le(before[a], xv));
                    assert(!text_le(before[p as int], xv));
                    lemma_text_le_props(before[p as int], xv, xv);
                    lemma_text_le_props(before[a], xv, before[p as int]);
                    if b - 1 > p {
                        assert(text_order()(before[p as int], before[b - 1]));
                        lemma_text_le_props(before[a], before[p as int], before[b - 1]);
                    }
                } else {
                    assert(now[a] == before[a - 1] && now[b] == before[b - 1]);
                }
            }
        }
        i = i + 1;
    }
    proof {
        assert(vv.subrange(0, vv.len() as int) =~= vv);
        vv.lemma_sort_by_ensures(text_order());
        vstd::seq_lib::lemma_sorted_unique(texts_view(out@), vv.sort_by(text_order()), text_order());
    }
    out
}

/// `n` in decimal, as a new string.
pub fn u64_text(n: u64) -> (r: String)
    ensures
        r@ == dec(n as nat),
{
    let mut s = String::new();
    push_u64(&mut s, n);
    assert(s@ == dec(n as nat));
    s
}

/// `i` in decimal, as a new string.
pub fn i64_text(i: i64) -> (r: String)
    ensures
        r@ == signed_dec(i as int),
{
    let mut s = String::new();
    push_i64(&mut s, i);
    assert(s@ == signed_dec(i as int));
    s
}

/// How Rust's `Debug` writes a string: in double quotes, with quotes, backslashes and
/// control characters escaped.
pub uninterp spec fn debug_text(s: Seq<char>) -> Seq<char>;

/// The string as `format!("{s:?}")` writes it.
///
/// Calls `<str as Debug>::fmt`. The contract names the result and claims only that it depends
/// on the characters of `s` alone; the escaping rules are std's and are not restated here.
#[verifier::external_body]
pub fn debug_quoted(s: &str) -> (r: String)
    ensures
        r@ == debug_text(s@),
{
    format!("{s:?}")
}

/// The message `std::str::Utf8Error` gives for bytes that are not valid UTF-8. It says where the
/// first invalid sequence starts and how long it is, which depends on the bytes alone.
pub uninterp spec fn utf8_error_text(b: Seq<u8>) -> Seq<char>;

/// The bytes as a string, when they are valid UTF-8, and otherwise the error's message.
///
/// Calls `std::str::from_utf8`, which std documents as succeeding exactly on valid UTF-8; the
/// contract states that, that the characters are the ones the bytes encode, and names the
/// message of the error without restating it.
#[verifier::external_body]
pub fn utf8_str(b: &[u8]) -> (r: Result<&str, String>)
    ensures
        r is Ok <==> valid_utf8(b@),
        r matches Ok(s) ==> s@ == decode_utf8(b@),
        r matches Err(e) ==> e@ == utf8_error_text(b@),
{
    std::str::from_utf8(b).map_err(|e| e.to_string())
}

/// Whether `c` is a digit of base 16: `0`-`9`, `a`-`f` or `A`-`F`.
pub open spec fn is_hex_digit(c: char) -> bool {
    ('0' <= c <= '9') || ('a' <= c <= 'f') || ('A' <= c <= 'F')
}

/// The value of a base-16 digit.
pub open spec fn hex_digit_value(c: char) -> nat {
    if '0' <= c <= '9' {
        (c as nat - '0' as nat) as nat
    } else if 'a' <= c <= 'f' {
        (c as nat - 'a' as nat + 10) as nat
    } else {
        (c as nat - 'A' as nat + 10) as nat
    }
}

/// The value of the base-16 digits `t[a..e]`.
pub open spec fn hex_digits_value(t: Seq<char>, a: int, e: int) -> nat
    decreases e - a,
{
    if e <= a {
        0
    } else {
        hex_digits_value(t, a, e - 1) * 16 + hex_digit_value(t[e - 1])
    }
}

/// Text that `u32::from_str_radix` reads in base 16: an optional `+`, then one or more digits.
pub open spec fn hex_number(t: Seq<char>) -> bool {
    let a: int = if t.len() > 0 && t[0] == '+' {
        1
    } else {
        0
    };
    &&& t.len() > a
    &&& forall|k: int| a <= k < t.len() ==> is_hex_digit(#[trigger] t[k])
}

/// The value of such text.
pub open spec fn hex_number_value(t: Seq<char>) -> nat {
    let a: int = if t.len() > 0 && t[0] == '+' {
        1
    } else {
        0
    };
    hex_digits_value(t, a, t.len() as int)
}

/// The message `std::num::ParseIntError` gives when `u32::from_str_radix(t, 16)` fails.
pub uninterp spec fn radix_error_text(t: Seq<char>) -> Seq<char>;

/// The text read as a base-16 `u32`.
///
/// Calls `u32::from_str_radix`, which std documents as reading an optional `+` followed by
/// digits of the radix, and failing on anything else or on a value too large for a `u32`. The
/// contract states exactly that, and names the error's message without restating it.
#[verifier::external_body]
pub fn hex_u32(t: &str) -> (r: Result<u32, String>)
    ensures
        r is Ok <==> (hex_number(t@) && hex_number_value(t@) <= u32::MAX),
        r matches Ok(v) ==> v == hex_number_value(t@),
        r matches Err(e) ==> e@ == radix_error_text(t@),
{
    u32::from_str_radix(t, 16).map_err(|e| e.to_string())
}

/// The character with code point `code`, where there is one: not a surrogate, and at most
/// U+10FFFF.
///
/// Calls `char::from_u32`, which std documents as returning `None` exactly for those codes.
#[verifier::external_body]
pub fn char_from_u32(code: u32) -> (r: Option<char>)
    ensures
        r is None <==> (0xD800 <= code <= 0xDFFF || code > 0x10FFFF),
        r matches Some(c) ==> c as u32 == code,
{
    char::from_u32(code)
}

/// The characters `String::from_utf8_lossy` makes of some bytes: valid UTF-8 decoded, and each
/// invalid sequence replaced by U+FFFD.
pub uninterp spec fn lossy_text(b: Seq<u8>) -> Seq<char>;

/// The bytes as text, with invalid UTF-8 replaced.
///
/// Calls `String::from_utf8_lossy`. The contract names the result, and states the one fact std
/// documents plainly: bytes that are valid UTF-8 come back as the characters they encode.
#[verifier::external_body]
pub fn utf8_lossy(b: &[u8]) -> (s: String)
    ensures
        s@ == lossy_text(b@),
        valid_utf8(b@) ==> s@ == decode_utf8(b@),
{
    String::from_utf8_lossy(b).into_owned()
}

} // verus!
