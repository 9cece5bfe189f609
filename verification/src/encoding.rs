//! Encodings: how values become bytes.
//!
//! This holds the one-value readers: a single PLAIN-encoded value, which is how the footer stores
//! a column's minimum and maximum, and bytes as hex.

use vstd::prelude::*;
use vstd::utf8::{decode_utf8, valid_utf8};

use crate::bytes::le_u64_value;
use crate::logical::{le_i32_at, le_i32_value, le_i64_at, le_i64_value};
use crate::metadata::PhysicalType;
use crate::text::{debug_quoted, debug_text, hex_byte, i64_text, push_char, push_hex_byte, signed_dec, utf8_str};

verus! {

/// Bytes as two-digit hexadecimal numbers separated by spaces.
pub open spec fn hex_text(b: Seq<u8>) -> Seq<char>
    decreases b.len(),
{
    if b.len() == 0 {
        Seq::empty()
    } else if b.len() == 1 {
        hex_byte(b[0])
    } else {
        hex_text(b.drop_last()) + seq![' '] + hex_byte(b.last())
    }
}

/// Bytes as hex: `00 01 ff`.
pub fn hex(bytes: &[u8]) -> (s: String)
    ensures
        s@ == hex_text(bytes@),
{
    let mut s = String::new();
    let mut i: usize = 0;
    while i < bytes.len()
        invariant
            i <= bytes@.len(),
            s@ == hex_text(bytes@.take(i as int)),
        decreases bytes@.len() - i,
    {
        if i > 0 {
            push_char(&mut s, ' ');
        }
        push_hex_byte(&mut s, bytes[i]);
        proof {
            assert(bytes@.take(i + 1).drop_last() =~= bytes@.take(i as int));
        }
        i = i + 1;
        assert(s@ =~= hex_text(bytes@.take(i as int)));
    }
    assert(bytes@.take(bytes@.len() as int) =~= bytes@);
    s
}

/// A control character, in Unicode's sense: U+0000 to U+001F, and U+007F to U+009F.
pub open spec fn is_control(c: char) -> bool {
    c <= '\u{1f}' || ('\u{7f}' <= c && c <= '\u{9f}')
}

/// Text that holds no control character.
pub open spec fn printable(s: Seq<char>) -> bool {
    forall|i: int| 0 <= i < s.len() ==> !is_control(#[trigger] s[i])
}

/// One non-floating-point value in PLAIN form, as text: a boolean, an integer, or a byte array
/// as a quoted string when it is printable text and as hex otherwise. `None` when the bytes do
/// not fit the type; floating-point types are left to the caller.
pub open spec fn scalar_text_of(physical: i64, b: Seq<u8>) -> Option<Seq<char>> {
    if physical == 0 && b.len() == 1 {
        Some(
            if b[0] != 0 {
                "true"@
            } else {
                "false"@
            },
        )
    } else if physical == 1 && b.len() == 4 {
        Some(signed_dec(le_i32_value(b)))
    } else if physical == 2 && b.len() == 8 {
        Some(signed_dec(le_i64_value(b)))
    } else if physical == 6 || physical == 7 {
        Some(
            if valid_utf8(b) && printable(decode_utf8(b)) {
                debug_text(decode_utf8(b))
            } else {
                hex_text(b)
            },
        )
    } else {
        None
    }
}

fn printable_str(s: &str) -> (r: bool)
    ensures
        r == printable(s@),
{
    let mut i: usize = 0;
    let n = s.unicode_len();
    while i < n
        invariant
            n == s@.len(),
            i <= n,
            forall|k: int| 0 <= k < i ==> !is_control(#[trigger] s@[k]),
        decreases n - i,
    {
        let c = s.get_char(i);
        if c <= '\u{1f}' || ('\u{7f}' <= c && c <= '\u{9f}') {
            return false;
        }
        i = i + 1;
    }
    true
}

/// One value in PLAIN form that is not a floating-point number, rendered for display.
///
/// PLAIN writes fixed-width numbers little-endian and in full. A statistics value for a
/// `BYTE_ARRAY` column is the bare bytes, without the four-byte length prefix a PLAIN page
/// would give it, because the Thrift field already carries a length.
pub fn scalar_text(physical: PhysicalType, bytes: &[u8]) -> (r: Option<String>)
    ensures
        match scalar_text_of(physical.0, bytes@) {
            Some(t) => r matches Some(s) && s@ == t,
            None => r is None,
        },
{
    let p = physical.0;
    let n = bytes.len();
    if p == 0 && n == 1 {
        Some(if bytes[0] != 0 { "true".to_owned() } else { "false".to_owned() })
    } else if p == 1 && n == 4 {
        assert(bytes@.subrange(0, 4) =~= bytes@);
        Some(i64_text(le_i32_at(bytes, 0) as i64))
    } else if p == 2 && n == 8 {
        assert(bytes@.subrange(0, 8) =~= bytes@);
        Some(i64_text(le_i64_at(bytes, 0)))
    } else if p == 6 || p == 7 {
        match utf8_str(bytes) {
            Ok(s) => if printable_str(s) {
                Some(debug_quoted(s))
            } else {
                Some(hex(bytes))
            },
            Err(_) => Some(hex(bytes)),
        }
    } else {
        None
    }
}

} // verus!
