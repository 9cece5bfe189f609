//! The fixed parts of a Parquet file: the magic bytes at each end, and the trailer.
//!
//! ```text
//! │ PAR1 │ row groups (the data) │ footer (FileMetaData) │ footer len, u32 LE │ PAR1 │
//!                                                         └────── trailer: 8 ───────┘
//! ```
//!
//! A reader starts at the end: the last eight bytes are the only part of the file whose
//! position is known before reading anything, and they say how to find the footer.

use vstd::prelude::*;

use crate::bytes::{byte_weight, le_terms, le_u32_value, push_span, read_le_u32, span_text, Span};
use crate::text::{dec, hex_byte, push_hex_byte, push_u64};

verus! {

/// The four ASCII bytes `PAR1` that open and close every unencrypted Parquet file.
pub const MAGIC: [u8; 4] = [0x50, 0x41, 0x52, 0x31];

/// The closing magic `PARE` of a file whose footer is encrypted. Recognised, not read.
pub const MAGIC_ENCRYPTED_FOOTER: [u8; 4] = [0x50, 0x41, 0x52, 0x45];

/// The trailer: a four-byte footer length followed by the four-byte magic.
pub const TRAILER_LEN: u64 = 8;

/// The smallest file that can be valid: opening magic plus trailer, with an empty footer.
pub const MIN_FILE_LEN: u64 = 12;

/// Why a file could not be located, before any metadata was parsed.
#[derive(Clone, Debug, PartialEq, Eq)]
pub enum FormatError {
    TooShort { file_size: u64 },
    BadMagic { found: [u8; 4], span: Span },
    EncryptedFooter,
    FooterLengthTooLarge { footer_length: u32, available: u64 },
}

/// What a format error says.
pub open spec fn format_error_text(e: FormatError) -> Seq<char> {
    match e {
        FormatError::TooShort { file_size } => "a "@ + dec(file_size as nat)
            + "-byte file cannot be Parquet: the magic and trailer alone take "@ + dec(
            MIN_FILE_LEN as nat,
        ),
        FormatError::BadMagic { found, span } => "expected PAR1 at "@ + span_text(span)
            + ", found "@ + hex_byte(found@[0]) + " "@ + hex_byte(found@[1]) + " "@ + hex_byte(
            found@[2],
        ) + " "@ + hex_byte(found@[3]),
        FormatError::EncryptedFooter =>
            "this file ends in PARE: its footer is encrypted, and without the footer key a reader can see only its crypto metadata (ch13)"@,
        FormatError::FooterLengthTooLarge { footer_length, available } =>
            "the trailer claims a "@ + dec(footer_length as nat)
            + "-byte footer, but only "@ + dec(available as nat)
            + " bytes lie between the opening magic and the trailer"@,
    }
}

impl FormatError {
    /// The error as a sentence.
    pub fn message(&self) -> (s: String)
        ensures
            s@ == format_error_text(*self),
    {
        match self {
            FormatError::TooShort { file_size } => {
                let mut s = "a ".to_owned();
                push_u64(&mut s, *file_size);
                s.append("-byte file cannot be Parquet: the magic and trailer alone take ");
                push_u64(&mut s, MIN_FILE_LEN);
                s
            },
            FormatError::BadMagic { found, span } => {
                let mut s = "expected PAR1 at ".to_owned();
                push_span(&mut s, *span);
                s.append(", found ");
                push_hex_byte(&mut s, found[0]);
                s.append(" ");
                push_hex_byte(&mut s, found[1]);
                s.append(" ");
                push_hex_byte(&mut s, found[2]);
                s.append(" ");
                push_hex_byte(&mut s, found[3]);
                s
            },
            FormatError::EncryptedFooter => "this file ends in PARE: its footer is encrypted, and without the footer key a reader can see only its crypto metadata (ch13)".to_owned(),
            FormatError::FooterLengthTooLarge { footer_length, available } => {
                let mut s = "the trailer claims a ".to_owned();
                push_u64(&mut s, *footer_length as u64);
                s.append("-byte footer, but only ");
                push_u64(&mut s, *available);
                s.append(" bytes lie between the opening magic and the trailer");
                s
            },
        }
    }
}

/// Whether four bytes are `PAR1`.
pub open spec fn is_magic(b: Seq<u8>) -> bool {
    b =~= seq![0x50u8, 0x41u8, 0x52u8, 0x31u8]
}

/// Whether four bytes are `PARE`.
pub open spec fn is_encrypted_magic(b: Seq<u8>) -> bool {
    b =~= seq![0x50u8, 0x41u8, 0x52u8, 0x45u8]
}

fn same4(a: [u8; 4], b: [u8; 4]) -> (r: bool)
    ensures
        r == (a@ =~= b@),
{
    let r = a[0] == b[0] && a[1] == b[1] && a[2] == b[2] && a[3] == b[3];
    proof {
        if r {
            assert(a@ =~= b@);
        }
    }
    r
}

/// The last eight bytes of a file, decoded.
#[derive(Clone, Debug, PartialEq, Eq)]
pub struct Trailer {
    /// The eight raw bytes, as read.
    pub bytes: [u8; 8],
    /// Where they sit in the file: always the last eight bytes.
    pub span: Span,
    /// The first four bytes, read as a little-endian `u32`.
    pub footer_length: u32,
    /// The last four bytes.
    pub magic: [u8; 4],
}

impl Trailer {
    /// The span of the footer-length field alone.
    pub fn length_span(&self) -> (s: Span)
        requires
            self.span.start + 4 <= u64::MAX,
        ensures
            s == (Span { start: self.span.start, end: (self.span.start + 4) as u64 }),
    {
        Span::new(self.span.start, self.span.start + 4)
    }

    /// The span of the closing magic alone.
    pub fn magic_span(&self) -> (s: Span)
        requires
            self.span.start + 4 <= self.span.end,
        ensures
            s == (Span { start: (self.span.start + 4) as u64, end: self.span.end }),
    {
        Span::new(self.span.start + 4, self.span.end)
    }

    /// The footer-length bytes with the weight of each, for showing the arithmetic.
    pub fn length_terms(&self) -> (terms: Vec<(u8, u64)>)
        ensures
            terms@.len() == 4,
            forall|i: int|
                0 <= i < 4 ==> #[trigger] terms@[i] == (self.bytes@[i], byte_weight(i as nat) as u64),
    {
        let v = vec![self.bytes[0], self.bytes[1], self.bytes[2], self.bytes[3]];
        le_terms(v.as_slice())
    }
}

/// What `parse_trailer` makes of the last eight bytes of a file of `file_size` bytes.
pub open spec fn trailer_outcome(last8: [u8; 8], file_size: u64) -> Result<Trailer, FormatError> {
    let magic = last8@.subrange(4, 8);
    if file_size < 12 {
        Err(FormatError::TooShort { file_size })
    } else if is_encrypted_magic(magic) {
        Err(FormatError::EncryptedFooter)
    } else if !is_magic(magic) {
        Err(
            FormatError::BadMagic {
                found: [last8[4], last8[5], last8[6], last8[7]],
                span: Span { start: (file_size - 4) as u64, end: file_size },
            },
        )
    } else {
        Ok(
            Trailer {
                bytes: last8,
                span: Span { start: (file_size - 8) as u64, end: file_size },
                footer_length: le_u32_value(last8@) as u32,
                magic: [last8[4], last8[5], last8[6], last8[7]],
            },
        )
    }
}

/// Decode the trailer of a file of `file_size` bytes from its last eight bytes.
pub fn parse_trailer(last8: [u8; 8], file_size: u64) -> (r: Result<Trailer, FormatError>)
    ensures
        r == trailer_outcome(last8, file_size),
{
    if file_size < MIN_FILE_LEN {
        return Err(FormatError::TooShort { file_size });
    }
    let span = Span::new(file_size - TRAILER_LEN, file_size);
    let magic = [last8[4], last8[5], last8[6], last8[7]];
    proof {
        assert(magic@ =~= last8@.subrange(4, 8));
    }
    if same4(magic, MAGIC_ENCRYPTED_FOOTER) {
        return Err(FormatError::EncryptedFooter);
    }
    if !same4(magic, MAGIC) {
        return Err(FormatError::BadMagic { found: magic, span: Span::new(span.start + 4, span.end) });
    }
    let footer_length = read_le_u32([last8[0], last8[1], last8[2], last8[3]]);
    let t = Trailer { bytes: last8, span, footer_length, magic };
    Ok(t)
}

/// Where the footer lies in a file of `file_size` bytes whose trailer gives `footer_length`.
pub open spec fn footer_span_outcome(file_size: u64, footer_length: u32) -> Result<Span, FormatError> {
    if file_size < 12 {
        Err(FormatError::TooShort { file_size })
    } else if footer_length > file_size - 12 {
        Err(
            FormatError::FooterLengthTooLarge {
                footer_length,
                available: (file_size - 12) as u64,
            },
        )
    } else {
        Ok(Span { start: (file_size - 8 - footer_length) as u64, end: (file_size - 8) as u64 })
    }
}

/// Where the footer is: the `footer_length` bytes that end where the trailer begins.
///
/// The footer cannot overlap the opening magic, so a length that would put its start before
/// byte 4 means the trailer is lying, and the reader stops rather than trusting it.
pub fn footer_span(file_size: u64, footer_length: u32) -> (r: Result<Span, FormatError>)
    ensures
        r == footer_span_outcome(file_size, footer_length),
        r matches Ok(s) ==> 4 <= s.start <= s.end && s.end + 8 == file_size && s.end - s.start
            == footer_length,
{
    if file_size < MIN_FILE_LEN {
        return Err(FormatError::TooShort { file_size });
    }
    let footer_end = file_size - TRAILER_LEN;
    let available = footer_end - 4;
    if footer_length as u64 > available {
        return Err(FormatError::FooterLengthTooLarge { footer_length, available });
    }
    Ok(Span::new(footer_end - footer_length as u64, footer_end))
}

/// Check the opening magic: the first four bytes of the file.
pub fn check_header(first4: [u8; 4]) -> (r: Result<Span, FormatError>)
    ensures
        is_magic(first4@) ==> r == Ok::<Span, FormatError>(Span { start: 0, end: 4 }),
        !is_magic(first4@) ==> r == Err::<Span, FormatError>(
            FormatError::BadMagic { found: first4, span: Span { start: 0, end: 4 } },
        ),
{
    let span = Span::new(0, 4);
    if same4(first4, MAGIC) {
        Ok(span)
    } else {
        Err(FormatError::BadMagic { found: first4, span })
    }
}

} // verus!
