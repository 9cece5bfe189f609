use parquet_lab::bytes::Span;
use parquet_lab::format::{check_header, footer_span, parse_trailer, FormatError};

fn trailer(len: u32, magic: &[u8; 4]) -> [u8; 8] {
    let l = len.to_le_bytes();
    [l[0], l[1], l[2], l[3], magic[0], magic[1], magic[2], magic[3]]
}

#[test]
fn the_trailer_is_a_length_then_the_magic() {
    let t = parse_trailer(trailer(380, b"PAR1"), 637).unwrap();
    assert_eq!(t.footer_length, 380);
    assert_eq!(t.span, Span::new(629, 637));
    assert_eq!(t.length_span(), Span::new(629, 633));
    assert_eq!(t.magic_span(), Span::new(633, 637));
}

#[test]
fn the_footer_ends_where_the_trailer_starts() {
    assert_eq!(footer_span(637, 380).unwrap(), Span::new(249, 629));
}

#[test]
fn a_footer_may_fill_everything_after_the_opening_magic_and_no_more() {
    assert_eq!(footer_span(100, 88).unwrap(), Span::new(4, 92));
    assert_eq!(
        footer_span(100, 89),
        Err(FormatError::FooterLengthTooLarge { footer_length: 89, available: 88 })
    );
}

#[test]
fn wrong_magic_is_reported_with_its_position() {
    let err = parse_trailer(trailer(10, b"PAR2"), 64).unwrap_err();
    assert_eq!(err, FormatError::BadMagic { found: *b"PAR2", span: Span::new(60, 64) });
}

#[test]
fn an_encrypted_footer_is_recognised_rather_than_misread() {
    assert_eq!(parse_trailer(trailer(10, b"PARE"), 64), Err(FormatError::EncryptedFooter));
}

#[test]
fn a_file_shorter_than_its_fixed_parts_is_refused() {
    assert_eq!(
        parse_trailer(trailer(0, b"PAR1"), 11),
        Err(FormatError::TooShort { file_size: 11 })
    );
    assert!(parse_trailer(trailer(0, b"PAR1"), 12).is_ok());
}

#[test]
fn the_opening_magic_is_checked() {
    assert_eq!(check_header(*b"PAR1"), Ok(Span::new(0, 4)));
    assert_eq!(
        check_header(*b"PAR0"),
        Err(FormatError::BadMagic { found: *b"PAR0", span: Span::new(0, 4) })
    );
    assert_eq!(footer_span(11, 0), Err(FormatError::TooShort { file_size: 11 }));
    let t = parse_trailer(trailer(380, b"PAR1"), 637).unwrap();
    assert_eq!(t.length_terms(), vec![(0x7c, 1), (0x01, 256), (0, 65536), (0, 16777216)]);
}
