use parquet_lab::bytes::Span;
use parquet_lab::compress::{decompress, gzip, inflate, lz4_raw, snappy, supported, TokenKind};

#[test]
fn snappy_literal_then_overlapping_copy() {
    // Output "abababab": length 8, a two-byte literal, then a copy of six bytes from two
    // back, which overlaps the bytes it writes.
    let input = [8, 0b0000_0100, b'a', b'b', 0b0000_1001, 2];
    let d = snappy(&input, 100).unwrap();
    assert_eq!(d.bytes, b"abababab");
    assert_eq!(d.tokens[2].kind, TokenKind::Copy { distance: 2 });
    assert_eq!(d.tokens[2].input, Span::new(104, 106));
}

#[test]
fn lz4_sequence_and_last_literals() {
    // "abcabcabcX": three literals then a match of six from three back, then one literal.
    let input = [0x32, b'a', b'b', b'c', 3, 0, 0x10, b'X'];
    let d = lz4_raw(&input, 0, 10).unwrap();
    assert_eq!(d.bytes, b"abcabcabcX");
}

#[test]
fn snappy_tokens_describe_each_element() {
    let input = [8, 0b0000_0100, b'a', b'b', 0b0000_1001, 2];
    let d = snappy(&input, 100).unwrap();
    assert_eq!(d.tokens.len(), 3);
    assert_eq!(d.tokens[0].kind, TokenKind::Header);
    assert_eq!(d.tokens[0].detail, "varint: the output is 8 bytes");
    assert_eq!(d.tokens[0].input, Span::new(100, 101));
    assert_eq!(d.tokens[1].detail, "tag 04: a literal, the next 2 bytes");
    assert_eq!(d.tokens[1].output, Span::new(0, 2));
    assert_eq!(d.tokens[2].detail, "tag 09: copy 6 bytes from 2 back");
    assert_eq!(d.tokens[2].output, Span::new(2, 8));
}

#[test]
fn snappy_checks_the_promised_length() {
    let input = [9, 0b0000_0100, b'a', b'b', 0b0000_1001, 2];
    let e = snappy(&input, 0).unwrap_err();
    assert_eq!(e, "Snappy promised 9 bytes and its elements wrote 8");
}

#[test]
fn snappy_copy_past_the_start_is_refused() {
    let input = [4, 0b0000_0000, b'a', 0b0000_0001, 5];
    let e = snappy(&input, 0).unwrap_err();
    assert_eq!(e, "a copy reaches 5 bytes back, and only 1 bytes have been written");
}

#[test]
fn snappy_literal_past_the_end() {
    let input = [4, 0b0000_1100, b'a'];
    let e = snappy(&input, 0).unwrap_err();
    assert_eq!(e, "a literal runs past the end of the compressed bytes");
}

#[test]
fn snappy_empty_input_ends_mid_token() {
    let e = snappy(&[], 0).unwrap_err();
    assert_eq!(e, "the compressed bytes end at offset 0, mid-token");
}

#[test]
fn lz4_tokens_and_long_lengths() {
    // Literal length 15 + 1 = 16 bytes of 'x', and nothing after them.
    let mut input = vec![0xf0, 1];
    input.extend_from_slice(&[b'x'; 16]);
    let d = lz4_raw(&input, 0, 16).unwrap();
    assert_eq!(d.bytes, vec![b'x'; 16]);
    assert_eq!(d.tokens.len(), 1);
    assert_eq!(d.tokens[0].detail, "token f0: a literal, the next 16 bytes");
    let input = [0x32, b'a', b'b', b'c', 3, 0, 0x10, b'X'];
    let d = lz4_raw(&input, 0, 10).unwrap();
    assert_eq!(d.tokens[1].kind, TokenKind::Copy { distance: 3 });
    assert_eq!(d.tokens[1].detail, "copy 6 bytes from 3 back");
    assert_eq!(d.tokens[1].input, Span::new(4, 6));
    assert_eq!(d.tokens[2].detail, "token 10: a literal, the next 1 byte");
}

#[test]
fn inflate_stored_and_fixed_blocks() {
    // A stored final block holding "hi".
    let stored = [0x01, 0x02, 0x00, 0xfd, 0xff, b'h', b'i'];
    assert_eq!(inflate(&stored, 0, &mut vec![]).unwrap().0, b"hi");
    // zlib's fixed-code encoding of "aaaaaaaaaa": a literal and a copy of nine from one back.
    let fixed = [0x4b, 0x4c, 0x84, 0x01, 0x00];
    assert_eq!(inflate(&fixed, 0, &mut vec![]).unwrap().0, b"aaaaaaaaaa");
}

#[test]
fn unsupported_codecs_say_so() {
    let e = decompress("ZSTD", &[], 0, 0).unwrap_err();
    assert!(e.contains("does not decompress ZSTD"), "{e}");
}

#[test]
fn inflate_tokens_and_bytes_used() {
    let fixed = [0x4b, 0x4c, 0x84, 0x01, 0x00];
    let mut tokens = Vec::new();
    let (out, used) = inflate(&fixed, 50, &mut tokens).unwrap();
    assert_eq!(out.len(), 10);
    assert_eq!(used, 5);
    assert_eq!(tokens[0].kind, TokenKind::Header);
    assert_eq!(tokens[0].detail, "a compressed block with fixed Huffman codes, the last");
    // Two literals, which make one token, then a copy of the last byte eight times.
    assert_eq!(tokens[1].detail, "2 bytes, each its own Huffman code");
    assert_eq!(tokens[1].output, Span::new(0, 2));
    assert_eq!(tokens[2].kind, TokenKind::Copy { distance: 1 });
    assert_eq!(tokens[2].detail, "copy 8 bytes from 1 back");
    assert_eq!(tokens.len(), 3);
    let stored = [0x01, 0x02, 0x00, 0xfd, 0xff, b'h', b'i'];
    let mut tokens = Vec::new();
    inflate(&stored, 0, &mut tokens).unwrap();
    assert_eq!(tokens[0].detail, "2 bytes, not compressed, the last");
    assert_eq!(tokens[0].input, Span::new(0, 7));
}

#[test]
fn inflate_errors() {
    assert_eq!(
        inflate(&[0x07], 0, &mut vec![]).unwrap_err(),
        "block type 3 is reserved"
    );
    assert_eq!(
        inflate(&[0x01, 0x02, 0x00, 0xfd, 0xfe], 0, &mut vec![]).unwrap_err(),
        "a stored block's length and its complement disagree"
    );
    assert_eq!(
        inflate(&[0x01, 0x02, 0x00, 0xfd, 0xff, b'h'], 0, &mut vec![]).unwrap_err(),
        "a stored block runs past the end"
    );
    assert_eq!(
        inflate(&[], 0, &mut vec![]).unwrap_err(),
        "the compressed bytes end at offset 0, mid-token"
    );
}

#[test]
fn gzip_checks_its_trailer() {
    let member = [
        31, 139, 8, 0, 0, 0, 0, 0, 2, 3, 75, 76, 132, 1, 0, 240, 205, 17, 76, 10, 0, 0, 0,
    ];
    let d = gzip(&member, 0).unwrap();
    assert_eq!(d.bytes, b"aaaaaaaaaa");
    assert_eq!(d.tokens[0].label, "gzip header");
    assert_eq!(d.tokens[0].input, Span::new(0, 10));
    let last = d.tokens.last().unwrap();
    assert_eq!(last.detail, "CRC-32 4c11cdf0 (matches), length 10");
    assert_eq!(last.input, Span::new(15, 23));
    let mut bad = member;
    bad[15] = 0;
    let e = gzip(&bad, 0).unwrap_err();
    assert_eq!(
        e,
        "the gzip trailer does not match the output: CRC-32 4c11cd00 against 4c11cdf0"
    );
    assert_eq!(
        gzip(&[0; 18], 0).unwrap_err(),
        "not a gzip member: it should start 1f 8b 08"
    );
}

#[test]
fn decompress_checks_the_size() {
    let d = decompress("UNCOMPRESSED", b"abc", 7, 3).unwrap();
    assert_eq!(d.bytes, b"abc");
    assert_eq!(d.tokens[0].input, Span::new(7, 10));
    assert!(supported("GZIP"));
    assert!(!supported("ZSTD"));
    let e = decompress("UNCOMPRESSED", b"abc", 0, 4).unwrap_err();
    assert_eq!(e, "UNCOMPRESSED: the page header says 4 bytes, and decompressing gave 3");
    let e = decompress("ZSTD", &[], 0, 0).unwrap_err();
    assert_eq!(
        e,
        "this reader does not decompress ZSTD; it reads ZSTD files' sizes from the footer, but not their pages"
    );
}
