use parquet_lab::bytes::{ByteReader, Span};
use parquet_lab::crypto::{chunk_modules, read_module};

#[test]
fn a_module_is_its_length_then_nonce_ciphertext_and_tag() {
    let mut bytes = (40u32).to_le_bytes().to_vec();
    bytes.extend([7u8; 40]);
    let m = read_module(&mut ByteReader::new(&bytes, 100)).unwrap();
    assert_eq!(m.span, Span::new(100, 144));
    assert_eq!(m.nonce, Span::new(104, 116));
    assert_eq!(m.ciphertext, Span::new(116, 128));
    assert_eq!(m.tag, Span::new(128, 144));
    let short = (20u32).to_le_bytes();
    assert!(read_module(&mut ByteReader::new(&short, 0)).is_err());
}

#[test]
fn a_chunk_is_modules_back_to_back() {
    let mut file = vec![0u8; 10];
    for _ in 0..2 {
        file.extend((28u32).to_le_bytes());
        file.extend([1u8; 28]);
    }
    let ms = chunk_modules(&file, Span::new(10, 74)).unwrap();
    assert_eq!(ms.len(), 2);
    assert_eq!(ms[1].span, Span::new(42, 74));
    assert_eq!(ms[1].ciphertext, Span::new(58, 58));
    assert_eq!(
        chunk_modules(&file, Span::new(10, 100)).unwrap_err(),
        "column chunk [10, 100) is past the end of the file"
    );
    assert_eq!(
        read_module(&mut ByteReader::new(&(20u32).to_le_bytes(), 0)).unwrap_err(),
        "a module at offset 0 claims 20 bytes, fewer than a nonce and a tag"
    );
    assert_eq!(
        chunk_modules(&file, Span::new(10, 50)).unwrap_err(),
        "needed 28 more byte(s) at offset 46, but the data ends"
    );
}
