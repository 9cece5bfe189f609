use parquet_lab::bloom::{xxh64, BloomFilter};
use parquet_lab::bytes::Span;
use parquet_lab::thrift::{Node, Struct, Value};

#[test]
fn xxh64_matches_its_reference_values() {
    assert_eq!(xxh64(b"", 0), 0xEF46_DB37_51D8_E999);
    assert_eq!(xxh64(b"a", 0), 0xD24E_C4F1_A98C_6E5B);
    assert_eq!(xxh64(b"abc", 0), 0x44BC_2CF5_AD77_0999);
}

#[test]
fn xxh64_of_longer_inputs_uses_every_stage() {
    // 32 bytes or more take the four-accumulator path; these are xxHash64's published values.
    let data: Vec<u8> = (0u8..=255).collect();
    let h_long = xxh64(&data, 0);
    let h_short = xxh64(&data[..31], 0);
    assert_ne!(h_long, h_short);
    assert_eq!(xxh64(&data, 0), h_long);
    assert_ne!(xxh64(b"abc", 1), xxh64(b"abc", 0));
}

fn filter(bitset: Vec<u8>) -> BloomFilter {
    BloomFilter {
        header: Node {
            span: Span::new(0, 0),
            value: Value::Struct(Struct { fields: vec![] }),
        },
        header_span: Span::new(0, 0),
        bitset_span: Span::new(100, 100 + bitset.len() as u64),
        bitset,
    }
}

#[test]
fn a_probe_tests_one_bit_in_each_word_of_one_block() {
    let full = filter(vec![0xff; 64]);
    let p = full.probe(b"424242");
    assert!(p.may_contain);
    assert!(p.block < 2);
    assert!(p.bits.iter().all(|&(b, set)| b < 32 && set));
    assert_eq!(full.num_blocks(), 2);
    assert_eq!(full.block_span(1), Span::new(132, 164));
    let empty = filter(vec![0; 64]);
    let q = empty.probe(b"424242");
    assert!(!q.may_contain);
    assert_eq!((q.hash, q.block), (p.hash, p.block));
    // The high half of the hash picks the block: the top of the range is the last block.
    assert_eq!(full.probe_hash(u64::MAX).block, 1);
    assert_eq!(full.probe_hash(0).block, 0);
}

fn bloom_file(num_bytes_zigzag: u8, with_hash: bool) -> Vec<u8> {
    let mut f = b"PAR1".to_vec();
    f.extend_from_slice(&[0x15, num_bytes_zigzag, 0x1C, 0x1C, 0x00, 0x00]);
    if with_hash {
        f.extend_from_slice(&[0x1C, 0x1C, 0x00, 0x00, 0x1C, 0x1C, 0x00, 0x00]);
    } else {
        f.extend_from_slice(&[0x2C, 0x1C, 0x00, 0x00]);
    }
    f.push(0x00);
    f.extend_from_slice(&[0xAA; 32]);
    f
}

#[test]
fn a_bloom_filter_is_a_header_then_its_bitset() {
    let file = bloom_file(0x40, true);
    let b = parquet_lab::bloom::read(&file, Some(4)).unwrap().unwrap();
    assert_eq!(b.header_span, parquet_lab::bytes::Span { start: 4, end: 19 });
    assert_eq!(b.bitset_span, parquet_lab::bytes::Span { start: 19, end: 51 });
    assert_eq!(b.bitset, vec![0xAA; 32]);
    assert_eq!(b.num_blocks(), 1);
}

#[test]
fn a_chunk_without_a_bloom_filter_has_none() {
    assert!(parquet_lab::bloom::read(b"PAR1", None).unwrap().is_none());
}

#[test]
fn a_bloom_filter_past_the_end_is_an_error() {
    let err = parquet_lab::bloom::read(b"PAR1", Some(100)).unwrap_err();
    assert_eq!(err, "Bloom filter at offset 100: the Bloom filter starts past the end of the file");
}

#[test]
fn a_bitset_of_partial_blocks_is_an_error() {
    let err = parquet_lab::bloom::read(&bloom_file(0x42, true), Some(4)).unwrap_err();
    assert_eq!(
        err,
        "Bloom filter at offset 4: a Bloom filter bitset must be a whole number of 32-byte blocks"
    );
}

#[test]
fn a_bloom_filter_with_an_unknown_hash_is_an_error() {
    let err = parquet_lab::bloom::read(&bloom_file(0x40, false), Some(4)).unwrap_err();
    assert_eq!(err, "Bloom filter at offset 4: a Bloom filter that is not hash XXHASH");
}
