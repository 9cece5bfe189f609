use parquet_lab::bytes::Span;
use parquet_lab::object_store::{MemoryStore, NetworkModel, TracingStore};
use parquet_lab::reader::{read_footer, FooterOptions, ReadError, SizeSource};

/// A footer of version 1 with a schema of one root named `m`, no rows and no row groups.
fn footer() -> Vec<u8> {
    vec![
        0x15, 0x02, 0x19, 0x1C, 0x48, 0x01, b'm', 0x00, 0x16, 0x00, 0x19, 0x0C, 0x00,
    ]
}

fn store_holding(footer: &[u8]) -> TracingStore<MemoryStore> {
    let mut f = b"PAR1".to_vec();
    f.extend_from_slice(footer);
    f.extend_from_slice(&(footer.len() as u32).to_le_bytes());
    f.extend_from_slice(b"PAR1");
    let mut store = MemoryStore::new();
    store.put("f", f);
    TracingStore::new(store, NetworkModel { latency_us: 1_000, bandwidth_bytes_per_sec: 0 })
}

#[test]
fn the_literal_procedure_asks_for_the_size_the_trailer_and_the_footer() {
    let mut s = store_holding(&footer());
    let read = read_footer(&mut s, "f", FooterOptions::default()).unwrap();
    assert_eq!(s.requests.len(), 3);
    assert_eq!(read.file_size, 25);
    assert_eq!(read.tail, Span { start: 17, end: 25 });
    assert_eq!(read.footer, Span { start: 4, end: 17 });
    assert!(!read.footer_was_prefetched);
    assert_eq!(read.footer_bytes, footer());
    assert_eq!(read.metadata.version, 1);
    assert_eq!(s.elapsed_us(), 3_000);
}

#[test]
fn a_suffix_range_that_reaches_the_footer_is_the_only_request() {
    let mut s = store_holding(&footer());
    let options = FooterOptions { size: SizeSource::SuffixRange, prefetch: 64 };
    let read = read_footer(&mut s, "f", options).unwrap();
    assert_eq!(s.requests.len(), 1);
    assert_eq!(read.tail, Span { start: 0, end: 25 });
    assert!(read.footer_was_prefetched);
    assert_eq!(read.footer_bytes, footer());
}

#[test]
fn a_known_size_skips_the_head_request() {
    let mut s = store_holding(&footer());
    let options = FooterOptions { size: SizeSource::Known(25), prefetch: 10 };
    let read = read_footer(&mut s, "f", options).unwrap();
    // The tail of ten bytes misses the footer's first eleven: one more request fetches them.
    assert_eq!(s.requests.len(), 2);
    assert_eq!(read.tail, Span { start: 15, end: 25 });
    assert_eq!(read.footer_bytes, footer());
}

#[test]
fn a_missing_object_is_a_store_error() {
    let mut s = store_holding(&footer());
    let err = read_footer(&mut s, "g", FooterOptions::default()).unwrap_err();
    assert!(matches!(err, ReadError::Store(_)));
    assert_eq!(err.message(), "404: no object named g");
}
