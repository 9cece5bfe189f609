use parquet_lab::bytes::Span;
use parquet_lab::object_store::{GetRange, MemoryStore, Method, NetworkModel, ObjectStore, StoreError, TracingStore};

fn store() -> MemoryStore {
    let mut s = MemoryStore::new();
    s.put("data.parquet", (0u8..100).collect());
    s
}

#[test]
fn a_bounded_range_returns_exactly_those_bytes() {
    let r = store().get("data.parquet", GetRange::Bounded(Span::new(10, 14)), "").unwrap();
    assert_eq!(r.bytes, [10, 11, 12, 13]);
    assert_eq!(r.span, Span::new(10, 14));
    assert_eq!(r.object_size, 100);
}

#[test]
fn a_range_past_the_end_is_cut_short_not_refused() {
    let r = store().get("data.parquet", GetRange::Bounded(Span::new(95, 200)), "").unwrap();
    assert_eq!(r.span, Span::new(95, 100));
}

#[test]
fn a_range_starting_past_the_end_is_416() {
    let e = store().get("data.parquet", GetRange::Bounded(Span::new(100, 101)), "").unwrap_err();
    assert!(matches!(e, StoreError::RangeNotSatisfiable { size: 100, .. }));
}

#[test]
fn a_suffix_range_needs_no_size_and_reports_it() {
    let r = store().get("data.parquet", GetRange::Suffix(8), "").unwrap();
    assert_eq!(r.span, Span::new(92, 100));
    assert_eq!(r.object_size, 100);
    let whole = store().get("data.parquet", GetRange::Suffix(1000), "").unwrap();
    assert_eq!(whole.span, Span::new(0, 100));
}

#[test]
fn the_trace_records_every_request_and_its_cost() {
    let model = NetworkModel { latency_us: 1000, bandwidth_bytes_per_sec: 1_000_000 };
    let mut t = TracingStore::new(store(), model);
    t.head("data.parquet", "size").unwrap();
    t.get("data.parquet", GetRange::Suffix(8), "tail").unwrap();
    let _ = t.get("missing", GetRange::Suffix(8), "oops");
    assert_eq!(t.requests.len(), 3);
    assert_eq!(t.requests[0].method, Method::Head);
    assert_eq!(t.requests[1].range.as_deref(), Some("bytes=-8"));
    assert_eq!(t.requests[1].returned, Some(Span::new(92, 100)));
    assert_eq!(t.requests[2].status, 404);
    assert_eq!(t.requests[1].start_us, 1000);
    assert_eq!(t.requests[1].end_us, 2008);
    assert_eq!(t.elapsed_us(), 3008);
    assert_eq!(t.bytes_returned(), 8);
}

#[test]
fn unlimited_bandwidth_costs_only_latency() {
    let m = NetworkModel { latency_us: 5, bandwidth_bytes_per_sec: 0 };
    assert_eq!(m.cost_us(1 << 30), 5);
}

#[test]
fn putting_a_key_again_replaces_its_object() {
    let mut s = store();
    s.put("data.parquet", vec![7, 8, 9]);
    s.put("other", vec![1]);
    assert_eq!(s.head("data.parquet", "").unwrap(), 3);
    assert_eq!(s.head("other", "").unwrap(), 1);
    assert!(matches!(s.head("nope", ""), Err(StoreError::NotFound { .. })));
    // An empty range inside the object is served as an empty one.
    let g = s.get("data.parquet", GetRange::Bounded(Span::new(1, 1)), "").unwrap();
    assert!(g.bytes.is_empty());
    assert_eq!(g.span, Span::new(1, 1));
    assert_eq!(g.object_size, 3);
}

#[test]
fn costs_round_up_and_the_default_is_a_slow_start() {
    let m = NetworkModel { latency_us: 10, bandwidth_bytes_per_sec: 3 };
    assert_eq!(m.cost_us(1), 10 + 333_334);
    let d = NetworkModel::default();
    assert_eq!((d.latency_us, d.bandwidth_bytes_per_sec), (20_000, 100_000_000));
    assert_eq!(Method::Get.name(), "GET");
    assert_eq!(GetRange::Bounded(Span::new(0, 10)).header(), "bytes=0-9");
}

#[test]
fn an_empty_range_inside_the_object_is_served_empty() {
    let r = store().get("data.parquet", GetRange::Bounded(Span::new(0, 0)), "").unwrap();
    assert!(r.bytes.is_empty());
    assert_eq!(r.span, Span::new(0, 0));
    assert_eq!(r.object_size, 100);
    let r = store().get("data.parquet", GetRange::Bounded(Span::new(40, 40)), "").unwrap();
    assert!(r.bytes.is_empty());
    assert_eq!(r.span, Span::new(40, 40));
}
