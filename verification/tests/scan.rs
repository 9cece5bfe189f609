use parquet_lab::bytes::Span;
use parquet_lab::scan::coalesce;

#[test]
fn close_ranges_merge_and_distant_ones_do_not() {
    let spans = vec![Span::new(100, 200), Span::new(0, 50), Span::new(70, 90)];
    let apart = vec![Span::new(0, 50), Span::new(70, 90), Span::new(100, 200)];
    assert_eq!(coalesce(spans.clone(), Some(0)), apart);
    let near = vec![Span::new(0, 50), Span::new(70, 200)];
    assert_eq!(coalesce(spans, Some(10)), near);
    let touching = vec![Span::new(0, 10), Span::new(10, 20)];
    assert_eq!(coalesce(touching.clone(), Some(0)), vec![Span::new(0, 20)]);
    assert_eq!(coalesce(touching.clone(), None), touching);
}

#[test]
fn overlapping_ranges_merge_even_without_a_gap() {
    let spans = vec![Span::new(5, 30), Span::new(0, 10), Span::new(12, 20)];
    assert_eq!(coalesce(spans, None), vec![Span::new(0, 30)]);
    assert_eq!(coalesce(vec![Span::new(0, 5)], Some(u64::MAX)), vec![Span::new(0, 5)]);
}
