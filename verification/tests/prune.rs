use std::cmp::Ordering;

use parquet_lab::bytes::Span;
use parquet_lab::metadata::PhysicalType;
use parquet_lab::prune::{
    against_bounds, merge, overlaps, ColumnRead, Op, Plan, Predicate, RowGroupPlan,
};
use parquet_lab::schema::{Leaf, Repetition};
use parquet_lab::stats::Comparator;

#[test]
fn ranges_merge_when_they_touch() {
    assert_eq!(merge(vec![(40, 80), (0, 40), (120, 160)]), vec![(0, 80), (120, 160)]);
}

#[test]
fn overlapping_and_nested_ranges_merge_too() {
    assert_eq!(merge(vec![(10, 20), (0, 50), (45, 60), (70, 71)]), vec![(0, 60), (70, 71)]);
    assert!(merge(vec![]).is_empty());
    assert!(overlaps((0, 10), (9, 20)));
    assert!(!overlaps((0, 10), (10, 20)));
}

fn leaf(physical: i64) -> Leaf {
    Leaf {
        column: 3,
        path: vec!["x".to_string()],
        repetitions: vec![Repetition::Optional],
        max_definition_level: 1,
        max_repetition_level: 0,
        element: 1,
        physical_type: PhysicalType(physical),
        type_length: None,
        logical_type: None,
    }
}

#[test]
fn conditions_parse_their_operator_and_value() {
    assert_eq!(Op::parse(">="), Ok(Op::GtEq));
    assert_eq!(Op::parse("~"), Err("unknown comparison \"~\"".to_string()));
    assert_eq!(Op::IsNotNull.symbol(), "is not null");
    let p = Predicate::new(&leaf(1), None, Op::Eq, " 431 ").unwrap();
    assert_eq!(p.column, 3);
    assert_eq!(p.value, Some(431i32.to_le_bytes().to_vec()));
    assert_eq!(p.comparator, Comparator::I32);
    let neg = Predicate::new(&leaf(2), None, Op::Lt, "-7").unwrap();
    assert_eq!(neg.value, Some((-7i64).to_le_bytes().to_vec()));
    assert_eq!(
        Predicate::new(&leaf(1), None, Op::Eq, "4294967296").unwrap_err(),
        "\"4294967296\" is not a value of this column"
    );
    assert!(Predicate::new(&leaf(1), Some("UINT_32"), Op::Eq, "-1").is_err());
    let s = Predicate::new(&leaf(6), None, Op::Eq, "\"UK\"").unwrap();
    assert_eq!(s.value, Some(b"UK".to_vec()));
    assert_eq!(Predicate::new(&leaf(6), None, Op::IsNull, "").unwrap().value, None);
    assert!(Op::Lt.satisfied_by(Some(Ordering::Less)));
    assert!(!Op::Lt.satisfied_by(None));
}

#[test]
fn bounds_decide_what_to_skip() {
    let p = Predicate::new(&leaf(1), None, Op::Eq, "50").unwrap();
    let lo = 100i32.to_le_bytes();
    let hi = 200i32.to_le_bytes();
    let d = against_bounds(&p, Some((&lo, &hi)), Some(0), 10);
    assert!(d.skip);
    assert_eq!(d.why, "the value is below the minimum");
    let gt = Predicate::new(&leaf(1), None, Op::Gt, "150").unwrap();
    assert!(!against_bounds(&gt, Some((&lo, &hi)), None, 10).skip);
    assert_eq!(against_bounds(&gt, None, None, 10).why, "no usable minimum and maximum");
    assert!(against_bounds(&gt, Some((&lo, &hi)), Some(10), 10).skip);
    let null = Predicate::new(&leaf(1), None, Op::IsNull, "").unwrap();
    assert_eq!(against_bounds(&null, None, Some(0), 10).why, "the null count is zero");
    assert!(p.row_matches(Some(&50i32.to_le_bytes())));
    assert!(!p.row_matches(None));
    assert!(null.row_matches(None));
}

#[test]
fn a_plan_adds_up_its_reads() {
    let group = |rows: Vec<(i64, i64)>, spans: Vec<Span>, index_bytes: u64| RowGroupPlan {
        index: 0,
        num_rows: 100,
        steps: vec![],
        skipped: false,
        pages: vec![],
        rows,
        reads: vec![ColumnRead { column: 0, spans, pages_read: 1, pages_total: 1 }],
        index_bytes,
    };
    let plan = Plan {
        row_groups: vec![
            group(vec![(0, 40), (60, 100)], vec![Span::new(4, 104), Span::new(200, 250)], 16),
            group(vec![(0, 10)], vec![Span::new(300, 310)], 4),
        ],
    };
    assert_eq!(plan.bytes_read(), 160);
    assert_eq!(plan.index_bytes(), 20);
    assert_eq!(plan.rows_read(), 90);
}
