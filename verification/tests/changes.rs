use parquet_lab::changes::{
    compaction_cost, files_to_open, plan_compaction, DataFile, DeleteFile, Snapshot,
};
use parquet_lab::object_store::NetworkModel;

fn file(path: &str, rows: i64, lo: i64, hi: i64) -> DataFile {
    DataFile {
        path: path.into(),
        record_count: rows,
        file_size: 100 * rows as u64,
        min_key: lo,
        max_key: hi,
    }
}

fn delete(path: &str, of: &str) -> DeleteFile {
    DeleteFile {
        path: path.into(),
        record_count: 1,
        file_size: 50,
        data_file: of.into(),
    }
}

fn snapshot() -> Snapshot {
    Snapshot {
        id: "s".into(),
        summary: String::new(),
        data_files: vec![
            file("a", 100, 1, 100),
            file("b", 100, 101, 200),
            file("c", 10, 201, 210),
            file("d", 10, 211, 220),
        ],
        delete_files: vec![delete("x", "b"), delete("y", "b")],
    }
}

#[test]
fn a_lookup_opens_only_the_files_that_could_hold_the_key() {
    let s = snapshot();
    let (data, deletes) = files_to_open(&s, 150);
    assert_eq!(data.iter().map(|f| &f.path[..]).collect::<Vec<_>>(), ["b"]);
    assert_eq!(deletes.len(), 2);
    let (data, deletes) = files_to_open(&s, 205);
    assert_eq!(data.len(), 1);
    assert!(deletes.is_empty());
    assert!(files_to_open(&s, 500).0.is_empty());
}

#[test]
fn compaction_rewrites_deleted_and_small_files_and_leaves_the_rest() {
    let s = snapshot();
    assert_eq!(s.live_rows(&s.data_files[1]), 98);
    let plan = plan_compaction(&s, 115, 50);
    // b has deletes; c and d are small. b and c fit in 115 rows together; d starts a group
    // of its own, which would rewrite one clean file unchanged, so it is dropped.
    assert_eq!(plan.len(), 1);
    assert_eq!(plan[0].data_files, ["b", "c"]);
    assert_eq!(plan[0].delete_files, ["x", "y"]);
    assert_eq!((plan[0].rows_in, plan[0].rows_out), (110, 108));
    assert_eq!(plan[0].bytes_in, 10_000 + 1_000 + 100);
    let wide = plan_compaction(&s, 200, 50);
    assert_eq!(wide[0].data_files, ["b", "c", "d"]);
}

#[test]
fn compaction_orders_files_by_their_smallest_key() {
    let mut s = snapshot();
    // Out of key order in the snapshot, equal keys kept in their order.
    s.data_files = vec![file("d", 10, 211, 220), file("c", 10, 201, 210), file("e", 10, 201, 205)];
    s.delete_files = vec![];
    let plan = plan_compaction(&s, 100, 50);
    assert_eq!(plan.len(), 1);
    assert_eq!(plan[0].data_files, ["c", "e", "d"]);
    assert!(plan[0].delete_files.is_empty());
    // Nothing small and nothing deleted: nothing to do.
    assert!(plan_compaction(&s, 100, 5).is_empty());
}

fn compacted(rows: i64, drop: &[&str]) -> Snapshot {
    let mut after = snapshot();
    after.id = "t".into();
    after.data_files.retain(|f| !drop.contains(&f.path.as_str()));
    after.data_files.push(file("bc", rows, 101, 210));
    after.delete_files.clear();
    after
}

#[test]
fn compaction_cost_reads_every_input_and_writes_every_output() {
    let before = snapshot();
    let plan = plan_compaction(&before, 115, 50);
    let model = NetworkModel { latency_us: 1_000, bandwidth_bytes_per_sec: 1_000_000 };
    let cost = compaction_cost(&before, &compacted(108, &["b", "c"]), &plan, model).unwrap();
    assert_eq!(cost.outputs, vec![("bc".to_string(), 10_800)]);
    assert_eq!(cost.bytes_read, 10_000 + 1_000 + 50 + 50);
    assert_eq!(cost.bytes_written, 10_800);
    // Four reads and one write, each a millisecond to start and a microsecond a byte.
    assert_eq!(cost.elapsed_us, 5 * 1_000 + 11_100 + 10_800);
}

#[test]
fn compaction_cost_refuses_a_commit_that_drops_other_files() {
    let before = snapshot();
    let plan = plan_compaction(&before, 115, 50);
    let model = NetworkModel { latency_us: 1_000, bandwidth_bytes_per_sec: 0 };
    let err = compaction_cost(&before, &compacted(108, &["b"]), &plan, model).unwrap_err();
    assert_eq!(err, "snapshot t replaced b, but the plan rewrites b, c");
}

#[test]
fn compaction_cost_refuses_a_commit_that_loses_rows() {
    let before = snapshot();
    let plan = plan_compaction(&before, 115, 50);
    let model = NetworkModel { latency_us: 1_000, bandwidth_bytes_per_sec: 0 };
    let err = compaction_cost(&before, &compacted(100, &["c", "b"]), &plan, model).unwrap_err();
    assert_eq!(err, "the plan keeps 108 rows, but snapshot t wrote 100");
}

const SNAPSHOTS_TEXT: &str = r#"{"snapshots": [
  {"id": "s1", "summary": "first load",
   "data_files": [{"path": "a.parquet", "record_count": 100, "file_size": 4000, "order_id": [1, 100]}]},
  {"id": "s2", "summary": "a delete",
   "data_files": [{"path": "a.parquet", "record_count": 100, "file_size": 4000, "order_id": [1, 100]}],
   "delete_files": [{"path": "d.parquet", "record_count": 1, "file_size": 50, "data_file": "a.parquet"}]}
]}"#;

#[test]
fn the_snapshots_file_lists_each_snapshot_oldest_first() {
    let ss = parquet_lab::changes::read_snapshots(SNAPSHOTS_TEXT).unwrap();
    assert_eq!(ss.len(), 2);
    assert_eq!(ss[0].id, "s1");
    assert_eq!(ss[0].summary, "first load");
    assert_eq!(ss[0].data_files[0].path, "a.parquet");
    assert_eq!(ss[0].data_files[0].record_count, 100);
    assert_eq!(ss[0].data_files[0].file_size, 4000);
    assert_eq!((ss[0].data_files[0].min_key, ss[0].data_files[0].max_key), (1, 100));
    assert!(ss[0].delete_files.is_empty());
    assert_eq!(ss[1].delete_files[0].data_file, "a.parquet");
    assert_eq!(ss[1].live_rows(&ss[1].data_files[0]), 99);
}

#[test]
fn a_snapshots_file_missing_something_says_what() {
    assert_eq!(parquet_lab::changes::read_snapshots("{}").unwrap_err(), "_snapshots.json: no snapshots");
    assert_eq!(parquet_lab::changes::read_snapshots("[").unwrap_err(), "_snapshots.json: unexpected end");
    assert_eq!(
        parquet_lab::changes::read_snapshots(r#"{"snapshots": [{"summary": "x"}]}"#).unwrap_err(),
        "_snapshots.json: no id"
    );
    assert_eq!(
        parquet_lab::changes::read_snapshots(r#"{"snapshots": [{"id": "s", "summary": "x", "data_files": [{"path": "a", "record_count": 1, "file_size": 2}]}]}"#)
            .unwrap_err(),
        "_snapshots.json: a data file with no order_id range"
    );
}
