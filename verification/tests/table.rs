use parquet_lab::table::partition_values;

#[test]
fn paths_carry_partition_values() {
    assert_eq!(
        partition_values("country=UK/part-0.parquet"),
        vec![("country".into(), "UK".into())]
    );
    assert_eq!(
        partition_values("year=2026/month=01/f.parquet"),
        vec![("year".into(), "2026".into()), ("month".into(), "01".into())]
    );
    assert_eq!(partition_values("city=S%C3%A3o%20Paulo/f.parquet")[0].1, "São Paulo");
    assert!(partition_values("part-0.parquet").is_empty());
}

#[test]
fn only_directories_with_an_equals_sign_count() {
    assert_eq!(
        partition_values("data/k=a=b/x%zz/f=1.parquet"),
        vec![("k".to_string(), "a=b".to_string())]
    );
    assert_eq!(partition_values("a%3Db=c/f"), vec![("a=b".to_string(), "c".to_string())]);
    assert!(partition_values("").is_empty());
}

fn log_text() -> String {
    [
        r#"{"metaData": {"schemaString": "{\"fields\": [{\"name\": \"country\"}, {\"name\": \"amount\"}]}"}}"#,
        "\n",
        r#"{"add": {"path": "country=UK/a.parquet", "partitionValues": {"country": "UK"}, "size": 1200, "stats": "{\"numRecords\": 10, \"minValues\": {\"amount\": 3}, \"maxValues\": {\"amount\": 9.5}, \"nullCount\": {\"amount\": 0}}"}}"#,
        "\r\n",
        "   \n",
        r#"{"add": {"path": "country=FR/b.parquet", "partitionValues": {"country": "FR"}, "size": 800}}"#,
        "\n",
        r#"{"remove": {"path": "country=UK/a.parquet"}}"#,
        "\n",
    ]
    .concat()
}

#[test]
fn a_log_lists_the_files_its_actions_leave() {
    let (files, columns) = parquet_lab::table::read_log(&log_text()).unwrap();
    assert_eq!(columns, vec!["country".to_string(), "amount".to_string()]);
    assert_eq!(files.len(), 1);
    assert_eq!(files[0].key, "country=FR/b.parquet");
    assert_eq!(files[0].partition, vec![("country".to_string(), "FR".to_string())]);
    assert_eq!(files[0].size, 800);
    assert!(files[0].stats.is_none());
    assert!(files[0].read);
    // Before the remove, the first file had its statistics.
    let first_two: String = log_text().lines().take(2).collect::<Vec<_>>().join("\n");
    let (files, _) = parquet_lab::table::read_log(&first_two).unwrap();
    let stats = files[0].stats.as_ref().unwrap();
    assert_eq!(stats.num_records, 10);
    assert_eq!(stats.min, vec![("amount".to_string(), parquet_lab::json::Json::UInt(3))]);
    assert_eq!(stats.max, vec![("amount".to_string(), parquet_lab::json::Json::Float("9.5".to_string()))]);
    assert_eq!(stats.null_count, vec![("amount".to_string(), 0)]);
}

#[test]
fn a_bad_log_line_is_named_by_its_number() {
    assert_eq!(parquet_lab::table::read_log("\n{\"add\": {}}\n").unwrap_err(), "log line 2: an add with no path");
    assert_eq!(parquet_lab::table::read_log("{\"add\": ").unwrap_err(), "log line 1: unexpected end");
    assert_eq!(
        parquet_lab::table::read_log("{\"metaData\": {\"schemaString\": \"[\"}}").unwrap_err(),
        "the log's schema: unexpected end"
    );
    assert_eq!(parquet_lab::table::read_log("").unwrap().0.len(), 0);
}
