use parquet_lab::engine::{parse, Agg, Item};
use parquet_lab::prune::Op;

#[test]
fn parses_the_whole_language() {
    let q = parse(
        "select country, count(*), avg(amount) from t where amount >= 10 and note is not null \
         group by country order by country desc, count limit 3",
    )
    .unwrap();
    assert_eq!(q.items.len(), 3);
    assert_eq!(q.items[1].name(), "count(*)");
    assert_eq!(q.conditions[1].op, Op::IsNotNull);
    assert_eq!(
        q.order_by,
        vec![("country".into(), true), ("count".into(), false)]
    );
    assert_eq!(q.limit, Some(3));
    assert!(parse("select from t").is_err());
    assert!(parse("select a from t where b = ").is_err());
}

#[test]
fn keywords_ignore_case_and_strings_lose_their_quotes() {
    let q = parse("SELECT * FROM orders WHERE city <> 'Oslo' AND n < -4").unwrap();
    assert_eq!(q.items, vec![Item::Star]);
    assert_eq!(q.from, "orders");
    assert_eq!(q.conditions[0].op, Op::NotEq);
    assert_eq!(q.conditions[0].value, "Oslo");
    assert_eq!(q.conditions[1].value, "-4");
    assert!(q.group_by.is_empty());
    assert_eq!(q.limit, None);
}

#[test]
fn an_aggregate_name_without_parentheses_is_a_column() {
    let q = parse("select count, sum(x) from t group by count").unwrap();
    assert_eq!(q.items[0], Item::Column("count".into()));
    assert_eq!(q.items[1], Item::Aggregate(Agg::Sum, Some("x".into())));
    assert_eq!(q.items[1].name(), "sum(x)");
    assert_eq!(q.group_by, vec!["count".to_string()]);
}

#[test]
fn errors_say_where_they_are() {
    assert_eq!(parse("select from t").unwrap_err(), "expected from at \"t\"");
    assert_eq!(parse("select a from t where b = ").unwrap_err(), "expected a value at the end");
    assert_eq!(parse("select a from t limit x").unwrap_err(), "expected a number at \"x\"");
    assert_eq!(parse("select a from t limit 1.5").unwrap_err(), "LIMIT 1.5 is not a count");
    assert_eq!(parse("select a from 'b'").unwrap_err(), "expected a column name at 'b'");
    assert_eq!(parse("select a from t t").unwrap_err(), "unexpected at \"t\"");
    assert_eq!(parse("select 'a").unwrap_err(), "a string is missing its closing quote");
    assert_eq!(parse("select a # b").unwrap_err(), "unexpected character '#'");
    assert_eq!(parse("pick a").unwrap_err(), "expected select at \"pick\"");
    assert_eq!(parse("select count(* from t").unwrap_err(), "expected ) at \"from\"");
    assert_eq!(
        parse("select a from t where b is c").unwrap_err(),
        "expected null at \"c\""
    );
}
