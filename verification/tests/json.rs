use parquet_lab::json::{parse_json, Json};

fn parse(s: &str) -> Result<Json, String> {
    parse_json(s.as_bytes())
}

#[test]
fn objects_keep_their_members_in_the_order_written() {
    let j = parse(r#" {"z": 1, "a": null, "m": [1, 2], "o": {}} "#).unwrap();
    assert_eq!(
        j,
        Json::Obj(vec![
            ("z".to_string(), Json::UInt(1)),
            ("a".to_string(), Json::Null),
            ("m".to_string(), Json::Arr(vec![Json::UInt(1), Json::UInt(2)])),
            ("o".to_string(), Json::Obj(vec![])),
        ])
    );
    assert_eq!(j.get("m").and_then(|m| m.as_array()).map(|a| a.len()), Some(2));
    assert_eq!(j.get("z").and_then(|z| z.as_i64()), Some(1));
    assert!(j.get("q").is_none());
}

#[test]
fn numbers_are_unsigned_then_signed_then_kept_as_text() {
    assert_eq!(parse("7").unwrap(), Json::UInt(7));
    assert_eq!(parse("+7").unwrap(), Json::UInt(7));
    assert_eq!(parse("-3").unwrap(), Json::Int(-3));
    assert_eq!(parse("-9223372036854775808").unwrap(), Json::Int(i64::MIN));
    assert_eq!(parse("1.5").unwrap(), Json::Float("1.5".to_string()));
    assert_eq!(parse("-2e10").unwrap(), Json::Float("-2e10".to_string()));
    assert_eq!(
        parse("18446744073709551616").unwrap(),
        Json::Float("18446744073709551616".to_string())
    );
    assert_eq!(parse("-").unwrap_err(), "bad number \"-\" at 0");
    assert_eq!(parse("1e").unwrap_err(), "bad number \"1e\" at 0");
}

#[test]
fn strings_read_their_escapes() {
    assert_eq!(
        parse(r#""a\"b\\c\/\n\t\u00e9\u0041é""#).unwrap(),
        Json::Str("a\"b\\c/\n\téAé".to_string())
    );
    assert_eq!(parse(r#""\ud800""#).unwrap(), Json::Str("\u{fffd}".to_string()));
    assert_eq!(parse(r#""\q""#).unwrap_err(), "bad escape \\q");
    assert_eq!(parse(r#""\u12""#).unwrap_err(), "short \\u");
    assert_eq!(parse(r#""abc"#).unwrap_err(), "unterminated string");
}

#[test]
fn what_is_wrong_is_said_with_where() {
    assert_eq!(parse("[1,").unwrap_err(), "unexpected end");
    assert_eq!(parse("{} x").unwrap_err(), "trailing characters at 3");
    assert_eq!(parse("[1 2]").unwrap_err(), "expected , or ] at 3");
    assert_eq!(parse(r#"{"a" 1}"#).unwrap_err(), "expected : at 5");
    assert_eq!(parse(r#"{"a": 1 "b": 2}"#).unwrap_err(), "expected , or } at 8");
    assert_eq!(parse("tru").unwrap_err(), "expected true at 0");
    assert_eq!(parse("[true, false, null]").unwrap(), Json::Arr(vec![Json::Bool(true), Json::Bool(false), Json::Null]));
}
