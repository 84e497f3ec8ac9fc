use merge_sorted_chunks::key::{extract_sort_field, keyed_record, KeyFault};
use serde_json::Value;

fn parse(text: &str) -> Value {
    serde_json::from_str(text).unwrap()
}

#[test]
fn test_extract_sort_field_top_level() {
    let json = parse(r#"{"timestamp": 1234567890, "name": "test"}"#);
    assert_eq!(extract_sort_field(&json, "/timestamp"), 1234567890);
}

#[test]
fn test_extract_sort_field_nested() {
    let json = parse(r#"{"metadata": {"created": {"timestamp": 9876543210}}}"#);
    assert_eq!(
        extract_sort_field(&json, "/metadata/created/timestamp"),
        9876543210
    );
}

#[test]
fn test_extract_sort_field_negative_value() {
    let json = parse(r#"{"sort_key": -500}"#);
    assert_eq!(extract_sort_field(&json, "/sort_key"), -500);
}

#[test]
fn test_extract_sort_field_missing_field() {
    let e = keyed_record(r#"{"other_field": 123}"#.to_string(), "/timestamp").unwrap_err();
    assert_eq!(e.fault, KeyFault::MissingField);
    assert_eq!(e.path, "/timestamp");
    assert_eq!(e.line, r#"{"other_field": 123}"#);
}

#[test]
fn test_extract_sort_field_wrong_type() {
    let e = keyed_record(r#"{"timestamp": "not a number"}"#.to_string(), "/timestamp").unwrap_err();
    assert_eq!(e.fault, KeyFault::NotInteger);
    assert_eq!(e.line, r#"{"timestamp": "not a number"}"#);
}

#[test]
fn key_path_round_trip() {
    let json = parse(r#"{"a": {"b": 42}}"#);
    assert_eq!(extract_sort_field(&json, "/a/b"), 42);
    let e = keyed_record(r#"{"a": {"b": 42}}"#.to_string(), "/a/c").unwrap_err();
    assert_eq!(e.fault, KeyFault::MissingField);
    let e = keyed_record(r#"{"a": {"b": "x"}}"#.to_string(), "/a/b").unwrap_err();
    assert_eq!(e.fault, KeyFault::NotInteger);
}

#[test]
fn non_integer_numbers_are_refused() {
    let text = r#"{"a": 1.5, "b": 9223372036854775808, "c": [7, 8]}"#;
    let json = parse(text);
    assert_eq!(extract_sort_field(&json, "/c/1"), 8);
    let fault = |path: &str| keyed_record(text.to_string(), path).unwrap_err().fault;
    assert_eq!(fault("/a"), KeyFault::NotInteger);
    assert_eq!(fault("/b"), KeyFault::NotInteger);
    assert_eq!(fault("/c/2"), KeyFault::MissingField);
}

#[test]
fn keyed_record_keeps_the_line() {
    let line = r#"{"ts": 7,  "x": "a b"}"#.to_string();
    let rec = keyed_record(line.clone(), "/ts").unwrap();
    assert_eq!(rec.sort_field, 7);
    assert_eq!(rec.line, line);
}

#[test]
fn keyed_record_reports_each_fault() {
    let e = keyed_record("{not json".to_string(), "/ts").unwrap_err();
    assert_eq!(e.fault, KeyFault::Malformed);
    assert_eq!(e.line, "{not json");
    assert_eq!(e.path, "/ts");
    let e = keyed_record(r#"{"other": 1}"#.to_string(), "/ts").unwrap_err();
    assert_eq!(e.fault, KeyFault::MissingField);
    let e = keyed_record(r#"{"ts": null}"#.to_string(), "/ts").unwrap_err();
    assert_eq!(e.fault, KeyFault::NotInteger);
    assert_eq!(e.line, r#"{"ts": null}"#);
}
