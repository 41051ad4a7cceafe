use pdf_filler::json::{data_from_json, parse_data, JsonValue};

fn pairs(v: &[(&str, &str)]) -> Vec<(String, String)> {
    v.iter().map(|(k, v)| (k.to_string(), v.to_string())).collect()
}

#[test]
fn parse_data_converts_values_to_text() {
    let d = parse_data(r#"{"ClientName": "Jane Doe", "Account.Number": "12345", "IsRetired": true, "Age": 65}"#);
    assert_eq!(
        d,
        Ok(pairs(&[
            ("Account.Number", "12345"),
            ("Age", "65"),
            ("ClientName", "Jane Doe"),
            ("IsRetired", "true"),
        ]))
    );
}

#[test]
fn parse_data_skips_nulls() {
    let d = parse_data(r#"{"Name": "Jane Doe", "Agree": null, "State": null}"#);
    assert_eq!(d, Ok(pairs(&[("Name", "Jane Doe")])));
}

#[test]
fn parse_data_nested_values_as_json_text() {
    let d = parse_data(r#"{"a": [1, 2], "b": {"c": false}, "f": 1.5, "n": -3}"#);
    assert_eq!(
        d,
        Ok(pairs(&[("a", "[1,2]"), ("b", "{\"c\":false}"), ("f", "1.5"), ("n", "-3")]))
    );
}

#[test]
fn parse_data_last_duplicate_wins() {
    assert_eq!(parse_data(r#"{"A": "1", "A": "2"}"#), Ok(pairs(&[("A", "2")])));
}

#[test]
fn parse_data_rejects_non_objects() {
    assert!(parse_data("[1, 2]").is_err());
    assert!(parse_data("{").is_err());
    assert!(parse_data("").is_err());
}

#[test]
fn data_from_json_keeps_order() {
    let members = vec![
        ("z".to_string(), JsonValue::Str("1".to_string())),
        ("y".to_string(), JsonValue::Null),
        ("x".to_string(), JsonValue::Bool(false)),
        ("w".to_string(), JsonValue::Number("2".to_string())),
        ("v".to_string(), JsonValue::Other("[]".to_string())),
    ];
    assert_eq!(
        data_from_json(&members),
        pairs(&[("z", "1"), ("x", "false"), ("w", "2"), ("v", "[]")])
    );
}
