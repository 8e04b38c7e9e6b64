use transaction_labeller::json::{parse_json, Json};

fn member(name: &str, value: Json) -> (String, Json) {
    (name.to_string(), value)
}

#[test]
fn the_last_member_of_a_name_counts() {
    let json = Json::Object(vec![
        member("a", Json::Unsigned(1)),
        member("b", Json::Bool(true)),
        member("a", Json::Unsigned(2)),
    ]);
    assert_eq!(json.get_unsigned("a"), Some(2));
    assert_eq!(json.names(), vec!["a", "b"]);
    let value = json.into_value();
    assert_eq!(value["a"], 2);
    assert_eq!(value["b"], true);
    assert_eq!(value.as_object().unwrap().len(), 2);
}

#[test]
fn values_come_through_unchanged() {
    let text = r#"{"a":[null,false,-1,1.5,18446744073709551615,"x"],"b":{"c":{}}}"#;
    let value = parse_json(text).unwrap().into_value();
    let expected: serde_json::Value = serde_json::from_str(text).unwrap();
    assert_eq!(value, expected);
    let json = parse_json(r#"{"n":7,"m":-7,"s":"t","l":[1]}"#).unwrap();
    assert_eq!(json.get_unsigned("n"), Some(7));
    assert_eq!(json.get_unsigned("m"), None);
    assert_eq!(json.get_text("s"), Some("t"));
    assert_eq!(json.get_text("n"), None);
    assert_eq!(json.get_array("l").unwrap().len(), 1);
    assert!(json.get("x").is_none());
    assert!(parse_json("{").is_err());
}
