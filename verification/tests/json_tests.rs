use inference_gateway::json::JsonField;
use inference_gateway::json::JsonValue;

#[test]
fn scalar_values_serialize_to_their_json_text() {
    assert_eq!(JsonValue::Null.to_text(), "null");
    assert_eq!(JsonValue::Bool(true).to_text(), "true");
    assert_eq!(JsonValue::Bool(false).to_text(), "false");
    assert_eq!(JsonValue::NumText("1.5".to_string()).to_text(), "1.5");
    assert_eq!(JsonValue::Str("hi".to_string()).to_text(), "\"hi\"");
}

#[test]
fn nested_values_serialize_without_added_whitespace() {
    let v = JsonValue::Obj(vec![
        JsonField { key: "a".to_string(), value: JsonValue::Arr(vec![JsonValue::NumText("1".to_string()), JsonValue::Null]) },
        JsonField { key: "b".to_string(), value: JsonValue::Str("x".to_string()) },
    ]);
    assert_eq!(v.to_text(), "{\"a\":[1,null],\"b\":\"x\"}");
}

#[test]
fn string_escaping_round_trips_through_a_real_parser() {
    let original = "quote \" backslash \\ newline \n tab \t bell \u{7} end";
    let text = JsonValue::Str(original.to_string()).to_text();
    let back: serde_json::Value = serde_json::from_str(&text).expect("escaped text is valid JSON");
    assert_eq!(back, serde_json::Value::String(original.to_string()));
}

#[test]
fn empty_containers_serialize_to_their_brackets() {
    assert_eq!(JsonValue::Arr(Vec::new()).to_text(), "[]");
    assert_eq!(JsonValue::Obj(Vec::new()).to_text(), "{}");
}
