use jsondiffpatch::json::{clone, Json, Number};

fn convert(value: &serde_json::Value) -> Json {
    match value {
        serde_json::Value::Null => Json::Null,
        serde_json::Value::Bool(b) => Json::Bool(*b),
        serde_json::Value::Number(n) => {
            if let Some(u) = n.as_u64() {
                Json::Number(Number::PosInt(u))
            } else if let Some(i) = n.as_i64() {
                Json::Number(Number::NegInt(i))
            } else {
                Json::Number(Number::Float(n.as_f64().unwrap().to_bits()))
            }
        }
        serde_json::Value::String(s) => Json::String(s.clone()),
        serde_json::Value::Array(items) => Json::Array(items.iter().map(convert).collect()),
        serde_json::Value::Object(members) => {
            Json::Object(members.iter().map(|(k, v)| (k.clone(), convert(v))).collect())
        }
    }
}

fn parse(text: &str) -> Json {
    convert(&serde_json::from_str::<serde_json::Value>(text).unwrap())
}

#[test]
fn test_clone_null() {
    let value = parse("null");
    let cloned = clone(&value);
    assert!(cloned.equals(&value));
}

#[test]
fn test_clone_bool() {
    let value = parse("true");
    let cloned = clone(&value);
    assert!(cloned.equals(&value));
}

#[test]
fn test_clone_number() {
    let value = parse("42");
    let cloned = clone(&value);
    assert!(cloned.equals(&value));
    assert!(matches!(cloned, Json::Number(Number::PosInt(42))));
}

#[test]
fn test_clone_string() {
    let value = parse("\"hello\"");
    let cloned = clone(&value);
    assert!(cloned.equals(&value));
    assert!(matches!(&cloned, Json::String(s) if s == "hello"));
}

#[test]
fn test_clone_array() {
    let value = parse("[1, 2, 3]");
    let cloned = clone(&value);
    assert!(cloned.equals(&value));
}

#[test]
fn test_clone_object() {
    let value = parse(r#"{"a": 1, "b": "hello"}"#);
    let cloned = clone(&value);
    assert!(cloned.equals(&value));
}

#[test]
fn test_clone_nested() {
    let value = parse(
        r#"{
            "nested": {
                "array": [1, 2, {"object": true}],
                "string": "hello"
            }
        }"#,
    );
    let cloned = clone(&value);
    assert!(cloned.equals(&value));
}

#[test]
fn equality_ignores_the_order_of_members() {
    let a = parse(r#"{"a": 1, "b": [1, 2]}"#);
    let b = Json::Object(vec![
        ("b".to_string(), parse("[1, 2]")),
        ("a".to_string(), parse("1")),
    ]);
    assert!(a.equals(&b));
    assert!(b.equals(&a));
}

#[test]
fn equality_keeps_the_order_of_elements() {
    assert!(!parse("[1, 2]").equals(&parse("[2, 1]")));
    assert!(!parse("[1, 2]").equals(&parse("[1, 2, 3]")));
}

#[test]
fn equality_tells_numbers_apart() {
    assert!(!parse("1").equals(&parse("1.0")));
    assert!(!parse("1").equals(&parse("-1")));
    assert!(parse("1.5").equals(&parse("1.5")));
    assert!(!parse("{\"a\": null}").equals(&parse("{}")));
}

#[test]
fn a_repeated_key_is_not_well_formed() {
    let twice = Json::Object(vec![
        ("a".to_string(), Json::Null),
        ("a".to_string(), Json::Bool(true)),
    ]);
    assert!(!twice.is_well_formed());
    assert!(!Json::Array(vec![twice]).is_well_formed());
    assert!(parse(r#"{"a": {"a": 1}, "b": [{"a": 2}]}"#).is_well_formed());
}
