use jsondiffpatch::json::{Json, Number};
use jsondiffpatch::types::{ArrayDeltaIndex, Delta};
use jsondiffpatch::unidiff::reverse_patch;
use std::cmp::Ordering;

fn convert(value: &serde_json::Value) -> Json {
    match value {
        serde_json::Value::Null => Json::Null,
        serde_json::Value::Bool(b) => Json::Bool(*b),
        serde_json::Value::Number(n) => {
            if let Some(u) = n.as_u64() {
                Json::Number(Number::PosInt(u))
            } else if let Some(i) = n.as_i64() {
                Json::Number(Number::NegInt(i))
            } else {
                Json::Number(Number::Float(n.as_f64().unwrap().to_bits()))
            }
        }
        serde_json::Value::String(s) => Json::String(s.clone()),
        serde_json::Value::Array(items) => Json::Array(items.iter().map(convert).collect()),
        serde_json::Value::Object(members) => {
            Json::Object(members.iter().map(|(k, v)| (k.clone(), convert(v))).collect())
        }
    }
}

fn parse(text: &str) -> Json {
    convert(&serde_json::from_str::<serde_json::Value>(text).unwrap())
}

fn text(s: &str) -> Json {
    Json::String(s.to_string())
}

fn sample() -> Delta {
    let added = text("added");
    let old = text("old");
    let new = text("new");
    let deleted = text("deleted");
    let moved = text("moved");
    let text_diff = "text_diff";
    Delta::Object(vec![
        ("a".to_string(), Delta::added_ref(&added)),
        ("b".to_string(), Delta::modified_ref(&old, &new)),
        ("c".to_string(), Delta::deleted_ref(&deleted)),
        ("d".to_string(), Delta::Moved { moved_value: Some(moved.clone()), new_index: 1 }),
        ("e".to_string(), Delta::TextDiff(text_diff.to_string())),
        (
            "f".to_string(),
            Delta::Array(vec![
                (ArrayDeltaIndex::NewOrModified(5), Delta::added_ref(&added)),
                (ArrayDeltaIndex::RemovedOrMoved(7), Delta::deleted_ref(&deleted)),
                (
                    ArrayDeltaIndex::RemovedOrMoved(8),
                    Delta::Moved { moved_value: Some(moved.clone()), new_index: 1 },
                ),
            ]),
        ),
        (
            "g".to_string(),
            Delta::Object(vec![
                ("h".to_string(), Delta::added_ref(&added)),
                ("i".to_string(), Delta::modified_ref(&old, &new)),
                ("j".to_string(), Delta::deleted_ref(&deleted)),
                ("k".to_string(), Delta::Moved { moved_value: Some(moved.clone()), new_index: 1 }),
                ("l".to_string(), Delta::text_diff_ref(text_diff)),
            ]),
        ),
    ])
}

#[test]
fn test_my_delta_to_serializable() {
    let delta = sample();
    let delta_serialized = delta.serialize();
    assert!(delta_serialized.equals(&parse(
        r#"{
            "a":["added"],
            "b":["old","new"],
            "c":["deleted",null,0],
            "d":["moved",1,3],
            "e":["text_diff",null,2],
            "f":{
                "5":["added"],
                "_7":["deleted",null,0],
                "_8":["moved",1,3],
                "_t":"a"
            },
            "g":{
                "h":["added"],
                "i":["old","new"],
                "j":["deleted",null,0],
                "k":["moved",1,3],
                "l":["text_diff",null,2]
            }
        }"#
    )));
}

#[test]
fn the_wire_form_is_read_back() {
    let delta = sample();
    let wire = delta.serialize();
    let read = Delta::deserialize(&wire).unwrap();
    assert!(read.serialize().equals(&wire));
    match &read {
        Delta::Object(entries) => {
            assert_eq!(entries.len(), 7);
            let f = entries.iter().find(|(k, _)| k == "f").unwrap();
            match &f.1 {
                Delta::Array(ops) => {
                    assert_eq!(ops.len(), 3);
                    assert!(ops.iter().any(|(k, d)| *k == ArrayDeltaIndex::RemovedOrMoved(8)
                        && matches!(d, Delta::Moved { moved_value: Some(v), new_index: 1 } if v.equals(&text("moved")))));
                    assert!(ops.iter().any(|(k, d)| *k == ArrayDeltaIndex::NewOrModified(5)
                        && matches!(d, Delta::Added(v) if v.equals(&text("added")))));
                }
                other => panic!("expected an array delta, got {:?}", other),
            }
        }
        other => panic!("expected an object delta, got {:?}", other),
    }
}

#[test]
fn a_move_without_a_value_is_written_with_null() {
    let delta = Delta::Array(vec![(
        ArrayDeltaIndex::RemovedOrMoved(0),
        Delta::Moved { moved_value: None, new_index: 2 },
    )]);
    let wire = delta.serialize();
    assert!(wire.equals(&parse(r#"{"_t": "a", "_0": [null, 2, 3]}"#)));
    match Delta::deserialize(&wire).unwrap() {
        Delta::Array(ops) => {
            assert!(matches!(&ops[0].1, Delta::Moved { moved_value: None, new_index: 2 }));
        }
        other => panic!("expected an array delta, got {:?}", other),
    }
}

#[test]
fn what_is_no_wire_form_is_not_read() {
    for bad in [
        "1",
        "null",
        "\"a\"",
        "[]",
        "[1, 2, 3, 4]",
        "[1, 0, 1]",
        "[1, 0, 2]",
        "[1, \"x\", 3]",
        "[1, -1, 3]",
        r#"{"_t": "a", "x": [1]}"#,
        r#"{"_t": "a", "01": [1]}"#,
        r#"{"_t": "a", "_": [1]}"#,
        r#"{"_t": "a", "1": 5}"#,
        r#"{"a": 5}"#,
        r#"{"a": {"b": []}}"#,
    ] {
        assert!(Delta::deserialize(&parse(bad)).is_none(), "{}", bad);
    }
}

#[test]
fn the_middle_of_a_triple_is_free() {
    assert!(matches!(
        Delta::deserialize(&parse("[1, 0, 0]")),
        Some(Delta::Deleted(v)) if v.equals(&parse("1"))
    ));
    assert!(matches!(
        Delta::deserialize(&parse("[\"p\", 0, 2]")),
        Some(Delta::TextDiff(p)) if p == "p"
    ));
    // an object whose member "_t" is a delta is an object delta
    assert!(matches!(
        Delta::deserialize(&parse(r#"{"_t": [1], "x": [1]}"#)),
        Some(Delta::Object(entries)) if entries.len() == 2
    ));
    assert!(Delta::deserialize(&parse(r#"{"_t": "b", "x": [1]}"#)).is_none());
}

#[test]
fn no_change_has_no_wire_form() {
    assert!(!Delta::Unchanged.is_serializable());
    assert!(!Delta::Object(vec![("a".to_string(), Delta::Unchanged)]).is_serializable());
    assert!(!Delta::Array(vec![(ArrayDeltaIndex::NewOrModified(0), Delta::Unchanged)]).is_serializable());
    assert!(sample().is_serializable());
}

#[test]
fn the_names_of_keys() {
    assert_eq!(ArrayDeltaIndex::NewOrModified(0).serialize(), "0");
    assert_eq!(ArrayDeltaIndex::NewOrModified(5).serialize(), "5");
    assert_eq!(ArrayDeltaIndex::RemovedOrMoved(7).serialize(), "_7");
    assert_eq!(ArrayDeltaIndex::RemovedOrMoved(1234567890).serialize(), "_1234567890");
    assert_eq!(ArrayDeltaIndex::NewOrModified(usize::MAX).serialize(), usize::MAX.to_string());
    assert_eq!(ArrayDeltaIndex::parse("12"), Some(ArrayDeltaIndex::NewOrModified(12)));
    assert_eq!(ArrayDeltaIndex::parse("_12"), Some(ArrayDeltaIndex::RemovedOrMoved(12)));
    assert_eq!(ArrayDeltaIndex::parse("0"), Some(ArrayDeltaIndex::NewOrModified(0)));
    assert_eq!(
        ArrayDeltaIndex::parse(&usize::MAX.to_string()),
        Some(ArrayDeltaIndex::NewOrModified(usize::MAX))
    );
    for bad in ["", "_", "_t", "01", "_00", "1a", "-1", "+1", "99999999999999999999999999", "١"] {
        assert_eq!(ArrayDeltaIndex::parse(bad), None, "{}", bad);
    }
}

#[test]
fn the_order_of_keys() {
    let old = ArrayDeltaIndex::RemovedOrMoved;
    let new = ArrayDeltaIndex::NewOrModified;
    assert_eq!(old(9).cmp(&new(0)), Ordering::Less);
    assert_eq!(new(0).cmp(&old(9)), Ordering::Greater);
    assert_eq!(old(1).cmp(&old(2)), Ordering::Less);
    assert_eq!(new(2).cmp(&new(1)), Ordering::Greater);
    assert_eq!(new(2).cmp(&new(2)), Ordering::Equal);
    assert!(old(9).lt(new(0)));
    assert!(!new(0).lt(old(9)));
    assert!(!new(2).lt(new(2)));
    assert_eq!(new(3).index(), 3);
}

#[test]
fn a_reversed_text_diff() {
    let patch = "@@ -1,5 +1,6 @@\n ab\n-c\n+xy\n de\n@@ -20 +21,2 @@\n+z\n q\n";
    let reversed = reverse_patch(patch);
    assert_eq!(reversed, "@@ -21,2 +20 @@\n-z\n q\n@@ -1,6 +1,5 @@\n ab\n+c\n-xy\n de\n");
    assert_eq!(reverse_patch(&reversed), patch);
    assert_eq!(reverse_patch(""), "");
    assert_eq!(reverse_patch("@@ x\n+é\n"), "@@ x\n-é\n");
    assert_eq!(reverse_patch("no sign"), "no sign");
}

#[test]
fn a_reversed_text_diff_lists_its_hunks_from_the_last_to_the_first() {
    let three = "@@ -1,2 +1,3 @@\n a\n+b\n@@ -9,3 +10,2 @@\n-c\n d\n@@ -20 +20 @@\n-e\n+f\n";
    let reversed = reverse_patch(three);
    assert_eq!(
        reversed,
        "@@ -20 +20 @@\n+e\n-f\n@@ -10,2 +9,3 @@\n+c\n d\n@@ -1,3 +1,2 @@\n a\n-b\n"
    );
    assert_eq!(reverse_patch(&reversed), three);
    // a text without a line feed at its end
    let open = "@@ -1 +1 @@\n-a\n@@ -5 +4,2 @@\n+b";
    assert_eq!(reverse_patch(open), "@@ -4,2 +5 @@\n-b\n@@ -1 +1 @@\n+a");
    assert_eq!(reverse_patch(&reverse_patch(open)), open);
    // lines before the first hunk stay before it
    let led = "lead\n+in\n@@ -1 +1 @@\n-a\n@@ -5 +4,2 @@\n+b\n";
    assert_eq!(reverse_patch(led), "lead\n-in\n@@ -4,2 +5 @@\n-b\n@@ -1 +1 @@\n+a\n");
    assert_eq!(reverse_patch(&reverse_patch(led)), led);
    // empty lines stay where they are
    let gaps = "\n@@ -1 +1 @@\n-a\n\n\n@@ -5 +4,2 @@\n+b\n+c\n\n";
    assert_eq!(reverse_patch(gaps), "\n@@ -4,2 +5 @@\n-b\n\n\n-c\n@@ -1 +1 @@\n+a\n\n");
    assert_eq!(reverse_patch(&reverse_patch(gaps)), gaps);
    for odd in ["", "\n", "\n\n", "@", "@\n@", "+\n@@\n-", "@@ -1 +1 @@", "a\n\nb", "@b\n\n@a\nc"] {
        assert_eq!(reverse_patch(&reverse_patch(odd)), odd, "{:?}", odd);
    }
    assert_eq!(reverse_patch("@b\n\n@a\nc"), "@a\n\nc\n@b");
}
