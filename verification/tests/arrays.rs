use jsondiffpatch::context::patch::PatchContext;
use jsondiffpatch::errors::JsonDiffPatchError;
use jsondiffpatch::filters::arrays::ArraysPatchFilter;
use jsondiffpatch::json::{Json, Number};
use jsondiffpatch::pipeline::patch_pipeline::handle_array;
use jsondiffpatch::types::{ArrayDeltaIndex, Delta, Options};
use jsondiffpatch::{diff, patch};

fn convert(value: &serde_json::Value) -> Json {
    match value {
        serde_json::Value::Null => Json::Null,
        serde_json::Value::Bool(b) => Json::Bool(*b),
        serde_json::Value::Number(n) => {
            if let Some(u) = n.as_u64() {
                Json::Number(Number::PosInt(u))
            } else if let Some(i) = n.as_i64() {
                Json::Number(Number::NegInt(i))
            } else {
                Json::Number(Number::Float(n.as_f64().unwrap().to_bits()))
            }
        }
        serde_json::Value::String(s) => Json::String(s.clone()),
        serde_json::Value::Array(items) => Json::Array(items.iter().map(convert).collect()),
        serde_json::Value::Object(members) => {
            Json::Object(members.iter().map(|(k, v)| (k.clone(), convert(v))).collect())
        }
    }
}

fn parse(text: &str) -> Json {
    convert(&serde_json::from_str::<serde_json::Value>(text).unwrap())
}

fn text(s: &str) -> Json {
    Json::String(s.to_string())
}

fn items(value: &Json) -> &[Json] {
    match value {
        Json::Array(items) => items,
        _ => panic!("not an array"),
    }
}

struct ArrayPatchTestCase {
    name: &'static str,
    original: Json,
    delta: Delta,
    expected: Json,
    expected_children: usize,
}

fn patch_cases() -> Vec<ArrayPatchTestCase> {
    let a = text("a");
    let b = text("b");
    let c = text("c");
    let x = text("x");
    vec![
        ArrayPatchTestCase {
            name: "remove first element and add new element at beginning",
            original: parse(r#"["a", "b", "c"]"#),
            delta: Delta::Array(vec![
                (ArrayDeltaIndex::RemovedOrMoved(0), Delta::deleted_ref(&a)),
                (ArrayDeltaIndex::NewOrModified(0), Delta::added_ref(&x)),
            ]),
            expected: parse(r#"["x", "b", "c"]"#),
            expected_children: 0,
        },
        ArrayPatchTestCase {
            name: "add element at end",
            original: parse(r#"["a", 0, "b", false]"#),
            delta: Delta::Array(vec![(ArrayDeltaIndex::NewOrModified(3), Delta::added_ref(&c))]),
            expected: parse(r#"["a", 0, "b", "c", false]"#),
            expected_children: 0,
        },
        ArrayPatchTestCase {
            name: "remove element from middle",
            original: parse(r#"["a", "b", "c", "d", "e"]"#),
            delta: Delta::Array(vec![
                (
                    ArrayDeltaIndex::RemovedOrMoved(3),
                    Delta::Moved { moved_value: None, new_index: 2 },
                ),
                (ArrayDeltaIndex::RemovedOrMoved(1), Delta::deleted_ref(&b)),
                (
                    ArrayDeltaIndex::RemovedOrMoved(4),
                    Delta::Moved { moved_value: None, new_index: 0 },
                ),
            ]),
            expected: parse(r#"["e","a", "d", "c"]"#),
            expected_children: 0,
        },
        ArrayPatchTestCase {
            name: "move element",
            original: parse(r#"["a", "b", "c"]"#),
            delta: Delta::Array(vec![(ArrayDeltaIndex::RemovedOrMoved(0), Delta::moved_ref(&a, 2))]),
            expected: parse(r#"["b", "c", "a"]"#),
            expected_children: 0,
        },
        ArrayPatchTestCase {
            name: "modify element",
            original: parse(r#"["a", "b", "c"]"#),
            delta: Delta::Array(vec![]),
            expected: parse(r#"["a", "b", "c"]"#),
            expected_children: 0,
        },
        ArrayPatchTestCase {
            name: "complex operations: remove, add, and move",
            original: parse(r#"["a", "b", "c", "d"]"#),
            delta: Delta::Array(vec![
                (ArrayDeltaIndex::RemovedOrMoved(1), Delta::deleted_ref(&b)),
                (ArrayDeltaIndex::NewOrModified(1), Delta::added_ref(&x)),
                (ArrayDeltaIndex::RemovedOrMoved(0), Delta::moved_ref(&a, 3)),
            ]),
            expected: parse(r#"["c", "x", "d", "a"]"#),
            expected_children: 0,
        },
    ]
}

fn edge_cases() -> Vec<ArrayPatchTestCase> {
    let a = text("a");
    vec![
        ArrayPatchTestCase {
            name: "empty array add element",
            original: parse(r#"[]"#),
            delta: Delta::Array(vec![(ArrayDeltaIndex::NewOrModified(0), Delta::added_ref(&a))]),
            expected: parse(r#"["a"]"#),
            expected_children: 0,
        },
        ArrayPatchTestCase {
            name: "single element remove",
            original: parse(r#"["a"]"#),
            delta: Delta::Array(vec![(ArrayDeltaIndex::RemovedOrMoved(0), Delta::deleted_ref(&a))]),
            expected: parse(r#"[]"#),
            expected_children: 0,
        },
        ArrayPatchTestCase {
            name: "no changes",
            original: parse(r#"["a", "b"]"#),
            delta: Delta::Array(vec![]),
            expected: parse(r#"["a", "b"]"#),
            expected_children: 0,
        },
    ]
}

fn run_with_handle_array(test_case: ArrayPatchTestCase) {
    println!("Running test: {}", test_case.name);
    let mut context = PatchContext::new(&test_case.original, test_case.delta, Options::default());
    let mut new_children_context = Vec::new();
    let result = {
        let Delta::Array(array_delta) = context.take_delta() else {
            panic!("Test '{}' failed: delta is not an array", test_case.name);
        };
        handle_array(items(&test_case.original), array_delta, &mut new_children_context).unwrap()
    };
    assert_eq!(
        new_children_context.len(),
        test_case.expected_children,
        "Test '{}' failed: expected {} children, got {}",
        test_case.name,
        test_case.expected_children,
        new_children_context.len()
    );
    assert!(
        result.equals(&test_case.expected),
        "Test '{}' failed: expected {:?}, got {:?}",
        test_case.name,
        test_case.expected,
        result
    );
}

fn run_with_filter(test_case: ArrayPatchTestCase) {
    println!("Running test: {}", test_case.name);
    let mut context = PatchContext::new(&test_case.original, test_case.delta, Options::default());
    let mut new_children_context = Vec::new();
    let Delta::Array(array_delta) = context.take_delta() else {
        panic!("Test '{}' failed: delta is not an array", test_case.name);
    };
    ArraysPatchFilter.process(&mut context, array_delta, &mut new_children_context).unwrap();
    assert_eq!(
        new_children_context.len(),
        test_case.expected_children,
        "Test '{}' failed: expected {} children, got {}",
        test_case.name,
        test_case.expected_children,
        new_children_context.len()
    );
    match &context.context_data.result {
        Some(result) => assert!(
            result.equals(&test_case.expected),
            "Test '{}' failed: expected {:?}, got {:?}",
            test_case.name,
            test_case.expected,
            result
        ),
        None => panic!("Test '{}' failed: no result returned", test_case.name),
    }
}

#[test]
fn test_arrays_patch() {
    for test_case in patch_cases() {
        run_with_handle_array(test_case);
    }
}

#[test]
fn test_arrays_patch_edge_cases() {
    for test_case in edge_cases() {
        run_with_handle_array(test_case);
    }
}

#[test]
fn arrays_test_arrays_patch() {
    for test_case in patch_cases() {
        run_with_filter(test_case);
    }
}

#[test]
fn arrays_test_arrays_patch_edge_cases() {
    for test_case in edge_cases() {
        run_with_filter(test_case);
    }
}

#[test]
fn insert_at_the_length_succeeds_and_beyond_it_fails() {
    let left = parse(r#"["a", "b"]"#);
    let at_end = Delta::Array(vec![(ArrayDeltaIndex::NewOrModified(2), Delta::added_ref(&text("c")))]);
    let patched = patch(&left, at_end).unwrap().unwrap();
    assert!(patched.equals(&parse(r#"["a", "b", "c"]"#)));
    let beyond = Delta::Array(vec![(ArrayDeltaIndex::NewOrModified(3), Delta::added_ref(&text("c")))]);
    match patch(&left, beyond) {
        Err(JsonDiffPatchError::IndexOutOfBoundsInsert { index, length }) => {
            assert_eq!(index, 3);
            assert_eq!(length, 2);
        }
        other => panic!("expected an insert out of bounds, got {:?}", other),
    }
}

#[test]
fn remove_beyond_the_end_fails() {
    let left = parse(r#"["a", "b"]"#);
    let delta = Delta::Array(vec![(ArrayDeltaIndex::RemovedOrMoved(2), Delta::deleted_ref(&text("c")))]);
    match patch(&left, delta) {
        Err(JsonDiffPatchError::IndexOutOfBoundsRemove { index, length }) => {
            assert_eq!(index, 2);
            assert_eq!(length, 2);
        }
        other => panic!("expected a remove out of bounds, got {:?}", other),
    }
}

#[test]
fn move_beyond_the_end_fails() {
    let left = parse(r#"["a", "b"]"#);
    let delta = Delta::Array(vec![(
        ArrayDeltaIndex::RemovedOrMoved(0),
        Delta::Moved { moved_value: None, new_index: 5 },
    )]);
    match patch(&left, delta) {
        Err(JsonDiffPatchError::IndexOutOfBoundsMove { from, to, length }) => {
            assert_eq!(from, 0);
            assert_eq!(to, 5);
            assert_eq!(length, 1);
        }
        other => panic!("expected a move out of bounds, got {:?}", other),
    }
}

#[test]
fn modify_beyond_the_end_fails() {
    let left = parse(r#"["a", "b"]"#);
    let delta = Delta::Array(vec![(
        ArrayDeltaIndex::NewOrModified(2),
        Delta::Modified(text("c"), text("d")),
    )]);
    match patch(&left, delta) {
        Err(JsonDiffPatchError::IndexOutOfBoundsModify { index, length }) => {
            assert_eq!(index, 2);
            assert_eq!(length, 2);
        }
        other => panic!("expected a modify out of bounds, got {:?}", other),
    }
}

#[test]
fn an_element_is_patched_in_place() {
    let left = parse(r#"["a", {"k": 1}, "c"]"#);
    let delta = Delta::Array(vec![
        (
            ArrayDeltaIndex::NewOrModified(1),
            Delta::Object(vec![(
                "k".to_string(),
                Delta::Modified(parse("1"), parse("2")),
            )]),
        ),
        (ArrayDeltaIndex::NewOrModified(0), Delta::Modified(text("a"), text("z"))),
    ]);
    let patched = patch(&left, delta).unwrap().unwrap();
    assert!(patched.equals(&parse(r#"["z", {"k": 2}, "c"]"#)));
}

#[test]
fn wrong_operations_in_an_array_delta_are_invalid() {
    let left = parse(r#"["a", "b"]"#);
    let added_at_old = Delta::Array(vec![(ArrayDeltaIndex::RemovedOrMoved(0), Delta::added_ref(&text("x")))]);
    assert!(matches!(patch(&left, added_at_old), Err(JsonDiffPatchError::InvalidPatch(_))));
    let deleted_at_new = Delta::Array(vec![(ArrayDeltaIndex::NewOrModified(0), Delta::deleted_ref(&text("a")))]);
    assert!(matches!(patch(&left, deleted_at_new), Err(JsonDiffPatchError::InvalidPatch(_))));
}

#[test]
fn an_array_delta_needs_an_array() {
    let delta = Delta::Array(vec![]);
    assert!(matches!(
        patch(&parse("{}"), delta),
        Err(JsonDiffPatchError::InvalidPatchToTarget { .. })
    ));
    let delta = Delta::Object(vec![]);
    assert!(matches!(
        patch(&parse("[]"), delta),
        Err(JsonDiffPatchError::InvalidPatchToTarget { .. })
    ));
    let delta = Delta::TextDiff("".to_string());
    assert!(matches!(
        patch(&parse("1"), delta),
        Err(JsonDiffPatchError::InvalidPatchToTarget { .. })
    ));
}

#[test]
fn a_move_outside_an_array_is_a_logic_error() {
    let delta = Delta::Moved { moved_value: None, new_index: 0 };
    assert!(matches!(
        patch(&parse("1"), delta),
        Err(JsonDiffPatchError::InternalPatchLogicError(_))
    ));
}

#[test]
fn insertions_at_one_position_keep_their_order() {
    // the addition is met before the move, so the moved element is inserted
    // last and comes to stand before the added one
    let left = parse(r#"["a", "b", "c"]"#);
    let delta = Delta::Array(vec![
        (ArrayDeltaIndex::RemovedOrMoved(2), Delta::Moved { moved_value: None, new_index: 0 }),
        (ArrayDeltaIndex::NewOrModified(0), Delta::added_ref(&text("x"))),
    ]);
    let patched = patch(&left, delta).unwrap().unwrap();
    assert!(patched.equals(&parse(r#"["c", "x", "a", "b"]"#)));
}

#[test]
fn array_diff_finds_a_move() {
    let left = parse(r#"["a", "b", "c"]"#);
    let right = parse(r#"["b", "c", "a"]"#);
    let delta = diff(&left, &right).unwrap();
    match &delta {
        Delta::Array(ops) => {
            assert_eq!(ops.len(), 1);
            assert_eq!(ops[0].0, ArrayDeltaIndex::RemovedOrMoved(0));
            assert!(matches!(&ops[0].1, Delta::Moved { moved_value: None, new_index: 2 }));
        }
        other => panic!("expected an array delta, got {:?}", other),
    }
    let patched = patch(&left, delta).unwrap().unwrap();
    assert!(patched.equals(&right));
}

#[test]
fn array_diff_of_a_removed_element() {
    let left = parse("[1, 2, 3]");
    let right = parse("[1, 3]");
    let delta = diff(&left, &right).unwrap();
    match &delta {
        Delta::Array(ops) => {
            assert_eq!(ops.len(), 1);
            assert_eq!(ops[0].0, ArrayDeltaIndex::RemovedOrMoved(1));
            assert!(matches!(&ops[0].1, Delta::Deleted(v) if v.equals(&parse("2"))));
        }
        other => panic!("expected an array delta, got {:?}", other),
    }
}

#[test]
fn diff_of_empty_collections_is_none() {
    assert!(diff(&parse("[]"), &parse("[]")).is_none());
    assert!(diff(&parse("{}"), &parse("{}")).is_none());
}

#[test]
fn array_diff_and_patch_round_trip() {
    let pairs = [
        ("[]", "[1, 2, 3]"),
        ("[1, 2, 3]", "[]"),
        ("[1, 2, 3, 4, 5, 6, 7]", "[1, 2, 4, 5, 3, 6, 7]"),
        ("[1, 2, 3]", "[3, 2, 1]"),
        ("[1, 1, 2, 1]", "[1, 2, 1, 1, 3]"),
        (r#"[{"a": 1}, [1], null]"#, r#"[null, {"a": 2}, [1], [1]]"#),
        ("[1, 2, 3, 4]", "[9, 1, 8, 3, 7]"),
    ];
    for (l, r) in pairs {
        let left = parse(l);
        let right = parse(r);
        let delta = diff(&left, &right).unwrap();
        let patched = patch(&left, delta).unwrap().unwrap();
        assert!(patched.equals(&right), "{} -> {}", l, r);
    }
}
