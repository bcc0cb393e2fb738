use jsondiffpatch::errors::{JsonDiffPatchError, JsonDiffPatchReverseError};
use jsondiffpatch::json::{Json, Number};
use jsondiffpatch::types::{
    ArrayDeltaIndex, ArrayOptions, Delta, MagicNumber, Options, TextDiffOptions,
};
use jsondiffpatch::{create, diff, patch, reverse, unpatch};

fn convert(value: &serde_json::Value) -> Json {
    match value {
        serde_json::Value::Null => Json::Null,
        serde_json::Value::Bool(b) => Json::Bool(*b),
        serde_json::Value::Number(n) => {
            if let Some(u) = n.as_u64() {
                Json::Number(Number::PosInt(u))
            } else if let Some(i) = n.as_i64() {
                Json::Number(Number::NegInt(i))
            } else {
                Json::Number(Number::Float(n.as_f64().unwrap().to_bits()))
            }
        }
        serde_json::Value::String(s) => Json::String(s.clone()),
        serde_json::Value::Array(items) => Json::Array(items.iter().map(convert).collect()),
        serde_json::Value::Object(members) => {
            Json::Object(members.iter().map(|(k, v)| (k.clone(), convert(v))).collect())
        }
    }
}

fn parse(text: &str) -> Json {
    convert(&serde_json::from_str::<serde_json::Value>(text).unwrap())
}

fn text(s: &str) -> Json {
    Json::String(s.to_string())
}

/// Checks a scenario: the wire form of the delta, the patch, and the patch
/// of the reversed delta.
fn check(left: &str, right: &str, wire: &str) {
    let l = parse(left);
    let r = parse(right);
    let delta = diff(&l, &r).unwrap();
    assert!(delta.is_serializable());
    let serialized = delta.serialize();
    assert!(serialized.equals(&parse(wire)), "wire form of {} -> {}: {:?}", left, right, serialized);
    let reversed = reverse(&delta).unwrap();
    let patched = patch(&l, delta).unwrap().unwrap();
    assert!(patched.equals(&r), "patch of {} -> {}", left, right);
    let back = patch(&r, reversed).unwrap().unwrap();
    assert!(back.equals(&l), "patch back of {} -> {}", left, right);
}

#[test]
fn scenario_changed_member() {
    check(r#"{"a":1,"b":2}"#, r#"{"a":1,"b":3}"#, r#"{"b":[2,3]}"#);
}

#[test]
fn scenario_added_member() {
    check(r#"{"x":1}"#, r#"{"x":1,"y":2}"#, r#"{"y":[2]}"#);
}

#[test]
fn scenario_removed_element() {
    check("[1,2,3]", "[1,3]", r#"{"_t":"a","_1":[2,null,0]}"#);
}

#[test]
fn scenario_moved_element() {
    check(r#"["a","b","c"]"#, r#"["b","c","a"]"#, r#"{"_t":"a","_0":[null,2,3]}"#);
}

#[test]
fn scenario_moved_element_with_its_value() {
    let options = Options {
        arrays: Some(ArrayOptions { detect_move: Some(true), include_value_on_move: Some(true) }),
        ..Options::default()
    };
    let l = parse(r#"["a","b","c"]"#);
    let r = parse(r#"["b","c","a"]"#);
    let delta = create(Some(options)).diff(&l, &r).unwrap();
    assert!(delta.serialize().equals(&parse(r#"{"_t":"a","_0":["a",2,3]}"#)));
    assert!(patch(&l, delta).unwrap().unwrap().equals(&r));
}

#[test]
fn scenario_without_move_detection() {
    let options = Options {
        arrays: Some(ArrayOptions { detect_move: Some(false), include_value_on_move: None }),
        ..Options::default()
    };
    let l = parse(r#"["a","b","c"]"#);
    let r = parse(r#"["b","c","a"]"#);
    let delta = create(Some(options)).diff(&l, &r).unwrap();
    assert!(delta
        .serialize()
        .equals(&parse(r#"{"_t":"a","_0":["a",null,0],"2":["a"]}"#)));
    assert!(patch(&l, delta).unwrap().unwrap().equals(&r));
}

#[test]
fn scenario_short_strings() {
    check(r#""short""#, r#""shorter""#, r#"["short","shorter"]"#);
}

#[test]
fn scenario_nested_member() {
    check(r#"{"a":{"b":1}}"#, r#"{"a":{"b":2}}"#, r#"{"a":{"b":[1,2]}}"#);
}

#[test]
fn scenario_long_strings() {
    let x: String = "abcdefghij".repeat(10);
    let mut y = x.clone();
    y.replace_range(50..51, "X");
    let l = text(&x);
    let r = text(&y);
    let delta = diff(&l, &r).unwrap();
    let unidiff = match &delta {
        Delta::TextDiff(p) => p.clone(),
        other => panic!("expected a text diff, got {:?}", other),
    };
    assert!(unidiff.starts_with("@@ -"));
    let wire = delta.serialize();
    match &wire {
        Json::Array(items) => {
            assert_eq!(items.len(), 3);
            assert!(items[0].equals(&text(&unidiff)));
            assert!(items[1].equals(&Json::Null));
            assert!(items[2].equals(&parse("2")));
        }
        other => panic!("expected an array, got {:?}", other),
    }
    let reversed = reverse(&delta).unwrap();
    let patched = patch(&l, delta).unwrap().unwrap();
    assert!(patched.equals(&r));
    let back = patch(&r, reversed).unwrap().unwrap();
    assert!(back.equals(&l));
}

#[test]
fn strings_one_byte_short_of_the_minimum_are_replaced() {
    let l = text(&"a".repeat(59));
    let r = text(&"b".repeat(59));
    assert!(matches!(diff(&l, &r), Some(Delta::Modified(_, _))));
    let l = text(&"a".repeat(60));
    let r = text(&"b".repeat(59));
    assert!(matches!(diff(&l, &r), Some(Delta::Modified(_, _))));
}

#[test]
fn strings_of_the_minimum_length_get_a_text_diff() {
    let l = text(&"a".repeat(60));
    let r = text(&format!("{}b", "a".repeat(59)));
    let delta = diff(&l, &r).unwrap();
    assert!(matches!(&delta, Delta::TextDiff(_)));
    assert!(patch(&l, delta).unwrap().unwrap().equals(&r));
}

#[test]
fn the_minimum_length_counts_bytes() {
    // thirty letters of two bytes each
    let l = text(&"é".repeat(30));
    let r = text(&format!("{}e", "é".repeat(29)));
    assert!(matches!(diff(&l, &r), Some(Delta::Modified(_, _))));
    let r = text(&format!("{}ee", "é".repeat(29)));
    assert!(matches!(diff(&l, &r), Some(Delta::TextDiff(_))));
}

#[test]
fn the_minimum_length_is_an_option() {
    let options = Options {
        text_diff: Some(TextDiffOptions { min_length: Some(5) }),
        ..Options::default()
    };
    let engine = create(Some(options));
    assert!(matches!(engine.diff(&text("short"), &text("shorter")), Some(Delta::TextDiff(_))));
    assert!(matches!(engine.diff(&text("shor"), &text("shorter")), Some(Delta::Modified(_, _))));
}

#[test]
fn a_text_diff_that_does_not_fit_fails() {
    let x: String = "abcdefghij".repeat(10);
    let mut y = x.clone();
    y.replace_range(50..51, "X");
    let delta = diff(&text(&x), &text(&y)).unwrap();
    let other = text(&"0123456789".repeat(10));
    assert!(matches!(patch(&other, delta), Err(JsonDiffPatchError::ApplyTextDiffFailed(_))));
}

#[test]
fn a_text_diff_that_is_no_patch_fails() {
    let delta = Delta::TextDiff("this is no patch".to_string());
    assert!(matches!(
        patch(&text("some text"), delta),
        Err(JsonDiffPatchError::ApplyTextDiffFailed(_))
    ));
}

#[test]
fn diff_of_equal_values_is_none() {
    for value in ["null", "1", "\"a\"", "[1, [2]]", r#"{"a": {"b": [1, null]}}"#] {
        assert!(diff(&parse(value), &parse(value)).is_none());
    }
}

#[test]
fn patch_without_change_gives_the_value_back() {
    for value in ["null", "1", "\"a\"", "[1, [2]]", r#"{"a": {"b": [1, null]}}"#] {
        let patched = patch(&parse(value), Delta::Unchanged).unwrap().unwrap();
        assert!(patched.equals(&parse(value)));
    }
}

#[test]
fn appearance_and_disappearance() {
    assert!(matches!(diff(&parse("null"), &parse("1")), Some(Delta::Added(v)) if v.equals(&parse("1"))));
    assert!(matches!(diff(&parse("1"), &parse("null")), Some(Delta::Deleted(v)) if v.equals(&parse("1"))));
    // a deletion at the root leaves no value
    assert!(patch(&parse("1"), Delta::deleted_ref(&parse("1"))).unwrap().is_none());
}

#[test]
fn a_change_of_variant_is_a_replacement() {
    let delta = diff(&parse("[1]"), &parse(r#"{"a": 1}"#)).unwrap();
    assert!(matches!(&delta, Delta::Modified(l, r) if l.equals(&parse("[1]")) && r.equals(&parse(r#"{"a": 1}"#))));
    assert!(matches!(diff(&parse("true"), &parse("false")), Some(Delta::Modified(_, _))));
    assert!(matches!(diff(&parse("1"), &parse("2")), Some(Delta::Modified(_, _))));
}

#[test]
fn delete_of_a_missing_member_changes_nothing() {
    let left = parse(r#"{"a": 1}"#);
    let delta = Delta::Object(vec![("b".to_string(), Delta::deleted_ref(&parse("2")))]);
    let patched = patch(&left, delta).unwrap().unwrap();
    assert!(patched.equals(&left));
}

#[test]
fn object_patch_sets_and_removes_members() {
    let left = parse(r#"{"a": 1, "b": 2, "c": {"d": 3}}"#);
    let delta = Delta::Object(vec![
        ("a".to_string(), Delta::deleted_ref(&parse("1"))),
        ("b".to_string(), Delta::Modified(parse("2"), parse("20"))),
        ("e".to_string(), Delta::added_ref(&parse("5"))),
        (
            "c".to_string(),
            Delta::Object(vec![("d".to_string(), Delta::Modified(parse("3"), parse("4")))]),
        ),
    ]);
    let patched = patch(&left, delta).unwrap().unwrap();
    assert!(patched.equals(&parse(r#"{"b": 20, "c": {"d": 4}, "e": 5}"#)));
}

#[test]
fn an_error_in_a_member_fails_the_patch() {
    let left = parse(r#"{"a": [1]}"#);
    let delta = Delta::Object(vec![(
        "a".to_string(),
        Delta::Array(vec![(ArrayDeltaIndex::RemovedOrMoved(4), Delta::deleted_ref(&parse("1")))]),
    )]);
    assert!(matches!(
        patch(&left, delta),
        Err(JsonDiffPatchError::IndexOutOfBoundsRemove { index: 4, length: 1 })
    ));
}

#[test]
fn removed_values_can_be_left_out() {
    let options = Options { omit_removed_values: Some(true), ..Options::default() };
    let engine = create(Some(options));
    let l = parse(r#"{"a": 1, "b": [1, 2], "c": 3}"#);
    let r = parse(r#"{"a": 2, "b": [2], "d": 4}"#);
    let delta = engine.diff(&l, &r).unwrap();
    assert!(delta.serialize().equals(&parse(
        r#"{"a": [null, 2], "b": {"_t": "a", "_0": [null, null, 0]}, "c": [null, null, 0], "d": [4]}"#
    )));
    assert!(engine.patch(&l, delta).unwrap().unwrap().equals(&r));
}

#[test]
fn reverse_swaps_additions_and_deletions() {
    let one = parse("1");
    let two = parse("2");
    assert!(matches!(reverse(&Delta::added_ref(&one)), Ok(Delta::Deleted(v)) if v.equals(&one)));
    assert!(matches!(reverse(&Delta::deleted_ref(&one)), Ok(Delta::Added(v)) if v.equals(&one)));
    assert!(matches!(
        reverse(&Delta::modified_ref(&one, &two)),
        Ok(Delta::Modified(l, r)) if l.equals(&two) && r.equals(&one)
    ));
    assert!(matches!(reverse(&Delta::Unchanged), Ok(Delta::Unchanged)));
    assert!(matches!(Delta::added_ref(&one).build_reverse(), Ok(Delta::Deleted(v)) if v.equals(&one)));
}

#[test]
fn reverse_of_a_move_outside_an_array_fails() {
    let moved = Delta::Moved { moved_value: None, new_index: 1 };
    assert!(matches!(reverse(&moved), Err(JsonDiffPatchReverseError::InvalidMoveDelta)));
    let inside = Delta::Object(vec![("a".to_string(), Delta::Moved { moved_value: None, new_index: 1 })]);
    assert!(matches!(reverse(&inside), Err(JsonDiffPatchReverseError::InvalidMoveDelta)));
    assert!(matches!(inside.build_reverse(), Err(JsonDiffPatchReverseError::InvalidMoveDelta)));
    let at_new = Delta::Array(vec![(
        ArrayDeltaIndex::NewOrModified(0),
        Delta::Moved { moved_value: None, new_index: 1 },
    )]);
    assert!(matches!(reverse(&at_new), Err(JsonDiffPatchReverseError::InvalidMoveDelta)));
    let onto_one = Delta::Array(vec![
        (ArrayDeltaIndex::RemovedOrMoved(0), Delta::Moved { moved_value: None, new_index: 2 }),
        (ArrayDeltaIndex::RemovedOrMoved(1), Delta::Moved { moved_value: None, new_index: 2 }),
    ]);
    assert!(matches!(reverse(&onto_one), Err(JsonDiffPatchReverseError::InvalidMoveDelta)));
    assert!(matches!(
        unpatch(&parse("[1]"), &onto_one),
        Err(JsonDiffPatchError::InvalidPatch(m)) if m == "the delta cannot be reversed"
    ));
}

#[test]
fn reverse_of_an_array_delta() {
    let delta = Delta::Array(vec![
        (ArrayDeltaIndex::RemovedOrMoved(1), Delta::deleted_ref(&text("b"))),
        (ArrayDeltaIndex::NewOrModified(1), Delta::added_ref(&text("x"))),
        (ArrayDeltaIndex::RemovedOrMoved(0), Delta::Moved { moved_value: None, new_index: 3 }),
    ]);
    let reversed = reverse(&delta).unwrap();
    assert!(reversed.serialize().equals(&parse(
        r#"{"_t": "a", "1": ["b"], "_1": ["x", null, 0], "_3": [null, 0, 3]}"#
    )));
    let built = delta.build_reverse().unwrap();
    assert!(built.serialize().equals(&reversed.serialize()));
}

#[test]
fn reverse_twice_gives_the_delta_back() {
    let pairs = [
        (r#"{"a": 1, "b": [1, 2, 3], "c": "x"}"#, r#"{"a": 2, "b": [3, 1, 4], "d": null, "e": 1}"#),
        ("[1, 2, 3, 4, 5, 6, 7]", "[1, 2, 4, 5, 3, 6, 7]"),
        ("1", "[1]"),
    ];
    for (l, r) in pairs {
        let delta = diff(&parse(l), &parse(r)).unwrap();
        let twice = reverse(&reverse(&delta).unwrap()).unwrap();
        assert!(twice.serialize().equals(&delta.serialize()));
    }
}

#[test]
fn unpatch_undoes_a_patch() {
    let pairs = [
        (r#"{"a": 1, "b": [1, 2, 3], "c": "x"}"#, r#"{"a": 2, "b": [3, 1, 4], "e": 1}"#),
        ("[1, 2, 3, 4, 5, 6, 7]", "[1, 2, 4, 5, 3, 6, 7]"),
        (r#"["a", "b", "c", "d"]"#, r#"["d", "x", "a", "c"]"#),
        ("1", "[1]"),
    ];
    for (l, r) in pairs {
        let left = parse(l);
        let right = parse(r);
        let delta = diff(&left, &right).unwrap();
        let back = unpatch(&right, &delta).unwrap().unwrap();
        assert!(back.equals(&left), "{} <- {}", l, r);
    }
}

#[test]
fn the_default_options() {
    let options = Options::default();
    assert_eq!(options.match_by_position, Some(false));
    assert!(options.detect_move());
    assert!(!options.include_value_on_move());
    assert_eq!(options.min_length(), 60);
    assert!(!options.omit_removed_values());
    assert_eq!(options.clone_diff_values, Some(false));
    let bare = Options {
        match_by_position: None,
        arrays: None,
        text_diff: None,
        clone_diff_values: None,
        omit_removed_values: None,
    };
    assert!(bare.detect_move());
    assert!(!bare.include_value_on_move());
    assert_eq!(bare.min_length(), 60);
    assert!(!bare.omit_removed_values());
    assert_eq!(create(None).processor.options, Options::default());
}

#[test]
fn the_magic_numbers() {
    assert_eq!(MagicNumber::Deleted.code(), 0);
    assert_eq!(MagicNumber::UndefinedDiff.code(), 2);
    assert_eq!(MagicNumber::ArrayMoved.code(), 3);
    assert!(MagicNumber::ArrayMoved.to_json().equals(&parse("3")));
}

#[test]
fn text_diffs_at_the_ends_of_long_strings() {
    let base: String = "The quick brown fox jumps over the lazy dog. ".repeat(4);
    let cases = vec![
        (base.clone(), format!("START {}", base)),
        (format!("START {}", base), base.clone()),
        (base.clone(), format!("{} END", base)),
        (format!("{} END", base), base.clone()),
        (base.clone(), base.replace("lazy", "sleepy")),
        (base.clone(), format!("{}\n+ a line\n@@ that looks like a header\n", base)),
        (format!("é{}", base), format!("ü{}ß", base)),
    ];
    for (l, r) in cases {
        let left = text(&l);
        let right = text(&r);
        let delta = diff(&left, &right).unwrap();
        assert!(matches!(&delta, Delta::TextDiff(_)), "{:?}", delta);
        let reversed = reverse(&delta).unwrap();
        let read = Delta::deserialize(&delta.serialize()).unwrap();
        assert!(patch(&left, delta).unwrap().unwrap().equals(&right));
        assert!(patch(&left, read).unwrap().unwrap().equals(&right));
        assert!(patch(&right, reversed).unwrap().unwrap().equals(&left));
    }
}

#[test]
fn the_wording_of_errors() {
    assert_eq!(
        JsonDiffPatchError::InternalPatchLogicError("x".to_string()).message(),
        "internal logic error: x"
    );
    assert_eq!(JsonDiffPatchError::InvalidPatch("x".to_string()).message(), "Cannot apply patch: x");
    assert_eq!(
        JsonDiffPatchError::InvalidPatchToTarget { patch: "array".to_string() }.message(),
        "The given patch 'array' cannot be applied to the target"
    );
    assert_eq!(
        JsonDiffPatchError::IndexOutOfBoundsRemove { index: 7, length: 3 }.message(),
        "index out of bounds: the patch is trying to remove an item at index 7, but the array has only 3 items"
    );
    assert_eq!(
        JsonDiffPatchError::IndexOutOfBoundsInsert { index: 10, length: 0 }.message(),
        "index out of bounds: the patch is trying to insert an item at index 10, but the array has only 0 items"
    );
    assert_eq!(
        JsonDiffPatchError::IndexOutOfBoundsMove { from: 1, to: 22, length: 3 }.message(),
        "index out of bounds: the patch is trying to move an item from index 1 to index 22, but the array has only 3 items"
    );
    assert_eq!(
        JsonDiffPatchError::IndexOutOfBoundsModify { index: 4, length: 4 }.message(),
        "index out of bounds: the patch is trying to modify an item at index 4, but the array has only 4 items"
    );
    let failed = patch(&text("some text"), Delta::TextDiff("this is no patch".to_string())).unwrap_err();
    assert!(failed.message().starts_with("failed to apply text diff: "));
    assert!(failed.message().len() > "failed to apply text diff: ".len());
    assert_eq!(
        JsonDiffPatchReverseError::InvalidMoveDelta.message(),
        "a move cannot be reversed where it stands"
    );
}

#[test]
fn text_diffs_of_many_shapes_are_applied() {
    let base: String = "The quick brown fox jumps over the lazy dog. ".repeat(8);
    let lines: String = (0..40).map(|i| format!("line {} of the text\n", i)).collect();
    let mut removed = base.clone();
    removed.replace_range(100..230, "");
    let mut inserted = base.clone();
    inserted.insert_str(150, &"0123456789".repeat(12));
    let mut spread = base.clone();
    spread.replace_range(300..310, "<a longer piece of new text>");
    spread.replace_range(200..230, "");
    spread.replace_range(90..95, "12345678");
    spread.replace_range(10..12, "");
    let mut fewer_lines = lines.clone();
    fewer_lines = fewer_lines.replace("line 7 of the text\n", "");
    fewer_lines = fewer_lines.replace("line 30 of", "row thirty in");
    let cases = vec![
        (base.clone(), removed.clone()),
        (removed, base.clone()),
        (base.clone(), inserted.clone()),
        (inserted, base.clone()),
        (base.clone(), spread),
        (base.clone(), "x".repeat(70)),
        (base.clone(), "0123456789 %25 \t\u{1f600}\u{e9}".repeat(9)),
        (format!("100% of \u{1f600}{}", base), format!("50%25 of \u{1f601}{}\r\n", base)),
        (lines.clone(), fewer_lines),
        (lines.clone(), lines.to_uppercase()),
        (base.clone(), String::from_utf8(base.bytes().rev().collect()).unwrap()),
    ];
    for (l, r) in cases {
        let left = text(&l);
        let right = text(&r);
        let delta = diff(&left, &right).unwrap();
        assert!(matches!(&delta, Delta::TextDiff(_)), "{:?}", delta);
        let patched = patch(&left, delta);
        assert!(matches!(&patched, Ok(Some(v)) if v.equals(&right)), "{:?} -> {:?}: {:?}", l, r, patched);
    }
}

#[test]
fn a_reversed_text_diff_leads_back() {
    let base: String = "The quick brown fox jumps over the lazy dog. ".repeat(4);
    let left = text(&base);
    // one hunk
    let right = text(&base.replacen("lazy", "sleepy", 1));
    let delta = diff(&left, &right).unwrap();
    let reversed = reverse(&delta).unwrap();
    assert!(patch(&left, delta).unwrap().unwrap().equals(&right));
    assert!(patch(&right, reversed).unwrap().unwrap().equals(&left));
    // several hunks that change the length
    let right = text(&base.replace("lazy", "sleepy"));
    let delta = diff(&left, &right).unwrap();
    let reversed = reverse(&delta).unwrap();
    assert!(patch(&left, delta.clone()).unwrap().unwrap().equals(&right));
    assert!(patch(&right, reversed).unwrap().unwrap().equals(&left));
    assert!(unpatch(&right, &delta).unwrap().unwrap().equals(&left));
}

#[test]
fn reversed_text_diffs_of_many_shapes_lead_back() {
    let base: String = "The quick brown fox jumps over the lazy dog. ".repeat(8);
    let lines: String = (0..40).map(|i| format!("line {} of the text\n", i)).collect();
    let mut removed = base.clone();
    removed.replace_range(100..230, "");
    let mut inserted = base.clone();
    inserted.insert_str(150, &"0123456789".repeat(12));
    let mut spread = base.clone();
    spread.replace_range(300..310, "<a longer piece of new text>");
    spread.replace_range(200..230, "");
    spread.replace_range(90..95, "12345678");
    spread.replace_range(10..12, "");
    let mut ends = base.clone();
    ends.replace_range(350..360, "");
    ends.insert_str(0, ">> ");
    let mut fewer_lines = lines.clone();
    fewer_lines = fewer_lines.replace("line 7 of the text\n", "");
    fewer_lines = fewer_lines.replace("line 30 of", "row thirty in");
    let cases = vec![
        (base.clone(), removed.clone()),
        (removed, base.clone()),
        (base.clone(), inserted.clone()),
        (inserted, base.clone()),
        (base.clone(), spread.clone()),
        (spread, base.clone()),
        (base.clone(), ends.clone()),
        (ends, base.clone()),
        (base.clone(), base.replace("lazy", "sleepy").replace("quick", "")),
        (base.clone(), "x".repeat(70)),
        (base.clone(), "0123456789 %25 \t\u{1f600}\u{e9}".repeat(9)),
        (format!("100% of \u{1f600}{}", base), format!("50%25 of \u{1f601}{}\r\n", base)),
        (lines.clone(), fewer_lines),
        (lines.clone(), lines.to_uppercase()),
        (base.clone(), String::from_utf8(base.bytes().rev().collect()).unwrap()),
    ];
    for (l, r) in cases {
        let left = text(&l);
        let right = text(&r);
        let delta = diff(&left, &right).unwrap();
        assert!(matches!(&delta, Delta::TextDiff(_)), "{:?}", delta);
        let reversed = reverse(&delta).unwrap();
        let twice = reverse(&reversed).unwrap();
        assert!(twice.serialize().equals(&delta.serialize()));
        let back = patch(&right, reversed);
        assert!(matches!(&back, Ok(Some(v)) if v.equals(&left)), "{:?} <- {:?}: {:?}", l, r, back);
        let back = unpatch(&right, &delta);
        assert!(matches!(&back, Ok(Some(v)) if v.equals(&left)), "{:?} <- {:?}: {:?}", l, r, back);
    }
}
#[test]
fn the_words_of_a_patch_that_cannot_be_applied() {
    let moved = Delta::Moved { moved_value: None, new_index: 0 };
    assert!(matches!(
        patch(&parse("1"), moved),
        Err(JsonDiffPatchError::InternalPatchLogicError(m))
            if m == "Should be handled by array directly, as move does not make sense for non-array container"
    ));
    let at_old = Delta::Array(vec![(ArrayDeltaIndex::RemovedOrMoved(0), Delta::Added(parse("1")))]);
    assert!(matches!(
        patch(&parse("[1]"), at_old),
        Err(JsonDiffPatchError::InvalidPatch(m))
            if m == "only removal or move can be applied at original array indices"
    ));
    let at_new = Delta::Array(vec![(ArrayDeltaIndex::NewOrModified(0), Delta::Deleted(parse("1")))]);
    assert!(matches!(
        patch(&parse("[1]"), at_new),
        Err(JsonDiffPatchError::InvalidPatch(m))
            if m == "only addition or modification can be applied at new array indices"
    ));
    for (delta, word) in [
        (Delta::Array(vec![]), "array"),
        (Delta::Object(vec![]), "object"),
        (Delta::TextDiff(String::new()), "text diff"),
    ] {
        assert!(matches!(
            patch(&parse("1"), delta),
            Err(JsonDiffPatchError::InvalidPatchToTarget { patch }) if patch == word
        ));
    }
}
