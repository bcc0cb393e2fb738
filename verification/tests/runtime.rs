use jsondiffpatch::context::diff::DiffContext;
use jsondiffpatch::context::patch::{DeltaIndicator, DeltaWithLeftover, PatchContext};
use jsondiffpatch::context::reverse::ReverseContext;
use jsondiffpatch::context::{ContextData, FilterContext};
use jsondiffpatch::decimal::{parse_index, to_decimal};
use jsondiffpatch::filters::arrays::ArraysDiffFilter;
use jsondiffpatch::filters::nested::{
    CollectionChildrenDiffFilter, CollectionChildrenPatchFilter, CollectionChildrenReverseFilter,
};
use jsondiffpatch::filters::objects::{ObjectsDiffFilter, ObjectsPatchFilter, ObjectsReverseFilter};
use jsondiffpatch::filters::texts::{TextsDiffFilter, TextsPatchFilter, TextsReverseFilter};
use jsondiffpatch::filters::trivial::TrivialDiffFilter;
use jsondiffpatch::fitting::check_fit;
use jsondiffpatch::json::{find_key, remove_member, set_member, Json, Number};
use jsondiffpatch::lcs::longest_common_subsequence;
use jsondiffpatch::pipeline::arrays::{post_process_arrays_diff, process_arrays_diff};
use jsondiffpatch::pipeline::diff_pipeline::DiffPipeline;
use jsondiffpatch::pipeline::patch_pipeline::{handle_array, PatchPipeline};
use jsondiffpatch::pipeline::reverse_pipeline::ReversePipeline;
use jsondiffpatch::pipeline::texts::{apply_text_diff, process_text_diff};
use jsondiffpatch::processor::{process_pipeline, Pipeline, Processor};
use jsondiffpatch::types::{find_op, ArrayDeltaIndex, Delta, Options};
use jsondiffpatch::unidiff::check_patch;
use jsondiffpatch::errors::JsonDiffPatchError;
use jsondiffpatch::{diff, patch};

fn num(n: u64) -> Json {
    Json::Number(Number::PosInt(n))
}

fn text(s: &str) -> Json {
    Json::String(s.to_string())
}

fn numbers(ns: &[u64]) -> Vec<Json> {
    ns.iter().map(|n| num(*n)).collect()
}

fn obj(members: Vec<(&str, Json)>) -> Json {
    Json::Object(members.into_iter().map(|(k, v)| (k.to_string(), v)).collect())
}

#[test]
fn a_context_holds_a_result_and_a_flag() {
    let mut data: ContextData<u32> = ContextData::new(Options::default());
    assert!(!data.is_exiting());
    assert_eq!(data.result, None);
    data.set_result(5);
    assert_eq!(data.result, Some(5));
    assert!(!data.is_exiting());
    data.exit();
    assert!(data.is_exiting());
    assert_eq!(data.pop_result(), Some(5));
    assert_eq!(data.pop_result(), None);
    assert!(data.is_exiting());
    assert_eq!(data.options, Options::default());
}

#[test]
fn a_diff_context_does_not_store_no_change() {
    let left = num(1);
    let right = num(2);
    let mut context = DiffContext::new(&left, &right, Options::default());
    assert!(context.get_result().is_none());
    context.set_result(Delta::Unchanged);
    assert!(context.get_result().is_none());
    assert!(!context.is_exiting());
    context.set_result(Delta::added_ref(&right)).exit();
    assert!(matches!(context.get_result(), Some(Delta::Added(_))));
    assert!(context.is_exiting());
    assert_eq!(*context.options(), Options::default());
    assert!(matches!(context.pop_result(), Some(Delta::Added(_))));
    assert!(context.pop_result().is_none());
}

#[test]
fn a_patch_context_gives_its_delta_once() {
    let left = num(1);
    let mut context = PatchContext::new(&left, Delta::added_ref(&left), Options::default());
    assert_eq!(context.peek_delta(), DeltaIndicator::Added);
    assert!(matches!(context.take_delta(), Delta::Added(_)));
    assert_eq!(context.peek_delta(), DeltaIndicator::Added);
    assert!(matches!(context.delta, DeltaWithLeftover::Leftover(DeltaIndicator::Added)));
}

#[test]
fn the_kinds_of_deltas() {
    let one = num(1);
    let cases = vec![
        (Delta::Object(vec![]), DeltaIndicator::Object),
        (Delta::Array(vec![]), DeltaIndicator::Array),
        (Delta::TextDiff(String::new()), DeltaIndicator::TextDiff),
        (Delta::added_ref(&one), DeltaIndicator::Added),
        (Delta::modified_ref(&one, &one), DeltaIndicator::Modified),
        (Delta::deleted_ref(&one), DeltaIndicator::Deleted),
        (Delta::Moved { moved_value: None, new_index: 0 }, DeltaIndicator::Moved),
        (Delta::Unchanged, DeltaIndicator::Unchanged),
    ];
    for (delta, kind) in cases {
        assert_eq!(DeltaIndicator::new_from_delta(&delta), kind);
        assert_eq!(DeltaWithLeftover::Delta(delta).peek(), kind);
    }
}

#[test]
fn the_runtime_runs_children_before_the_step_after() {
    let left = obj(vec![("a", num(1)), ("b", obj(vec![("c", num(2))]))]);
    let right = obj(vec![("a", num(1)), ("b", obj(vec![("c", num(3))])), ("d", num(4))]);
    let mut context = DiffContext::new(&left, &right, Options::default());
    let pipeline = DiffPipeline;
    assert_eq!(pipeline.filter_name(), "diff-pipeline");
    process_pipeline(&mut context, &pipeline).unwrap();
    match context.pop_result() {
        Some(Delta::Object(entries)) => {
            assert_eq!(entries.len(), 2);
            assert_eq!(entries[0].0, "b");
            assert!(matches!(&entries[0].1, Delta::Object(inner) if inner.len() == 1 && inner[0].0 == "c"));
            assert_eq!(entries[1].0, "d");
            assert!(matches!(&entries[1].1, Delta::Added(v) if v.equals(&num(4))));
        }
        other => panic!("expected an object delta, got {:?}", other),
    }
}

#[test]
fn the_steps_of_the_diff_pipeline() {
    let left = obj(vec![("a", num(1)), ("b", num(2))]);
    let right = obj(vec![("b", num(2)), ("c", num(3))]);
    let pipeline = DiffPipeline;
    let mut context = DiffContext::new(&left, &right, Options::default());
    let mut children = Vec::new();
    pipeline.process(&mut context, &mut children).unwrap();
    assert!(context.is_exiting());
    assert!(context.get_result().is_none());
    let names: Vec<&str> = children.iter().map(|(k, _)| k.as_str()).collect();
    assert_eq!(names, vec!["a", "b", "c"]);
    assert!(children[0].1.right.equals(&Json::Null));
    assert!(children[2].1.left.equals(&Json::Null));
    for (_, child) in children.iter_mut() {
        process_pipeline(child, &pipeline).unwrap();
    }
    pipeline.post_process(&mut context, &mut children).unwrap();
    match context.pop_result() {
        Some(Delta::Object(entries)) => {
            assert_eq!(entries.len(), 2);
            assert!(matches!(&entries[0].1, Delta::Deleted(_)));
            assert!(matches!(&entries[1].1, Delta::Added(_)));
        }
        other => panic!("expected an object delta, got {:?}", other),
    }
}

#[test]
fn the_stages_of_a_diff_step() {
    let one = num(1);
    let two = num(2);
    let mut children = Vec::new();
    let mut context = DiffContext::new(&one, &two, Options::default());
    TrivialDiffFilter.process(&mut context, &mut children);
    assert!(context.is_exiting());
    assert!(matches!(context.get_result(), Some(Delta::Modified(_, _))));

    let a = text("a");
    let b = text("b");
    let mut context = DiffContext::new(&a, &b, Options::default());
    TrivialDiffFilter.process(&mut context, &mut children);
    assert!(!context.is_exiting());
    ArraysDiffFilter.process(&mut context, &mut children);
    assert!(!context.is_exiting());
    ObjectsDiffFilter.process(&mut context, &mut children);
    assert!(!context.is_exiting());
    TextsDiffFilter.process(&mut context, &mut children);
    assert!(context.is_exiting());
    assert!(matches!(context.get_result(), Some(Delta::Modified(_, _))));
    assert!(children.is_empty());
    assert_eq!(TrivialDiffFilter.filter_name(), "trivial-diff");
    assert_eq!(TextsDiffFilter.filter_name(), "texts-diff");
    assert_eq!(ArraysDiffFilter.filter_name(), "arrays-diff");
    assert_eq!(ObjectsDiffFilter.filter_name(), "objects-diff");
    assert_eq!(CollectionChildrenDiffFilter.filter_name(), "collection-children-diff");
    assert_eq!(CollectionChildrenPatchFilter.filter_name(), "collection-children-patch");
    assert_eq!(ObjectsPatchFilter.filter_name(), "objects-patch");
    assert_eq!(TextsPatchFilter.filter_name(), "texts-patch");
    assert_eq!(TextsReverseFilter.filter_name(), "texts-reverse");
    assert_eq!(ObjectsReverseFilter.filter_name(), "objects-reverse");
    assert_eq!(CollectionChildrenReverseFilter.filter_name(), "collection-children-reverse");
}

#[test]
fn the_stages_of_a_reversal() {
    let one = num(1);
    let delta = Delta::Object(vec![
        ("a".to_string(), Delta::added_ref(&one)),
        ("b".to_string(), Delta::TextDiff("@@ -1 +1 @@\n-a\n+b\n".to_string())),
    ]);
    let mut context = ReverseContext::new(delta, Options::default());
    let Delta::Object(entries) = context.take_delta() else {
        panic!("not an object delta");
    };
    let mut children = Vec::new();
    ObjectsReverseFilter.process(&mut context, entries, &mut children);
    assert_eq!(children.len(), 2);
    assert_eq!(children[0].0, "a");
    assert_eq!(children[1].0, "b");
    let pipeline = ReversePipeline;
    for (_, child) in children.iter_mut() {
        process_pipeline(child, &pipeline).unwrap();
    }
    CollectionChildrenReverseFilter.post_process(&mut context, &mut children);
    assert!(context.is_exiting());
    match context.pop_result() {
        Some(Delta::Object(entries)) => {
            assert_eq!(entries.len(), 2);
            assert!(matches!(&entries[0].1, Delta::Deleted(v) if v.equals(&one)));
            assert!(matches!(&entries[1].1, Delta::TextDiff(p) if p == "@@ -1 +1 @@\n+a\n-b\n"));
        }
        other => panic!("expected an object delta, got {:?}", other),
    }
    let mut context = ReverseContext::new(Delta::Unchanged, Options::default());
    TextsReverseFilter.process(&mut context, "+x".to_string());
    assert!(matches!(context.pop_result(), Some(Delta::TextDiff(p)) if p == "-x"));
}

#[test]
fn the_array_step_emits_pairs_of_equal_values() {
    let left = Json::Array(numbers(&[1, 2, 3, 4]));
    let right = Json::Array(numbers(&[1, 3, 2, 4]));
    let (l, r) = match (&left, &right) {
        (Json::Array(l), Json::Array(r)) => (l, r),
        _ => unreachable!(),
    };
    let mut context = DiffContext::new(&left, &right, Options::default());
    let mut children = Vec::new();
    process_arrays_diff(&mut context, l, r, &mut children).unwrap();
    assert!(context.is_exiting());
    // the head, the tail, and the move
    let names: Vec<&str> = children.iter().map(|(k, _)| k.as_str()).collect();
    assert_eq!(names, vec!["0", "3", "2"]);
    for (_, child) in &children {
        assert!(child.left.equals(child.right));
    }
    match context.get_result() {
        Some(Delta::Array(ops)) => {
            assert_eq!(ops.len(), 1);
            assert_eq!(ops[0].0, ArrayDeltaIndex::RemovedOrMoved(1));
            assert!(matches!(&ops[0].1, Delta::Moved { moved_value: None, new_index: 2 }));
        }
        other => panic!("expected an array delta, got {:?}", other),
    }
    post_process_arrays_diff(&mut context, &mut children).unwrap();
    assert!(matches!(context.get_result(), Some(Delta::Array(ops)) if ops.len() == 1));
}

#[test]
fn the_step_after_an_array_diff_adds_what_the_children_found() {
    let left = Json::Array(numbers(&[1]));
    let right = Json::Array(numbers(&[1]));
    let one = num(1);
    let two = num(2);
    let mut context = DiffContext::new(&left, &right, Options::default());
    context.set_result(Delta::Array(vec![(ArrayDeltaIndex::RemovedOrMoved(3), Delta::deleted_ref(&one))]));
    let mut child = DiffContext::new(&one, &two, Options::default());
    child.set_result(Delta::modified_ref(&one, &two));
    let mut children = vec![("7".to_string(), child)];
    post_process_arrays_diff(&mut context, &mut children).unwrap();
    assert!(children[0].1.get_result().is_none());
    match context.get_result() {
        Some(Delta::Array(ops)) => {
            assert_eq!(ops.len(), 2);
            assert_eq!(ops[0].0, ArrayDeltaIndex::RemovedOrMoved(3));
            assert_eq!(ops[1].0, ArrayDeltaIndex::NewOrModified(7));
            assert!(matches!(&ops[1].1, Delta::Modified(_, _)));
        }
        other => panic!("expected an array delta, got {:?}", other),
    }
}

#[test]
fn the_text_step() {
    let a = "a".repeat(70);
    let b = format!("{}b", "a".repeat(69));
    let left = text(&a);
    let right = text(&b);
    let mut context = DiffContext::new(&left, &right, Options::default());
    process_text_diff(&mut context, &a, &b).unwrap();
    assert!(context.is_exiting());
    let unidiff = match context.pop_result() {
        Some(Delta::TextDiff(p)) => p,
        other => panic!("expected a text diff, got {:?}", other),
    };
    assert!(check_patch(&unidiff));
    assert_eq!(apply_text_diff(&unidiff, &a).unwrap(), b);
}

#[test]
fn only_a_sound_patch_is_applied() {
    assert!(check_patch(""));
    assert!(check_patch("@@ -1,5 +1,6 @@\n ab\n-c\n+xy\n de\n"));
    assert!(check_patch("@@ -0,0 +1,3 @@\n+abc\n"));
    assert!(check_patch("@@ -3 +3,2 @@\n+z\n q\n"));
    assert!(check_patch("anything\n+without\n-a header"));
    assert!(!check_patch("@@ -0 +0 @@\n+a\n"));
    assert!(!check_patch("@@ -0,2 +1,3 @@\n+a\n"));
    assert!(!check_patch("@@ -1,5 +1,6\n"));
    assert!(!check_patch(" a\n@@\n"));
    assert!(!check_patch("@@ -01,5 +1,6 @@\n"));
    assert!(!check_patch("@@ -1,5,7 +1,6 @@\n"));
    assert!(!check_patch("@@ -1073741825 +1 @@\n"));
    assert!(check_patch("@@ -1073741824 +1 @@\n"));
    assert!(!check_patch("@@ -18446744073709551615,5 +1,5 @@\n+a\n"));
    assert!(apply_text_diff("@@ -0 +0 @@\n+a\n", "abc").is_err());
}

#[test]
fn the_steps_of_the_patch_pipeline() {
    let left = obj(vec![("a", num(1)), ("b", num(2))]);
    let delta = Delta::Object(vec![
        ("a".to_string(), Delta::deleted_ref(&num(1))),
        ("c".to_string(), Delta::added_ref(&num(3))),
    ]);
    let pipeline = PatchPipeline;
    assert_eq!(pipeline.filter_name(), "patch-pipeline");
    let mut context = PatchContext::new(&left, delta, Options::default());
    let mut children = Vec::new();
    pipeline.process(&mut context, &mut children).unwrap();
    assert!(context.get_result().is_none());
    assert_eq!(children.len(), 2);
    assert_eq!(children[0].0, "a");
    assert!(children[0].1.left.equals(&num(1)));
    assert_eq!(children[1].0, "c");
    assert!(children[1].1.left.equals(&Json::Null));
    for (_, child) in children.iter_mut() {
        process_pipeline(child, &pipeline).unwrap();
    }
    pipeline.post_process(&mut context, &mut children).unwrap();
    assert!(context.is_exiting());
    let expected = obj(vec![("b", num(2)), ("c", num(3))]);
    assert!(context.pop_result().unwrap().equals(&expected));
}

#[test]
fn the_processor_runs_any_pipeline() {
    let processor = Processor::new(None);
    assert_eq!(processor.options, Options::default());
    let left = Json::Array(numbers(&[1, 2]));
    let delta = Delta::Array(vec![(ArrayDeltaIndex::NewOrModified(1), Delta::modified_ref(&num(2), &num(5)))]);
    let mut context = PatchContext::new(&left, delta, processor.options);
    processor.process(&mut context, &mut PatchPipeline).unwrap();
    assert!(context.pop_result().unwrap().equals(&Json::Array(numbers(&[1, 5]))));

    let mut context = ReverseContext::new(Delta::added_ref(&num(1)), processor.options);
    assert_eq!(context.peek_delta(), DeltaIndicator::Added);
    processor.process(&mut context, &mut ReversePipeline).unwrap();
    assert!(matches!(context.pop_result(), Some(Delta::Deleted(_))));
    assert_eq!(ReversePipeline.filter_name(), "reverse-pipeline");

    let mut context = ReverseContext::new(Delta::Moved { moved_value: None, new_index: 0 }, processor.options);
    assert!(matches!(
        processor.process(&mut context, &mut ReversePipeline),
        Err(JsonDiffPatchError::InvalidPatch(_))
    ));
    assert!(context.get_result().is_none());
}

#[test]
fn a_longest_common_subsequence() {
    let a = numbers(&[1, 2, 3, 4, 5]);
    let b = numbers(&[2, 4, 6, 5]);
    assert_eq!(longest_common_subsequence(&a, &b), vec![(1, 0), (3, 1), (4, 3)]);
    assert_eq!(longest_common_subsequence(&a, &[]), vec![]);
    assert_eq!(longest_common_subsequence(&[], &b), vec![]);
    assert_eq!(longest_common_subsequence(&a, &a), vec![(0, 0), (1, 1), (2, 2), (3, 3), (4, 4)]);
    // where both ways on are as good, the walk steps on in the first
    let a = numbers(&[1, 2]);
    let b = numbers(&[2, 1]);
    assert_eq!(longest_common_subsequence(&a, &b), vec![(1, 0)]);
}

#[test]
fn positions_in_decimal() {
    assert_eq!(to_decimal(0), "0");
    assert_eq!(to_decimal(9), "9");
    assert_eq!(to_decimal(10), "10");
    assert_eq!(to_decimal(1234567890), "1234567890");
    assert_eq!(to_decimal(usize::MAX), usize::MAX.to_string());
    assert_eq!(parse_index("0", 0), Some(0));
    assert_eq!(parse_index("x42", 1), Some(42));
    assert_eq!(parse_index("42", 2), None);
    assert_eq!(parse_index("042", 0), None);
    assert_eq!(parse_index("4 2", 0), None);
    assert_eq!(parse_index(&usize::MAX.to_string(), 0), Some(usize::MAX));
    assert_eq!(parse_index(&format!("{}0", usize::MAX), 0), None);
    let beyond = (usize::MAX as u128 + 1).to_string();
    assert_eq!(parse_index(&beyond, 0), None);
}

#[test]
fn members_of_objects() {
    let mut entries = vec![("a".to_string(), num(1)), ("b".to_string(), num(2))];
    assert_eq!(find_key(&entries, &"b".to_string()), Some(1));
    assert_eq!(find_key(&entries, &"c".to_string()), None);
    set_member(&mut entries, "a".to_string(), num(10));
    set_member(&mut entries, "c".to_string(), num(3));
    assert_eq!(entries.len(), 3);
    assert!(entries[0].1.equals(&num(10)));
    assert_eq!(entries[2].0, "c");
    remove_member(&mut entries, &"b".to_string());
    remove_member(&mut entries, &"x".to_string());
    assert_eq!(entries.len(), 2);
    let object = Json::Object(entries);
    assert!(object.get(&"c".to_string()).unwrap().equals(&num(3)));
    assert!(object.get(&"b".to_string()).is_none());
    assert!(num(1).get(&"a".to_string()).is_none());
    assert!(object.is_object() && !object.is_array() && !object.is_null());
    assert!(num(1).is_number() && text("a").is_string() && Json::Bool(true).is_boolean());
    assert!(Json::Null.is_null() && Json::Array(vec![]).is_array());
    assert!(num(1).same_variant(&num(2)) && !num(1).same_variant(&text("1")));
}

#[test]
fn deltas_with_a_repeated_key_are_not_well_formed() {
    let one = num(1);
    let twice = Delta::Array(vec![
        (ArrayDeltaIndex::NewOrModified(0), Delta::added_ref(&one)),
        (ArrayDeltaIndex::NewOrModified(0), Delta::added_ref(&one)),
    ]);
    assert!(!twice.is_well_formed());
    let fine = Delta::Array(vec![
        (ArrayDeltaIndex::NewOrModified(0), Delta::added_ref(&one)),
        (ArrayDeltaIndex::RemovedOrMoved(0), Delta::deleted_ref(&one)),
    ]);
    assert!(fine.is_well_formed());
    let nested = Delta::Object(vec![
        ("a".to_string(), Delta::Unchanged),
        ("a".to_string(), Delta::Unchanged),
    ]);
    assert!(!nested.is_well_formed());
    assert!(!Delta::Object(vec![("x".to_string(), nested)]).is_well_formed());
    let bad_value = Json::Object(vec![("k".to_string(), Json::Null), ("k".to_string(), Json::Null)]);
    assert!(!Delta::Added(bad_value).is_well_formed());
    match &fine {
        Delta::Array(ops) => {
            assert_eq!(find_op(ops, ArrayDeltaIndex::RemovedOrMoved(0)), Some(1));
            assert_eq!(find_op(ops, ArrayDeltaIndex::RemovedOrMoved(1)), None);
        }
        _ => unreachable!(),
    }
    let copy = fine.clone();
    assert!(copy.serialize().equals(&fine.serialize()));
}

#[test]
fn a_null_member_is_taken_for_an_absent_one() {
    // the diff compares an absent member as null, so it finds no change
    // here, and a patch of it leaves the null member in place
    let left = obj(vec![("a", Json::Null)]);
    let right = obj(vec![]);
    assert!(diff(&left, &right).is_none());
    // and a member that becomes null is deleted
    let left = obj(vec![("a", num(1))]);
    let right = obj(vec![("a", Json::Null)]);
    let delta = diff(&left, &right).unwrap();
    assert!(patch(&left, delta).unwrap().unwrap().equals(&obj(vec![])));
}

#[test]
fn the_array_stage_after_the_children_adds_what_they_found() {
    let left = Json::Array(numbers(&[1]));
    let right = Json::Array(numbers(&[1]));
    let one = num(1);
    let two = num(2);
    // no child holds a result: the context stays as it is
    let mut context = DiffContext::new(&left, &right, Options::default());
    let mut children = vec![("0".to_string(), DiffContext::new(&one, &one, Options::default()))];
    ArraysDiffFilter.post_process(&mut context, &mut children);
    assert!(context.get_result().is_none());
    assert!(!context.is_exiting());
    // a child holds a result: it is added under the key of its name
    let mut child = DiffContext::new(&one, &two, Options::default());
    child.set_result(Delta::modified_ref(&one, &two));
    let mut children = vec![("4".to_string(), child)];
    ArraysDiffFilter.post_process(&mut context, &mut children);
    assert!(context.is_exiting());
    assert!(children[0].1.get_result().is_none());
    assert_eq!(children[0].0, "4");
    match context.get_result() {
        Some(Delta::Array(ops)) => {
            assert_eq!(ops.len(), 1);
            assert_eq!(ops[0].0, ArrayDeltaIndex::NewOrModified(4));
            assert!(matches!(&ops[0].1, Delta::Modified(l, r) if l.equals(&one) && r.equals(&two)));
        }
        other => panic!("expected an array delta, got {:?}", other),
    }
}

#[test]
fn only_a_patch_that_fits_is_applied() {
    let replace = "@@ -1,3 +1,3 @@\n-abc\n+xyz\n";
    assert!(check_fit("", "anything"));
    assert!(check_fit(replace, "abc"));
    assert_eq!(apply_text_diff(replace, "abc").unwrap(), "xyz");
    assert!(!check_fit(replace, "abd"));
    assert!(!check_fit(replace, "xabc"));
    assert!(!check_fit(replace, "abcd"));
    assert!(apply_text_diff(replace, "abd").is_err());
    // a hunk amid the text, with four bytes kept on either side
    let amid = "@@ -1,9 +1,9 @@\n abcd\n-e\n+x\n fghi\n";
    assert!(check_fit(amid, "abcdefghi"));
    assert_eq!(apply_text_diff(amid, "abcdefghi").unwrap(), "abcdxfghi");
    assert!(check_fit(amid, "abcdefghi and more"));
    assert_eq!(apply_text_diff(amid, "abcdefghi and more").unwrap(), "abcdxfghi and more");
    assert!(!check_fit(amid, "abcdEfghi"));
    assert!(!check_fit(amid, " abcdefghi"));
    // fewer than four bytes kept: the hunk must stand at the end of the text
    let short = "@@ -1,3 +1,3 @@\n a\n-b\n+x\n c\n";
    assert!(check_fit(short, "abc"));
    assert_eq!(apply_text_diff(short, "abc").unwrap(), "axc");
    assert!(!check_fit(short, "abcd"));
    // a hunk that keeps all
    assert!(check_fit("@@ -1,2 +1,2 @@\n ab\n", "ab"));
    assert_eq!(apply_text_diff("@@ -1,2 +1,2 @@\n ab\n", "ab").unwrap(), "ab");
    assert!(check_fit("@@ -1,6 +1,6 @@\n abcdef\n", "abcdef"));
    assert_eq!(apply_text_diff("@@ -1,6 +1,6 @@\n abcdef\n", "abcdef").unwrap(), "abcdef");
    // escapes stand for bytes
    let escaped = "@@ -1,2 +1,2 @@\n-a%0A\n+b%25\n";
    assert!(check_fit(escaped, "a\n"));
    assert_eq!(apply_text_diff(escaped, "a\n").unwrap(), "b%");
    assert!(!check_fit(escaped, "a%0A"));
    let accent = "@@ -1,2 +1,1 @@\n-%C3%A9\n+e\n";
    assert!(check_fit(accent, "\u{e9}"));
    assert_eq!(apply_text_diff(accent, "\u{e9}").unwrap(), "e");
    assert!(!check_fit("@@ -1,2 +1,1 @@\n-\u{e9}\n+e\n", "\u{e9}"));
    // what is no escape stands for itself
    let percent = "@@ -1,3 +1,1 @@\n-%zz\n+%\n";
    assert!(check_fit(percent, "%zz"));
    assert_eq!(apply_text_diff(percent, "%zz").unwrap(), "%");
    // lines out of order
    assert!(!check_fit(" a\n@@ -1 +1 @@\n-a\n+b\n", "a"));
    assert!(!check_fit("\n@@ -1 +1 @@\n-a\n+b\n", "a"));
    assert!(!check_fit("@@ -1 +1 @@\n-a\n+b\nxyz\n", "a"));
    assert!(!check_fit("@@ -0 +0 @@\n+a\n", "abc"));
    assert!(check_fit("@@ -1 +1 @@\n-a\n\n+b\n", "a"));
    assert_eq!(apply_text_diff("@@ -1 +1 @@\n-a\n\n+b\n", "a").unwrap(), "b");
}

#[test]
fn each_hunk_is_tried_against_what_the_hunks_before_it_left() {
    let text = "0123456789abcdefghijklmnopqrstuvwxyz";
    let two = "@@ -1,6 +1,9 @@\n 0123\n+XXX\n 45\n@@ -20,9 +20,9 @@\n ghij\n-k\n+K\n lmno\n";
    assert!(check_fit(two, text));
    assert_eq!(apply_text_diff(two, text).unwrap(), "0123XXX456789abcdefghijKlmnopqrstuvwxyz");
    // the second hunk named by its place in the old text does not fit
    let old_places = "@@ -1,6 +1,9 @@\n 0123\n+XXX\n 45\n@@ -17,9 +17,9 @@\n ghij\n-k\n+K\n lmno\n";
    assert!(!check_fit(old_places, text));
    assert!(apply_text_diff(old_places, text).is_err());
}

#[test]
fn a_patch_that_removes_text_it_does_not_find_fails() {
    let removal = "@@ -1,10 +0,0 @@\n-abcdefghij\n";
    assert!(check_patch(removal));
    assert!(check_fit(removal, "abcdefghij"));
    assert_eq!(apply_text_diff(removal, "abcdefghij").unwrap(), "");
    assert!(!check_fit(removal, ""));
    assert!(matches!(
        apply_text_diff(removal, ""),
        Err(JsonDiffPatchError::ApplyTextDiffFailed(_))
    ));
    assert!(matches!(
        patch(&text(""), Delta::TextDiff(removal.to_string())),
        Err(JsonDiffPatchError::ApplyTextDiffFailed(_))
    ));
    assert!(matches!(
        patch(&text("0123456789"), Delta::TextDiff(removal.to_string())),
        Err(JsonDiffPatchError::ApplyTextDiffFailed(_))
    ));
    // a long removal that does not fit
    let long = format!("@@ -1,100 +0,0 @@\n-{}\n", "abcdefghij".repeat(10));
    assert!(apply_text_diff(&long, &"abcdefghij".repeat(10)).unwrap().is_empty());
    assert!(apply_text_diff(&long, &"0123456789".repeat(10)).is_err());
    assert!(apply_text_diff(&long, "abc").is_err());
}

#[test]
fn a_failing_patch_step_stores_nothing_and_emits_nothing() {
    let target = num(1);
    let cases = vec![
        (Delta::Array(vec![]), "array"),
        (Delta::TextDiff(String::new()), "text diff"),
        (Delta::Object(vec![]), "object"),
    ];
    for (delta, word) in cases {
        let mut context = PatchContext::new(&target, delta, Options::default());
        let mut children = Vec::new();
        let failed = PatchPipeline.process(&mut context, &mut children).unwrap_err();
        assert!(
            matches!(&failed, JsonDiffPatchError::InvalidPatchToTarget { patch } if patch == word),
            "{:?}",
            failed
        );
        assert!(context.get_result().is_none());
        assert!(children.is_empty());
    }
    let moved = Delta::Moved { moved_value: None, new_index: 0 };
    let mut context = PatchContext::new(&target, moved, Options::default());
    let mut children = Vec::new();
    let failed = PatchPipeline.process(&mut context, &mut children).unwrap_err();
    assert!(matches!(failed, JsonDiffPatchError::InternalPatchLogicError(_)));
    assert!(context.get_result().is_none());
    assert!(children.is_empty());
    // an array delta that reaches beyond the array
    let array = Json::Array(numbers(&[1, 2]));
    let beyond = Delta::Array(vec![(ArrayDeltaIndex::RemovedOrMoved(5), Delta::deleted_ref(&target))]);
    let mut context = PatchContext::new(&array, beyond, Options::default());
    let mut children = Vec::new();
    let failed = PatchPipeline.process(&mut context, &mut children).unwrap_err();
    assert!(matches!(
        failed,
        JsonDiffPatchError::IndexOutOfBoundsRemove { index: 5, length: 2 }
    ));
    assert!(context.get_result().is_none());
    assert!(children.is_empty());
}

#[test]
fn the_array_step_lists_its_operations_in_the_order_of_their_keys() {
    let left = Json::Array(vec![]);
    let right = Json::Array(vec![text("a"), text("b")]);
    let (l, r) = match (&left, &right) {
        (Json::Array(l), Json::Array(r)) => (l.as_slice(), r.as_slice()),
        _ => unreachable!(),
    };
    let mut context = DiffContext::new(&left, &right, Options::default());
    let mut children = Vec::new();
    process_arrays_diff(&mut context, l, r, &mut children).unwrap();
    assert!(children.is_empty());
    match context.get_result() {
        Some(Delta::Array(ops)) => {
            assert_eq!(ops.len(), 2);
            assert_eq!(ops[0].0, ArrayDeltaIndex::NewOrModified(0));
            assert!(matches!(&ops[0].1, Delta::Added(v) if v.equals(&text("a"))));
            assert_eq!(ops[1].0, ArrayDeltaIndex::NewOrModified(1));
            assert!(matches!(&ops[1].1, Delta::Added(v) if v.equals(&text("b"))));
        }
        other => panic!("expected an array delta, got {:?}", other),
    }
    // removals come first, then additions, each from the lowest position up
    let left = Json::Array(numbers(&[1, 2, 3, 4, 5]));
    let right = Json::Array(numbers(&[1, 7, 3, 8, 9, 5]));
    let delta = diff(&left, &right).unwrap();
    match &delta {
        Delta::Array(ops) => {
            let keys: Vec<ArrayDeltaIndex> = ops.iter().map(|op| op.0).collect();
            assert_eq!(
                keys,
                vec![
                    ArrayDeltaIndex::RemovedOrMoved(1),
                    ArrayDeltaIndex::RemovedOrMoved(3),
                    ArrayDeltaIndex::NewOrModified(1),
                    ArrayDeltaIndex::NewOrModified(3),
                    ArrayDeltaIndex::NewOrModified(4),
                ]
            );
        }
        other => panic!("expected an array delta, got {:?}", other),
    }
}

#[test]
fn the_diff_stages_take_any_step() {
    // equal arrays: settled, with nothing to record
    let same = Json::Array(numbers(&[1, 2]));
    let mut context = DiffContext::new(&same, &same, Options::default());
    let mut children = Vec::new();
    ArraysDiffFilter.process(&mut context, &mut children);
    assert!(context.is_exiting());
    assert!(context.get_result().is_none());
    // a number against an array: the array stage and the object stage leave it
    let one = num(1);
    let mut context = DiffContext::new(&one, &same, Options::default());
    let mut children = Vec::new();
    ArraysDiffFilter.process(&mut context, &mut children);
    ObjectsDiffFilter.process(&mut context, &mut children);
    TextsDiffFilter.process(&mut context, &mut children);
    assert!(!context.is_exiting());
    assert!(context.get_result().is_none());
    assert!(children.is_empty());
    // equal short strings: the text stage records a replacement
    let word = text("word");
    let mut context = DiffContext::new(&word, &word, Options::default());
    TextsDiffFilter.process(&mut context, &mut children);
    assert!(context.is_exiting());
    assert!(matches!(
        context.get_result(),
        Some(Delta::Modified(l, r)) if l.equals(&word) && r.equals(&word)
    ));
    // equal objects: a child for each member, and no result
    let pair = obj(vec![("a", num(1)), ("b", num(2))]);
    let mut context = DiffContext::new(&pair, &pair, Options::default());
    let mut children = Vec::new();
    ObjectsDiffFilter.process(&mut context, &mut children);
    assert!(context.is_exiting());
    assert!(context.get_result().is_none());
    assert_eq!(children.len(), 2);
    assert_eq!(children[0].0, "a");
    assert_eq!(children[1].0, "b");
}

#[test]
fn hunks_whose_headers_and_bodies_disagree_are_applied_where_they_stand() {
    let forty = "abcdefghijklmnopqrstuvwxyz0123456789ABCD";
    let fifty = "abcdefghijklmnopqrstuvwxyz0123456789ABCDEFGHIJKLMN";
    let cases: Vec<(String, String, String)> = vec![
        // a header that names more than the hunk holds
        (
            "@@ -1,100 +1,100 @@\n abcd\n-e\n+x\n fghi\n".to_string(),
            "abcdefghi".to_string(),
            "abcdxfghi".to_string(),
        ),
        // a header that names less than the hunk holds
        (format!("@@ -1,1 +1,1 @@\n-{}\n+Z\n", forty), forty.to_string(), "Z".to_string()),
        // a long removal under its true header
        (format!("@@ -1,40 +1,1 @@\n-{}\n+Z\n", forty), forty.to_string(), "Z".to_string()),
        // a long removal amid kept text
        (
            format!("@@ -1,48 +1,8 @@\n abcd\n-{}\n wxyz\n", forty),
            format!("abcd{}wxyz", forty),
            "abcdwxyz".to_string(),
        ),
        // a removal of more than twice the longest pattern
        (
            format!("@@ -1,108 +1,8 @@\n abcd\n-{}{}\n wxyz\n", fifty, fifty),
            format!("abcd{}{}wxyz and more", fifty, fifty),
            "abcdwxyz and more".to_string(),
        ),
        // a long hunk of many pieces
        (
            format!("@@ -1,54 +1,60 @@\n ab\n-cd\n+CDCD\n {}\n+!!!!\n", &fifty[4..]),
            fifty.to_string(),
            format!("abCDCD{}!!!!", &fifty[4..]),
        ),
        // a long hunk that keeps all, and a hunk behind it
        (
            format!("@@ -1,50 +1,50 @@\n {}\n@@ -47,4 +47,6 @@\n KLMN\n+OP\n", fifty),
            fifty.to_string(),
            format!("{}OP", fifty),
        ),
        // a long insertion
        (
            format!("@@ -1,8 +1,58 @@\n abcd\n+{}\n efgh\n", fifty),
            "abcdefgh".to_string(),
            format!("abcd{}efgh", fifty),
        ),
        // pieces that hold nothing
        (
            "@@ -1,4 +1,5 @@\n \n abcd\n+\n+x\n-\n".to_string(),
            "abcd".to_string(),
            "abcdx".to_string(),
        ),
        // a hunk without pieces
        ("@@ -0,0 +0,0 @@\n".to_string(), "".to_string(), "".to_string()),
        ("@@ -0,0 +0,0 @@\n".to_string(), "abc".to_string(), "abc".to_string()),
    ];
    // an empty range behind the first place names a place amid the padding
    assert!(!check_fit("@@ -1,0 +1,0 @@\n", ""));
    for (unidiff, before, after) in cases {
        assert!(check_patch(&unidiff), "{:?}", unidiff);
        assert!(check_fit(&unidiff, &before), "{:?}", unidiff);
        let applied = apply_text_diff(&unidiff, &before);
        assert!(matches!(&applied, Ok(t) if *t == after), "{:?}: {:?}", unidiff, applied);
    }
}

#[test]
fn the_array_steps_add_to_the_lists_that_they_are_given() {
    // the diff: a child for the common head, behind what the list holds
    let left = Json::Array(numbers(&[1, 2]));
    let right = Json::Array(numbers(&[1, 3]));
    let (l, r) = match (&left, &right) {
        (Json::Array(l), Json::Array(r)) => (l.as_slice(), r.as_slice()),
        _ => unreachable!(),
    };
    let nine = num(9);
    let mut context = DiffContext::new(&left, &right, Options::default());
    let mut children = vec![("held".to_string(), DiffContext::new(&nine, &nine, Options::default()))];
    process_arrays_diff(&mut context, l, r, &mut children).unwrap();
    assert_eq!(children.len(), 2);
    assert_eq!(children[0].0, "held");
    assert_eq!(children[1].0, "0");
    assert!(children[1].1.left.equals(&num(1)));
    // the patch: a delta that patches in place is handed on behind what the list holds
    let two = num(2);
    let mut waiting = vec![("held".to_string(), &nine, Delta::Unchanged)];
    let delta = vec![
        (ArrayDeltaIndex::NewOrModified(1), Delta::modified_ref(&two, &nine)),
        (ArrayDeltaIndex::RemovedOrMoved(0), Delta::deleted_ref(&nine)),
    ];
    let arranged = handle_array(l, delta, &mut waiting).unwrap();
    assert!(arranged.equals(&Json::Array(numbers(&[2]))));
    assert_eq!(waiting.len(), 2);
    assert_eq!(waiting[0].0, "held");
    assert_eq!(waiting[1].0, "1");
    // a patch that fails hands nothing on
    let mut waiting = vec![("held".to_string(), &nine, Delta::Unchanged)];
    let delta = vec![
        (ArrayDeltaIndex::NewOrModified(0), Delta::modified_ref(&two, &nine)),
        (ArrayDeltaIndex::RemovedOrMoved(7), Delta::deleted_ref(&nine)),
    ];
    assert!(handle_array(l, delta, &mut waiting).is_err());
    assert_eq!(waiting.len(), 1);
}
