//! What holds of diff, patch, reverse and the wire form together.

use crate::errors::PatchFailure;
use crate::json::{lemma_members, members, views, Json, JsonView};
use crate::pipeline::texts::patched_text;
use crate::proofs::array_diff::{
    lemma_array_diff_reversed_twice, lemma_array_patch_back, lemma_array_patch_of_diff,
};
use crate::semantics::diff::{member_delta, object_changes};
use crate::semantics::reverse::{member_reverse, reverse_spec, reversed_members};
use crate::unidiff::{lemma_reversed_text_twice, reversed_text};
use crate::pipeline::patch_pipeline::lemma_sorted_entries;
use crate::pipeline::texts::text_patch;
use crate::semantics::diff::{byte_len, diff_spec, text_delta};
use crate::semantics::patch::{
    apply_insertions, collect_ops, element_outcomes, first_failure, insert_sorted, member_outcome,
    patch_spec, patched_members, place_results, rearranged, sort_insertions, sorted_entries,
    ArrayPatching, Insertion, Patched,
};
use crate::semantics::wire::{
    array_marker_name, carries_no_null, element_carries_no_null, element_serializable, element_wire,
    index_name, is_array_wire, lemma_index_name, member_carries_no_null, member_serializable,
    member_unwire, member_wire, parse_index_name, serializable, unwire_elements, unwire_members,
    unwire_spec, wire_elements, wire_members, wire_spec,
};
use crate::types::{
    delta_members, delta_ops, lemma_delta_member_sizes, lemma_delta_members, lemma_delta_op_sizes,
    lemma_delta_ops, op_index, ArrayDeltaIndex, Delta, DeltaView, Options,
};
use crate::json::key_index;
use vstd::prelude::*;

verus! {

/// The diff of a value with itself is "no change".
pub proof fn law_diff_of_equal_values(l: JsonView, o: Options)
    ensures
        diff_spec(l, l, o) == DeltaView::Unchanged,
{
}

/// Applying "no change" gives the value back.
pub proof fn law_patch_without_change(l: JsonView)
    ensures
        patch_spec(l, DeltaView::Unchanged) == Patched::Value(l),
{
}

/// The diff of two empty arrays, and that of two empty objects, is "no
/// change".
pub proof fn law_diff_of_empty_collections(o: Options)
    ensures
        diff_spec(
            JsonView::Array(Seq::empty()),
            JsonView::Array(Seq::empty()),
            o,
        ) == DeltaView::Unchanged,
        diff_spec(
            JsonView::Object(Map::empty()),
            JsonView::Object(Map::empty()),
            o,
        ) == DeltaView::Unchanged,
{
}

/// An object delta that deletes a member which the object does not have
/// leaves the object as it is.
pub proof fn law_delete_of_missing_member(m: Map<Seq<char>, JsonView>, key: Seq<char>, v: JsonView)
    requires
        !m.contains_key(key),
    ensures
        patch_spec(JsonView::Object(m), DeltaView::Object(map![key => DeltaView::Deleted(v)]))
            == Patched::Value(JsonView::Object(m)),
{
    let l = JsonView::Object(m);
    let changes = map![key => DeltaView::Deleted(v)];
    let d = DeltaView::Object(changes);
    assert forall|k: Seq<char>| #[trigger] changes.contains_key(k) implies !(member_outcome(l, d, k)
        is Failure) by {
        assert(k == key);
    }
    assert(patched_members(l, d) =~= m) by {
        assert forall|k: Seq<char>| patched_members(l, d).contains_key(k) <==> m.contains_key(
            k,
        ) by {
            if changes.contains_key(k) {
                assert(k == key);
                assert(member_outcome(l, d, k) == Patched::Absent);
            }
        }
    }
}

/// The operations of an array delta with one operation, in order.
pub proof fn lemma_single_entry(key: ArrayDeltaIndex, d: DeltaView)
    ensures
        sorted_entries(map![key => d]) == seq![(key, d)],
{
    let ops = map![key => d];
    let entries = sorted_entries(ops);
    lemma_sorted_entries(ops);
    assert(ops.contains_key(key));
    let t = choose|t: int| 0 <= t < entries.len() && (#[trigger] entries[t]).0 == key;
    if entries.len() > 1 {
        assert(ops.contains_key(entries[0].0));
        assert(ops.contains_key(entries[1].0));
        assert(entries[0].0.spec_lt(entries[1].0));
    }
    assert(entries[0].0 == key);
    assert(entries =~= seq![(key, d)]);
}

/// An addition at the length of an array puts the value at its end. An
/// addition beyond the length fails, and the error names the position and
/// the length.
pub proof fn law_insert_at_the_end(items: Seq<JsonView>, index: usize, v: JsonView)
    requires
        items.len() <= usize::MAX,
    ensures
        index == items.len() ==> patch_spec(
            JsonView::Array(items),
            DeltaView::Array(map![ArrayDeltaIndex::NewOrModified(index) => DeltaView::Added(v)]),
        ) == Patched::Value(JsonView::Array(items.push(v))),
        index > items.len() ==> patch_spec(
            JsonView::Array(items),
            DeltaView::Array(map![ArrayDeltaIndex::NewOrModified(index) => DeltaView::Added(v)]),
        ) == Patched::Failure(
            set![PatchFailure::IndexOutOfBoundsInsert { index, length: items.len() as usize }],
        ),
{
    let key = ArrayDeltaIndex::NewOrModified(index);
    let ops = map![key => DeltaView::Added(v)];
    let l = JsonView::Array(items);
    let d = DeltaView::Array(ops);
    lemma_single_entry(key, DeltaView::Added(v));
    let entries = sorted_entries(ops);
    let start = ArrayPatching { arr: items, inserts: Seq::empty(), mods: Seq::empty() };
    assert(collect_ops(entries, items, 1) == Ok::<ArrayPatching, PatchFailure>(start));
    let x = Insertion { index, value: v, from: None };
    let state = ArrayPatching { inserts: start.inserts.push(x), ..start };
    assert(collect_ops(entries, items, 0) == Ok::<ArrayPatching, PatchFailure>(state));
    assert(state.inserts.drop_last() =~= Seq::<Insertion>::empty());
    assert(sort_insertions(state.inserts.drop_last()) =~= Seq::<Insertion>::empty());
    assert(sort_insertions(state.inserts) == insert_sorted(Seq::<Insertion>::empty(), x));
    let sorted = seq![x];
    assert(sort_insertions(state.inserts) == sorted);
    let outcomes = element_outcomes(l, d);
    assert(first_failure(state.mods, outcomes, 0) is None);
    if index == items.len() {
        assert(apply_insertions(items, sorted, 0) == apply_insertions(
            items.insert(index as int, v),
            sorted,
            1,
        ));
        assert(items.insert(index as int, v) =~= items.push(v));
        assert(rearranged(items, ops) == Ok::<(Seq<JsonView>, Seq<usize>), PatchFailure>(
            (items.push(v), state.mods),
        ));
        assert(place_results(items.push(v), state.mods, outcomes, 0) == Ok::<
            Seq<JsonView>,
            PatchFailure,
        >(items.push(v)));
    } else if index > items.len() {
        assert(rearranged(items, ops) == Err::<(Seq<JsonView>, Seq<usize>), PatchFailure>(
            PatchFailure::IndexOutOfBoundsInsert { index, length: items.len() as usize },
        ));
    }
}

/// Two different strings of which one is shorter, in bytes, than the
/// options ask for are diffed as a replacement; two that are both long
/// enough as a text diff, where the text-diff library yields a patch.
pub proof fn law_text_diff_threshold(l: Seq<char>, r: Seq<char>, o: Options)
    requires
        l != r,
    ensures
        byte_len(l) < o.spec_min_length() || byte_len(r) < o.spec_min_length() ==> diff_spec(
            JsonView::String(l),
            JsonView::String(r),
            o,
        ) is Modified,
        byte_len(l) >= o.spec_min_length() && byte_len(r) >= o.spec_min_length() && text_patch(l, r)
            is Some ==> diff_spec(JsonView::String(l), JsonView::String(r), o)
            == DeltaView::TextDiff(text_patch(l, r)->0),
{
    assert(JsonView::String(l) != JsonView::String(r));
}

/// The wire form of a delta is an array or an object, never a string.
pub proof fn lemma_wire_is_no_string(d: DeltaView)
    requires
        serializable(d),
    ensures
        wire_spec(d) is Array || wire_spec(d) is Object,
{
}

/// Reading the wire form of a delta gives the delta back, for every delta
/// that has a wire form and in which no move carries null.
pub proof fn law_wire_round_trip(d: Delta)
    requires
        d.wf(),
        serializable(d@),
        carries_no_null(d@),
    ensures
        unwire_spec(wire_spec(d@)) == Some(d@),
    decreases d.size(),
{
    let v = d@;
    let j = wire_spec(v);
    match d {
        Delta::Added(value) => {
            assert(j->Array_0.len() == 1);
        },
        Delta::Modified(l, r) => {
            assert(j->Array_0.len() == 2);
        },
        Delta::Deleted(value) => {
            assert(j->Array_0.len() == 3);
        },
        Delta::TextDiff(p) => {
            assert(j->Array_0.len() == 3);
        },
        Delta::Moved { moved_value, new_index } => {
            assert(j->Array_0.len() == 3);
            assert(new_index as u64 as usize == new_index);
        },
        Delta::Unchanged => {},
        Delta::Object(entries) => {
            let changes = delta_members(entries@);
            lemma_delta_members(entries@);
            let m = wire_members(v);
            assert(j == JsonView::Object(m));
            assert forall|key: Seq<char>| #[trigger] m.contains_key(key) implies member_unwire(
                j,
                key,
            ) == Some(changes[key]) by {
                let i = key_index(entries@, key);
                assert(entries@[i].0@ == key);
                assert(changes[entries@[i].0@] == entries@[i].1@);
                lemma_delta_member_sizes(entries@, i);
                assert(changes.contains_key(key));
                assert(member_serializable(v, key));
                assert(member_carries_no_null(v, key));
                assert(entries@[i].1.wf());
                law_wire_round_trip(entries@[i].1);
                assert(member_wire(v, key) == wire_spec(changes[key]));
            }
            if m.contains_key(array_marker_name()) {
                let key = array_marker_name();
                assert(changes.contains_key(key));
                assert(member_serializable(v, key));
                lemma_wire_is_no_string(changes[key]);
                assert(m[key] == wire_spec(changes[key]));
            }
            assert(!is_array_wire(j));
            assert(unwire_members(j) =~= changes);
        },
        Delta::Array(ops_list) => {
            let ops = delta_ops(ops_list@);
            lemma_delta_ops(ops_list@);
            let m = wire_elements(v);
            assert(j == JsonView::Object(m));
            assert(m.contains_key(array_marker_name()));
            assert(is_array_wire(j));
            assert forall|name: Seq<char>| #[trigger]
                m.contains_key(name) && name != array_marker_name() implies parse_index_name(name)
                is Some && member_unwire(j, name) == Some(ops[parse_index_name(name)->0]) by {
                let key = parse_index_name(name)->0;
                assert(ops.contains_key(key));
                let i = op_index(ops_list@, key);
                assert(ops_list@[i].0 == key);
                assert(ops[ops_list@[i].0] == ops_list@[i].1@);
                lemma_delta_op_sizes(ops_list@, i);
                assert(element_serializable(v, key));
                assert(element_carries_no_null(v, key));
                assert(ops_list@[i].1.wf());
                law_wire_round_trip(ops_list@[i].1);
                assert(element_wire(v, name) == wire_spec(ops[key]));
            }
            assert forall|key: ArrayDeltaIndex| unwire_elements(j).contains_key(key)
                <==> ops.contains_key(key) by {
                lemma_index_name(key);
            }
            assert forall|key: ArrayDeltaIndex| ops.contains_key(key) implies unwire_elements(
                j,
            )[key] == ops[key] by {
                lemma_index_name(key);
                assert(m.contains_key(index_name(key)));
            }
            assert(unwire_elements(j) =~= ops);
        },
    }
}

/// Whether one of two objects has a member under `key`.
pub open spec fn in_either(l: JsonView, r: JsonView, key: Seq<char>) -> bool {
    l->Object_0.contains_key(key) || r->Object_0.contains_key(key)
}

/// The diff tells the members under `key` of two objects apart: it takes an
/// absent member for null, so a member that is null must be null on the
/// other side too, and where the right member is null the left one must be.
pub open spec fn member_told_apart(l: JsonView, r: JsonView, key: Seq<char>, o: Options) -> bool
    decreases l, 0nat,
{
    match (l, r) {
        (JsonView::Object(lm), JsonView::Object(rm)) => {
            if lm.contains_key(key) && rm.contains_key(key) {
                !(rm[key] is Null && !(lm[key] is Null)) && told_apart(lm[key], rm[key], o)
            } else if lm.contains_key(key) {
                !(lm[key] is Null)
            } else if rm.contains_key(key) {
                !(rm[key] is Null)
            } else {
                true
            }
        },
        _ => true,
    }
}

/// The values on which a patch of the diff leads from `l` to `r`: those
/// between which the diff confuses no null member with an absent one, and
/// on whose long strings the patches that the text-diff library made fit
/// exactly and are applied by it.
pub open spec fn told_apart(l: JsonView, r: JsonView, o: Options) -> bool
    decreases l, 1nat,
{
    if l == r {
        true
    } else {
        match (l, r) {
            (JsonView::Object(_), JsonView::Object(_)) => forall|key: Seq<char>| #[trigger]
                in_either(l, r, key) ==> member_told_apart(l, r, key, o),
            (JsonView::String(a), JsonView::String(b)) => text_delta(a, b, o) is TextDiff
                ==> patched_text(text_delta(a, b, o)->TextDiff_0, a) == Some(b),
            _ => true,
        }
    }
}

/// What a patch makes of a value at the root: a value that is to become
/// null, and is not null, is deleted.
pub open spec fn led_to(from: JsonView, to: JsonView) -> Patched {
    if to is Null && !(from is Null) {
        Patched::Absent
    } else {
        Patched::Value(to)
    }
}

/// What the change of the member under `key` makes of the member: the
/// member of the right object, or nothing where that has none.
proof fn lemma_member_patched(l: Json, r: Json, o: Options, key: Seq<char>)
    requires
        l.wf(),
        r.wf(),
        l is Object,
        r is Object,
        l@ != r@,
        told_apart(l@, r@, o),
        in_either(l@, r@, key),
    ensures
        patch_spec(l@.get_or_null(key), member_delta(l@, r@, key, o)) == (if r@->Object_0.contains_key(
            key,
        ) {
            Patched::Value(r@->Object_0[key])
        } else {
            Patched::Absent
        }),
    decreases l.size(), 0nat,
{
    let le = l->Object_0;
    let re = r->Object_0;
    let lm = members(le@);
    let rm = members(re@);
    lemma_members(le@);
    lemma_members(re@);
    assert(member_told_apart(l@, r@, key, o));
    if lm.contains_key(key) && rm.contains_key(key) {
        let i = crate::json::key_index(le@, key);
        let j = crate::json::key_index(re@, key);
        assert(le@[i].0@ == key && re@[j].0@ == key);
        assert(lm[le@[i].0@] == le@[i].1@);
        assert(rm[re@[j].0@] == re@[j].1@);
        l.lemma_member_size(i);
        assert(le@[i].1.wf());
        assert(re@[j].1.wf());
        law_patch_of_diff(le@[i].1, re@[j].1, o);
    }
}

/// The members of the left object after the patch are those of the right
/// object.
proof fn lemma_members_patched(l: Json, r: Json, o: Options, key: Seq<char>)
    requires
        l.wf(),
        r.wf(),
        l is Object,
        r is Object,
        l@ != r@,
        told_apart(l@, r@, o),
    ensures
        object_changes(l@, r@, o).contains_key(key) ==> !(member_outcome(
            l@,
            DeltaView::Object(object_changes(l@, r@, o)),
            key,
        ) is Failure),
        patched_members(l@, DeltaView::Object(object_changes(l@, r@, o))).contains_key(key)
            <==> r@->Object_0.contains_key(key),
        r@->Object_0.contains_key(key) ==> patched_members(
            l@,
            DeltaView::Object(object_changes(l@, r@, o)),
        )[key] == r@->Object_0[key],
    decreases l.size(), 1nat,
{
    let lm = l@->Object_0;
    let rm = r@->Object_0;
    let changes = object_changes(l@, r@, o);
    let d = DeltaView::Object(changes);
    if lm.contains_key(key) || rm.contains_key(key) {
        assert(in_either(l@, r@, key));
        assert(member_told_apart(l@, r@, key, o));
        lemma_member_patched(l, r, o, key);
        if changes.contains_key(key) {
            assert(member_outcome(l@, d, key) == patch_spec(
                l@.get_or_null(key),
                member_delta(l@, r@, key, o),
            ));
        } else {
            assert(member_delta(l@, r@, key, o) is Unchanged);
        }
    } else {
        assert(member_delta(l@, r@, key, o) is Unchanged);
    }
}

/// Applying the diff of two values to the first gives the second.
///
/// The diff takes an absent member of an object for null. So the law holds
/// of the values between which no null member stands against an absent one
/// or, on the right, against one that is not null; and it rests on the
/// text-diff library applying the patches that it made.
pub proof fn law_patch_of_diff(l: Json, r: Json, o: Options)
    requires
        l.wf(),
        r.wf(),
        told_apart(l@, r@, o),
    ensures
        patch_spec(l@, diff_spec(l@, r@, o)) == led_to(l@, r@),
    decreases l.size(), 2nat,
{
    let lv = l@;
    let rv = r@;
    let d = diff_spec(lv, rv, o);
    if lv == rv {
    } else if rv is Null {
    } else if lv is Null {
    } else if lv is Bool || lv is Number || !lv.same_variant(rv) {
    } else {
        match (l, r) {
            (Json::String(a), Json::String(b)) => {},
            (Json::Array(a), Json::Array(b)) => {
                l.lemma_array_view();
                r.lemma_array_view();
                assert(a@.len() == a.len());
                assert(b@.len() == b.len());
                lemma_array_patch_of_diff(views(a@), views(b@), o);
            },
            (Json::Object(le), Json::Object(re)) => {
                let lm = lv->Object_0;
                let rm = rv->Object_0;
                let changes = object_changes(lv, rv, o);
                let made = DeltaView::Object(changes);
                let patched = patched_members(lv, made);
                assert forall|key: Seq<char>| #[trigger]
                    changes.contains_key(key) implies !(member_outcome(lv, made, key) is Failure) by {
                    lemma_members_patched(l, r, o, key);
                }
                assert forall|key: Seq<char>| patched.contains_key(key) <==> rm.contains_key(
                    key,
                ) by {
                    lemma_members_patched(l, r, o, key);
                }
                assert forall|key: Seq<char>| patched.contains_key(key) implies patched[key]
                    == rm[key] by {
                    lemma_members_patched(l, r, o, key);
                }
                assert(patched =~= rm);
                assert(patch_spec(lv, made) == Patched::Value(rv));
                if changes.dom() =~= Set::empty() {
                    assert forall|key: Seq<char>| lm.contains_key(key) <==> rm.contains_key(
                        key,
                    ) by {
                        lemma_members_patched(l, r, o, key);
                        assert(!changes.contains_key(key));
                    }
                    assert forall|key: Seq<char>| lm.contains_key(key) implies lm[key]
                        == rm[key] by {
                        lemma_members_patched(l, r, o, key);
                        assert(!changes.contains_key(key));
                    }
                    assert(lm =~= rm);
                }
            },
            _ => {},
        }
    }
}

/// The change of a member of the diff of two objects has a reversal, whose
/// reversal is the change.
proof fn lemma_member_reversible(l: Json, r: Json, o: Options, key: Seq<char>)
    requires
        l.wf(),
        r.wf(),
        l is Object,
        r is Object,
    ensures
        reverse_spec(member_delta(l@, r@, key, o)) is Some,
        reverse_spec(reverse_spec(member_delta(l@, r@, key, o))->0) == Some(
            member_delta(l@, r@, key, o),
        ),
    decreases l.size(), 0nat,
{
    let le = l->Object_0;
    let re = r->Object_0;
    let lm = members(le@);
    let rm = members(re@);
    lemma_members(le@);
    lemma_members(re@);
    if lm.contains_key(key) && rm.contains_key(key) {
        let i = crate::json::key_index(le@, key);
        let j = crate::json::key_index(re@, key);
        assert(le@[i].0@ == key && re@[j].0@ == key);
        assert(lm[le@[i].0@] == le@[i].1@);
        assert(rm[re@[j].0@] == re@[j].1@);
        l.lemma_member_size(i);
        assert(le@[i].1.wf());
        assert(re@[j].1.wf());
        law_reverse_twice(le@[i].1, re@[j].1, o);
    }
}

/// Reversing the diff of two values twice gives the diff back.
pub proof fn law_reverse_twice(l: Json, r: Json, o: Options)
    requires
        l.wf(),
        r.wf(),
    ensures
        reverse_spec(diff_spec(l@, r@, o)) is Some,
        reverse_spec(reverse_spec(diff_spec(l@, r@, o))->0) == Some(diff_spec(l@, r@, o)),
    decreases l.size(), 1nat,
{
    let lv = l@;
    let rv = r@;
    let d = diff_spec(lv, rv, o);
    if lv == rv {
    } else if rv is Null {
    } else if lv is Null {
    } else if lv is Bool || lv is Number || !lv.same_variant(rv) {
    } else {
        match (l, r) {
            (Json::String(a), Json::String(b)) => {
                if d is TextDiff {
                    lemma_reversed_text_twice(d->TextDiff_0);
                }
            },
            (Json::Array(a), Json::Array(b)) => {
                l.lemma_array_view();
                r.lemma_array_view();
                assert(a@.len() == a.len());
                assert(b@.len() == b.len());
                lemma_array_diff_reversed_twice(views(a@), views(b@), o);
            },
            (Json::Object(le), Json::Object(re)) => {
                let changes = object_changes(lv, rv, o);
                if !(changes.dom() =~= Set::empty()) {
                    assert(d == DeltaView::Object(changes));
                    assert forall|key: Seq<char>| #[trigger] changes.contains_key(key) implies !(
                    member_reverse(d, key) is None) by {
                        lemma_member_reversible(l, r, o, key);
                    }
                    let rev = DeltaView::Object(reversed_members(d));
                    assert(reverse_spec(d) == Some(rev));
                    let once = reversed_members(d);
                    assert forall|key: Seq<char>| #[trigger] once.contains_key(key) implies !(
                    member_reverse(rev, key) is None) by {
                        lemma_member_reversible(l, r, o, key);
                    }
                    let twice = reversed_members(rev);
                    assert forall|key: Seq<char>| twice.contains_key(key) implies twice[key]
                        == changes[key] by {
                        lemma_member_reversible(l, r, o, key);
                    }
                    assert(twice =~= changes);
                }
            },
            _ => {},
        }
    }
}

/// The reversed diff tells the members under `key` of two objects apart:
/// a member that is null must be null on the other side too, and where the
/// left member is null the right one must be.
pub open spec fn member_told_apart_back(l: JsonView, r: JsonView, key: Seq<char>, o: Options) -> bool
    decreases l, 0nat,
{
    match (l, r) {
        (JsonView::Object(lm), JsonView::Object(rm)) => {
            if lm.contains_key(key) && rm.contains_key(key) {
                !(lm[key] is Null && !(rm[key] is Null)) && told_apart_back(lm[key], rm[key], o)
            } else if lm.contains_key(key) {
                !(lm[key] is Null)
            } else if rm.contains_key(key) {
                !(rm[key] is Null)
            } else {
                true
            }
        },
        _ => true,
    }
}

/// The values on which a patch of the reversed diff leads from `r` back to
/// `l`: those between which the diff confuses no null member with an
/// absent one, and on whose long strings the reversal of the patches that
/// the text-diff library made fits exactly and is applied by it.
pub open spec fn told_apart_back(l: JsonView, r: JsonView, o: Options) -> bool
    decreases l, 1nat,
{
    if l == r {
        true
    } else {
        match (l, r) {
            (JsonView::Object(_), JsonView::Object(_)) => forall|key: Seq<char>| #[trigger]
                in_either(l, r, key) ==> member_told_apart_back(l, r, key, o),
            (JsonView::String(a), JsonView::String(b)) => text_delta(a, b, o) is TextDiff
                ==> patched_text(reversed_text(text_delta(a, b, o)->TextDiff_0), b) == Some(a),
            _ => true,
        }
    }
}

/// What the reversed change of the member under `key` makes of the right
/// member: the member of the left object, or nothing where that has none.
proof fn lemma_member_patched_back(l: Json, r: Json, o: Options, key: Seq<char>)
    requires
        l.wf(),
        r.wf(),
        l is Object,
        r is Object,
        l@ != r@,
        !o.spec_omit_removed_values(),
        told_apart_back(l@, r@, o),
        in_either(l@, r@, key),
    ensures
        reverse_spec(member_delta(l@, r@, key, o)) is Some,
        patch_spec(r@.get_or_null(key), reverse_spec(member_delta(l@, r@, key, o))->0) == (
        if l@->Object_0.contains_key(key) {
            Patched::Value(l@->Object_0[key])
        } else {
            Patched::Absent
        }),
    decreases l.size(), 0nat,
{
    let le = l->Object_0;
    let re = r->Object_0;
    let lm = members(le@);
    let rm = members(re@);
    lemma_members(le@);
    lemma_members(re@);
    assert(member_told_apart_back(l@, r@, key, o));
    if lm.contains_key(key) && rm.contains_key(key) {
        let i = crate::json::key_index(le@, key);
        let j = crate::json::key_index(re@, key);
        assert(le@[i].0@ == key && re@[j].0@ == key);
        assert(lm[le@[i].0@] == le@[i].1@);
        assert(rm[re@[j].0@] == re@[j].1@);
        l.lemma_member_size(i);
        assert(le@[i].1.wf());
        assert(re@[j].1.wf());
        law_patch_back(le@[i].1, re@[j].1, o);
    }
}

/// The members of the right object after the patch back are those of the
/// left object.
proof fn lemma_members_patched_back(l: Json, r: Json, o: Options, key: Seq<char>)
    requires
        l.wf(),
        r.wf(),
        l is Object,
        r is Object,
        l@ != r@,
        !o.spec_omit_removed_values(),
        told_apart_back(l@, r@, o),
    ensures
        object_changes(l@, r@, o).contains_key(key) ==> reverse_spec(
            member_delta(l@, r@, key, o),
        ) is Some && !(patch_spec(
            r@.get_or_null(key),
            reverse_spec(member_delta(l@, r@, key, o))->0,
        ) is Failure),
        (if object_changes(l@, r@, o).contains_key(key) {
            patch_spec(r@.get_or_null(key), reverse_spec(member_delta(l@, r@, key, o))->0)
                is Value
        } else {
            r@->Object_0.contains_key(key)
        }) <==> l@->Object_0.contains_key(key),
        l@->Object_0.contains_key(key) ==> (if object_changes(l@, r@, o).contains_key(key) {
            patch_spec(
                r@.get_or_null(key),
                reverse_spec(member_delta(l@, r@, key, o))->0,
            )->Value_0
        } else {
            r@->Object_0[key]
        }) == l@->Object_0[key],
    decreases l.size(), 1nat,
{
    let lm = l@->Object_0;
    let rm = r@->Object_0;
    let changes = object_changes(l@, r@, o);
    if lm.contains_key(key) || rm.contains_key(key) {
        assert(in_either(l@, r@, key));
        assert(member_told_apart_back(l@, r@, key, o));
        lemma_member_patched_back(l, r, o, key);
        if !changes.contains_key(key) {
            assert(member_delta(l@, r@, key, o) is Unchanged);
        }
    } else {
        assert(member_delta(l@, r@, key, o) is Unchanged);
    }
}

/// Applying the reversed diff of two values to the second gives the first.
///
/// The law holds where the delta holds the values that it removes. The
/// diff takes an absent member of an object for null. So the law holds of
/// the values between which no null member stands against an absent one
/// or, on the left, against one that is not null; and it rests on the
/// text-diff library applying the reversal of the patches that it made.
pub proof fn law_patch_back(l: Json, r: Json, o: Options)
    requires
        l.wf(),
        r.wf(),
        !o.spec_omit_removed_values(),
        told_apart_back(l@, r@, o),
    ensures
        reverse_spec(diff_spec(l@, r@, o)) is Some,
        patch_spec(r@, reverse_spec(diff_spec(l@, r@, o))->0) == led_to(r@, l@),
    decreases l.size(), 2nat,
{
    let lv = l@;
    let rv = r@;
    let d = diff_spec(lv, rv, o);
    if lv == rv {
    } else if rv is Null {
    } else if lv is Null {
    } else if lv is Bool || lv is Number || !lv.same_variant(rv) {
    } else {
        match (l, r) {
            (Json::String(a), Json::String(b)) => {},
            (Json::Array(a), Json::Array(b)) => {
                l.lemma_array_view();
                r.lemma_array_view();
                assert(a@.len() == a.len());
                assert(b@.len() == b.len());
                lemma_array_patch_back(views(a@), views(b@), o);
            },
            (Json::Object(le), Json::Object(re)) => {
                let lm = lv->Object_0;
                let rm = rv->Object_0;
                let changes = object_changes(lv, rv, o);
                if changes.dom() =~= Set::empty() {
                    assert forall|key: Seq<char>| lm.contains_key(key) <==> rm.contains_key(
                        key,
                    ) by {
                        lemma_members_patched_back(l, r, o, key);
                        assert(!changes.contains_key(key));
                    }
                    assert forall|key: Seq<char>| lm.contains_key(key) implies lm[key]
                        == rm[key] by {
                        lemma_members_patched_back(l, r, o, key);
                        assert(!changes.contains_key(key));
                    }
                    assert(lm =~= rm);
                } else {
                    assert(d == DeltaView::Object(changes));
                    assert forall|key: Seq<char>| #[trigger] changes.contains_key(key) implies !(
                    member_reverse(d, key) is None) by {
                        lemma_members_patched_back(l, r, o, key);
                    }
                    let rev = DeltaView::Object(reversed_members(d));
                    assert(reverse_spec(d) == Some(rev));
                    let once = reversed_members(d);
                    assert forall|key: Seq<char>| #[trigger] once.contains_key(key) implies !(
                    member_outcome(rv, rev, key) is Failure) by {
                        lemma_members_patched_back(l, r, o, key);
                    }
                    let patched = patched_members(rv, rev);
                    assert forall|key: Seq<char>| patched.contains_key(key) <==> lm.contains_key(
                        key,
                    ) by {
                        lemma_members_patched_back(l, r, o, key);
                    }
                    assert forall|key: Seq<char>| patched.contains_key(key) implies patched[key]
                        == lm[key] by {
                        lemma_members_patched_back(l, r, o, key);
                    }
                    assert(patched =~= lm);
                }
            },
            _ => {},
        }
    }
}

/// The change of a member of the diff of two objects is "no change" or has
/// a wire form.
proof fn lemma_member_has_wire_form(l: Json, r: Json, o: Options, key: Seq<char>)
    requires
        l.wf(),
        r.wf(),
        l is Object,
        r is Object,
    ensures
        member_delta(l@, r@, key, o) is Unchanged || serializable(member_delta(l@, r@, key, o)),
    decreases l.size(), 0nat,
{
    let le = l->Object_0;
    let re = r->Object_0;
    let lm = members(le@);
    let rm = members(re@);
    lemma_members(le@);
    lemma_members(re@);
    if lm.contains_key(key) && rm.contains_key(key) {
        let i = crate::json::key_index(le@, key);
        let j = crate::json::key_index(re@, key);
        assert(le@[i].0@ == key && re@[j].0@ == key);
        assert(lm[le@[i].0@] == le@[i].1@);
        assert(rm[re@[j].0@] == re@[j].1@);
        l.lemma_member_size(i);
        assert(le@[i].1.wf());
        assert(re@[j].1.wf());
        law_diff_has_wire_form(le@[i].1, re@[j].1, o);
    }
}

/// A diff that finds a change holds "no change" nowhere, so it has a wire
/// form.
pub proof fn law_diff_has_wire_form(l: Json, r: Json, o: Options)
    requires
        l.wf(),
        r.wf(),
    ensures
        diff_spec(l@, r@, o) is Unchanged || serializable(diff_spec(l@, r@, o)),
    decreases l.size(), 1nat,
{
    let lv = l@;
    let rv = r@;
    let d = diff_spec(lv, rv, o);
    if lv == rv {
    } else if rv is Null {
    } else if lv is Null {
    } else if lv is Bool || lv is Number || !lv.same_variant(rv) {
    } else {
        match (l, r) {
            (Json::String(a), Json::String(b)) => {},
            (Json::Array(a), Json::Array(b)) => {
                l.lemma_array_view();
                r.lemma_array_view();
                let ops = crate::semantics::diff::array_ops(views(a@), views(b@), o);
                assert(d == DeltaView::Array(ops));
                assert forall|key: ArrayDeltaIndex| #[trigger]
                    ops.contains_key(key) implies element_serializable(d, key) by {}
            },
            (Json::Object(le), Json::Object(re)) => {
                let changes = object_changes(lv, rv, o);
                if !(changes.dom() =~= Set::empty()) {
                    assert forall|key: Seq<char>| #[trigger]
                        changes.contains_key(key) implies member_serializable(d, key) by {
                        lemma_member_has_wire_form(l, r, o, key);
                    }
                }
            },
            _ => {},
        }
    }
}

} // verus!
