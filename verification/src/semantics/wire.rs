//! The wire form of deltas: how a delta is written as a JSON value, and how
//! it is read back.

use crate::decimal::{decimal, lemma_decimal_parses, lemma_parse_is_decimal, parse_decimal};
use crate::json::{JsonView, Number};
use crate::types::{ArrayDeltaIndex, DeltaView, MagicNumber};
use vstd::prelude::*;

verus! {

/// The name of a key of an array delta in the wire form: the position in
/// decimal, with an underscore before it for a position of the old array.
pub open spec fn index_name(key: ArrayDeltaIndex) -> Seq<char> {
    match key {
        ArrayDeltaIndex::NewOrModified(i) => decimal(i as nat),
        ArrayDeltaIndex::RemovedOrMoved(i) => seq!['_'] + decimal(i as nat),
    }
}

/// The key that a name of the wire form stands for.
pub open spec fn parse_index_name(name: Seq<char>) -> Option<ArrayDeltaIndex> {
    if name.len() > 0 && name[0] == '_' {
        match parse_decimal(name.subrange(1, name.len() as int)) {
            Some(n) => if n <= usize::MAX {
                Some(ArrayDeltaIndex::RemovedOrMoved(n as usize))
            } else {
                None
            },
            None => None,
        }
    } else {
        match parse_decimal(name) {
            Some(n) => if n <= usize::MAX {
                Some(ArrayDeltaIndex::NewOrModified(n as usize))
            } else {
                None
            },
            None => None,
        }
    }
}

/// The name of the member that marks the wire form of an array delta.
pub open spec fn array_marker_name() -> Seq<char> {
    seq!['_', 't']
}

/// The value of the member that marks the wire form of an array delta.
pub open spec fn array_marker() -> JsonView {
    JsonView::String(seq!['a'])
}

/// The number that closes a three-element array of the wire form.
pub open spec fn magic(m: MagicNumber) -> JsonView {
    JsonView::Number(Number::PosInt(m.spec_code()))
}

/// A name is read back as the key that it was written for, and is none of
/// the marker.
pub proof fn lemma_index_name(key: ArrayDeltaIndex)
    ensures
        parse_index_name(index_name(key)) == Some(key),
        index_name(key) != array_marker_name(),
{
    let i = key.spec_index() as nat;
    lemma_decimal_parses(i);
    match key {
        ArrayDeltaIndex::NewOrModified(_) => {
            let name = decimal(i);
            assert(crate::decimal::digit_value(name[0]) is Some);
        },
        ArrayDeltaIndex::RemovedOrMoved(_) => {
            let name = seq!['_'] + decimal(i);
            assert(name.subrange(1, name.len() as int) =~= decimal(i));
            assert(name[1] == decimal(i)[0]);
            assert(crate::decimal::digit_value(decimal(i)[0]) is Some);
            if name == array_marker_name() {
                assert(name[1] == 't');
            }
        },
    }
}

/// Only one name stands for a key.
pub proof fn lemma_parse_index_name(name: Seq<char>)
    requires
        parse_index_name(name) is Some,
    ensures
        name == index_name(parse_index_name(name)->0),
{
    if name.len() > 0 && name[0] == '_' {
        let rest = name.subrange(1, name.len() as int);
        lemma_parse_is_decimal(rest);
        assert(name =~= seq!['_'] + rest);
    } else {
        lemma_parse_is_decimal(name);
    }
}

/// The value that a move carries, or null where it carries none.
pub open spec fn value_or_null(moved_value: Option<JsonView>) -> JsonView {
    match moved_value {
        Some(v) => v,
        None => JsonView::Null,
    }
}

/// The deltas that have a wire form: those that hold "no change" nowhere.
pub open spec fn serializable(d: DeltaView) -> bool
    decreases d, 1nat,
{
    match d {
        DeltaView::Unchanged => false,
        DeltaView::Object(changes) => forall|key: Seq<char>| #[trigger]
            changes.contains_key(key) ==> member_serializable(d, key),
        DeltaView::Array(ops) => forall|key: ArrayDeltaIndex| #[trigger]
            ops.contains_key(key) ==> element_serializable(d, key),
        _ => true,
    }
}

/// Whether the delta under `key` of an object delta has a wire form.
pub open spec fn member_serializable(d: DeltaView, key: Seq<char>) -> bool
    decreases d, 0nat,
{
    match d {
        DeltaView::Object(changes) => changes.contains_key(key) && serializable(changes[key]),
        _ => false,
    }
}

/// Whether the delta under `key` of an array delta has a wire form.
pub open spec fn element_serializable(d: DeltaView, key: ArrayDeltaIndex) -> bool
    decreases d, 0nat,
{
    match d {
        DeltaView::Array(ops) => ops.contains_key(key) && serializable(ops[key]),
        _ => false,
    }
}

/// The wire form of the delta under `key` of an object delta.
pub open spec fn member_wire(d: DeltaView, key: Seq<char>) -> JsonView
    decreases d, 0nat,
{
    match d {
        DeltaView::Object(changes) => if changes.contains_key(key) {
            wire_spec(changes[key])
        } else {
            JsonView::Null
        },
        _ => JsonView::Null,
    }
}

/// The wire form of the delta under the key that `name` stands for, of an
/// array delta.
pub open spec fn element_wire(d: DeltaView, name: Seq<char>) -> JsonView
    decreases d, 0nat,
{
    match d {
        DeltaView::Array(ops) => match parse_index_name(name) {
            Some(key) => if ops.contains_key(key) {
                wire_spec(ops[key])
            } else {
                JsonView::Null
            },
            None => JsonView::Null,
        },
        _ => JsonView::Null,
    }
}

/// The members of the wire form of an object delta.
pub open spec fn wire_members(d: DeltaView) -> Map<Seq<char>, JsonView>
    decreases d, 1nat,
{
    Map::new(|key: Seq<char>| d->Object_0.contains_key(key), |key: Seq<char>| member_wire(d, key))
}

/// The members of the wire form of an array delta: the marker, and each
/// operation under the name of its key.
pub open spec fn wire_elements(d: DeltaView) -> Map<Seq<char>, JsonView>
    decreases d, 1nat,
{
    Map::new(
        |name: Seq<char>|
            name == array_marker_name() || (parse_index_name(name) matches Some(key)
                && d->Array_0.contains_key(key)),
        |name: Seq<char>|
            if name == array_marker_name() {
                array_marker()
            } else {
                element_wire(d, name)
            },
    )
}

/// The wire form of a delta.
///
/// An addition is `[new]`, a replacement `[old, new]`, a deletion
/// `[old, null, 0]`, a text diff `[patch, null, 2]` and a move
/// `[value or null, target, 3]`. An object delta is an object of the wire
/// forms of its members. An array delta is an object with the member
/// `"_t": "a"` and the wire form of each operation under the name of its
/// key.
pub open spec fn wire_spec(d: DeltaView) -> JsonView
    decreases d, 2nat,
{
    match d {
        DeltaView::Added(v) => JsonView::Array(seq![v]),
        DeltaView::Modified(l, r) => JsonView::Array(seq![l, r]),
        DeltaView::Deleted(v) => JsonView::Array(
            seq![v, JsonView::Null, magic(MagicNumber::Deleted)],
        ),
        DeltaView::TextDiff(p) => JsonView::Array(
            seq![JsonView::String(p), JsonView::Null, magic(MagicNumber::UndefinedDiff)],
        ),
        DeltaView::Moved { moved_value, new_index } => JsonView::Array(
            seq![
                value_or_null(moved_value),
                JsonView::Number(Number::PosInt(new_index as u64)),
                magic(MagicNumber::ArrayMoved),
            ],
        ),
        DeltaView::Object(_) => JsonView::Object(wire_members(d)),
        DeltaView::Array(_) => JsonView::Object(wire_elements(d)),
        DeltaView::Unchanged => JsonView::Null,
    }
}

/// The delta that the member under `key` of a wire form stands for.
pub open spec fn member_unwire(j: JsonView, key: Seq<char>) -> Option<DeltaView>
    decreases j, 0nat,
{
    match j {
        JsonView::Object(m) => if m.contains_key(key) {
            unwire_spec(m[key])
        } else {
            None
        },
        _ => None,
    }
}

/// Whether a wire form is that of an array delta.
pub open spec fn is_array_wire(j: JsonView) -> bool {
    j is Object && j->Object_0.contains_key(array_marker_name()) && j->Object_0[array_marker_name()]
        == array_marker()
}

/// The members read back from the wire form of an object delta.
pub open spec fn unwire_members(j: JsonView) -> Map<Seq<char>, DeltaView>
    decreases j, 1nat,
{
    Map::new(
        |key: Seq<char>| j->Object_0.contains_key(key),
        |key: Seq<char>| member_unwire(j, key)->0,
    )
}

/// The operations read back from the wire form of an array delta.
pub open spec fn unwire_elements(j: JsonView) -> Map<ArrayDeltaIndex, DeltaView>
    decreases j, 1nat,
{
    Map::new(
        |key: ArrayDeltaIndex| j->Object_0.contains_key(index_name(key)),
        |key: ArrayDeltaIndex| member_unwire(j, index_name(key))->0,
    )
}

/// The delta that a three-element array of the wire form stands for.
pub open spec fn unwire_triple(first: JsonView, second: JsonView, third: JsonView) -> Option<
    DeltaView,
> {
    if third == magic(MagicNumber::Deleted) {
        Some(DeltaView::Deleted(first))
    } else if third == magic(MagicNumber::UndefinedDiff) {
        match first {
            JsonView::String(p) => Some(DeltaView::TextDiff(p)),
            _ => None,
        }
    } else if third == magic(MagicNumber::ArrayMoved) {
        match second {
            JsonView::Number(Number::PosInt(to)) => if to <= usize::MAX {
                Some(
                    DeltaView::Moved {
                        moved_value: if first is Null {
                            None
                        } else {
                            Some(first)
                        },
                        new_index: to as usize,
                    },
                )
            } else {
                None
            },
            _ => None,
        }
    } else {
        None
    }
}

/// The delta that a JSON value stands for as a wire form; `None` where it
/// is the wire form of no delta.
pub open spec fn unwire_spec(j: JsonView) -> Option<DeltaView>
    decreases j, 2nat,
{
    match j {
        JsonView::Array(items) => {
            if items.len() == 1 {
                Some(DeltaView::Added(items[0]))
            } else if items.len() == 2 {
                Some(DeltaView::Modified(items[0], items[1]))
            } else if items.len() == 3 {
                unwire_triple(items[0], items[1], items[2])
            } else {
                None
            }
        },
        JsonView::Object(m) => {
            if is_array_wire(j) {
                if forall|name: Seq<char>| #[trigger]
                    m.contains_key(name) && name != array_marker_name() ==> parse_index_name(name)
                        is Some && member_unwire(j, name) is Some {
                    Some(DeltaView::Array(unwire_elements(j)))
                } else {
                    None
                }
            } else {
                if forall|name: Seq<char>| #[trigger]
                    m.contains_key(name) ==> member_unwire(j, name) is Some {
                    Some(DeltaView::Object(unwire_members(j)))
                } else {
                    None
                }
            }
        },
        _ => None,
    }
}

/// No move of the delta carries null as its value. The wire form writes a
/// move without a value as one with null, so a move that carries null is
/// not read back as it was.
pub open spec fn carries_no_null(d: DeltaView) -> bool
    decreases d, 1nat,
{
    match d {
        DeltaView::Moved { moved_value, .. } => moved_value != Some(JsonView::Null),
        DeltaView::Object(changes) => forall|key: Seq<char>| #[trigger]
            changes.contains_key(key) ==> member_carries_no_null(d, key),
        DeltaView::Array(ops) => forall|key: ArrayDeltaIndex| #[trigger]
            ops.contains_key(key) ==> element_carries_no_null(d, key),
        _ => true,
    }
}

pub open spec fn member_carries_no_null(d: DeltaView, key: Seq<char>) -> bool
    decreases d, 0nat,
{
    match d {
        DeltaView::Object(changes) => changes.contains_key(key) && carries_no_null(changes[key]),
        _ => false,
    }
}

pub open spec fn element_carries_no_null(d: DeltaView, key: ArrayDeltaIndex) -> bool
    decreases d, 0nat,
{
    match d {
        DeltaView::Array(ops) => ops.contains_key(key) && carries_no_null(ops[key]),
        _ => false,
    }
}

} // verus!
