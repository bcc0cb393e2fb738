//! Writing deltas in their wire form, and reading them back.

use crate::decimal::{parse_index, push_decimal};
use crate::json::{
    distinct_keys, find_key, has_key, key_index, lemma_members, lemma_views, members, views, Json,
    JsonView, Number,
};
use crate::semantics::wire::{
    array_marker, array_marker_name, element_serializable, index_name, is_array_wire,
    lemma_index_name, lemma_parse_index_name, magic, member_serializable, member_unwire,
    parse_index_name, serializable, unwire_elements, unwire_members, unwire_spec, unwire_triple,
    wire_elements, wire_members, wire_spec,
};
use crate::types::{
    delta_members, delta_ops, distinct_ops, has_op, lemma_delta_member_sizes,
    lemma_delta_members, lemma_delta_op_sizes, lemma_delta_ops, op_index, ArrayDeltaIndex, Delta,
    DeltaView, MagicNumber,
};
use vstd::prelude::*;
use vstd::string::StringExecFns;

verus! {

impl ArrayDeltaIndex {
    /// The name of the key in the wire form.
    pub fn serialize(&self) -> (r: String)
        ensures
            r@ == index_name(*self),
    {
        let mut out = String::new();
        match self {
            ArrayDeltaIndex::NewOrModified(index) => {
                push_decimal(&mut out, *index);
                assert(out@ =~= index_name(*self));
            },
            ArrayDeltaIndex::RemovedOrMoved(index) => {
                proof {
                    reveal_strlit("_");
                }
                out.append("_");
                push_decimal(&mut out, *index);
                assert(out@ =~= index_name(*self));
            },
        }
        out
    }

    /// The key that a name of the wire form stands for.
    pub fn parse(name: &str) -> (r: Option<ArrayDeltaIndex>)
        ensures
            r == parse_index_name(name@),
    {
        let len = name.unicode_len();
        if len > 0 && name.get_char(0) == '_' {
            match parse_index(name, 1) {
                Some(index) => Some(ArrayDeltaIndex::RemovedOrMoved(index)),
                None => None,
            }
        } else {
            proof {
                assert(name@.subrange(0, name@.len() as int) =~= name@);
            }
            match parse_index(name, 0) {
                Some(index) => Some(ArrayDeltaIndex::NewOrModified(index)),
                None => None,
            }
        }
    }
}

/// The name of the member that marks the wire form of an array delta.
fn marker_name() -> (r: String)
    ensures
        r@ == array_marker_name(),
{
    proof {
        reveal_strlit("_t");
    }
    let r = String::from_str("_t");
    assert(r@ =~= array_marker_name());
    r
}

/// The value of the member that marks the wire form of an array delta.
fn marker_value() -> (r: Json)
    ensures
        r@ == array_marker(),
        r.wf(),
{
    proof {
        reveal_strlit("a");
    }
    let s = String::from_str("a");
    assert(s@ =~= seq!['a']);
    Json::String(s)
}

/// An array of the given values.
fn json_array(items: Vec<Json>) -> (r: Json)
    requires
        forall|i: int| 0 <= i < items@.len() ==> (#[trigger] items@[i]).wf(),
    ensures
        r@ == JsonView::Array(views(items@)),
        r.wf(),
{
    let r = Json::Array(items);
    proof {
        r.lemma_array_view();
    }
    r
}

impl Delta {
    /// Whether the delta has a wire form: it holds "no change" nowhere.
    pub fn is_serializable(&self) -> (r: bool)
        requires
            self.wf(),
        ensures
            r == serializable(self@),
        decreases self.size(),
    {
        match self {
            Delta::Unchanged => false,
            Delta::Object(entries) => {
                proof {
                    lemma_delta_members(entries@);
                }
                let mut i: usize = 0;
                while i < entries.len()
                    invariant
                        0 <= i <= entries@.len(),
                        *self == Delta::Object(*entries),
                        self.wf(),
                        forall|j: int| 0 <= j < i ==> serializable((#[trigger] entries@[j]).1@),
                    decreases entries@.len() - i,
                {
                    proof {
                        lemma_delta_member_sizes(entries@, i as int);
                        lemma_delta_members(entries@);
                        assert(entries@[i as int].1.wf());
                    }
                    if !entries[i].1.is_serializable() {
                        proof {
                            let key = entries@[i as int].0@;
                            assert(delta_members(entries@).contains_key(key));
                            assert(!member_serializable(self@, key));
                        }
                        return false;
                    }
                    i += 1;
                }
                proof {
                    lemma_delta_members(entries@);
                    assert forall|key: Seq<char>| #[trigger]
                        delta_members(entries@).contains_key(key) implies member_serializable(
                        self@,
                        key,
                    ) by {
                        let j = key_index(entries@, key);
                        assert(serializable(entries@[j].1@));
                    }
                }
                true
            },
            Delta::Array(ops) => {
                let mut i: usize = 0;
                while i < ops.len()
                    invariant
                        0 <= i <= ops@.len(),
                        *self == Delta::Array(*ops),
                        self.wf(),
                        forall|j: int| 0 <= j < i ==> serializable((#[trigger] ops@[j]).1@),
                    decreases ops@.len() - i,
                {
                    proof {
                        lemma_delta_op_sizes(ops@, i as int);
                        lemma_delta_ops(ops@);
                        assert(ops@[i as int].1.wf());
                    }
                    if !ops[i].1.is_serializable() {
                        proof {
                            let key = ops@[i as int].0;
                            assert(delta_ops(ops@).contains_key(key));
                            assert(!element_serializable(self@, key));
                        }
                        return false;
                    }
                    i += 1;
                }
                proof {
                    lemma_delta_ops(ops@);
                    assert forall|key: ArrayDeltaIndex| #[trigger]
                        delta_ops(ops@).contains_key(key) implies element_serializable(
                        self@,
                        key,
                    ) by {
                        let j = op_index(ops@, key);
                        assert(serializable(ops@[j].1@));
                    }
                }
                true
            },
            _ => true,
        }
    }

    /// The wire form of the delta.
    pub fn serialize(&self) -> (r: Json)
        requires
            self.wf(),
            serializable(self@),
        ensures
            r@ == wire_spec(self@),
            r.wf(),
        decreases self.size(),
    {
        let ghost d = self@;
        match self {
            Delta::Added(new_value) => {
                let mut seq: Vec<Json> = Vec::new();
                seq.push(new_value.clone());
                proof {
                    lemma_views(seq@);
                    assert(views(seq@) =~= seq![new_value@]);
                }
                let r = json_array(seq);
                assert(r@ == wire_spec(d));
                r
            },
            Delta::Modified(old_value, new_value) => {
                let mut seq: Vec<Json> = Vec::new();
                seq.push(old_value.clone());
                seq.push(new_value.clone());
                proof {
                    lemma_views(seq@);
                    assert(views(seq@) =~= seq![old_value@, new_value@]);
                }
                let r = json_array(seq);
                assert(r@ == wire_spec(d));
                r
            },
            Delta::Deleted(deleted) => {
                let mut seq: Vec<Json> = Vec::new();
                seq.push(deleted.clone());
                seq.push(Json::Null);
                seq.push(MagicNumber::Deleted.to_json());
                proof {
                    lemma_views(seq@);
                    assert(views(seq@) =~= seq![
                        deleted@,
                        JsonView::Null,
                        magic(MagicNumber::Deleted),
                    ]);
                }
                let r = json_array(seq);
                assert(r@ == wire_spec(d));
                r
            },
            Delta::TextDiff(uni_diff) => {
                let mut seq: Vec<Json> = Vec::new();
                seq.push(Json::String(uni_diff.clone()));
                seq.push(Json::Null);
                seq.push(MagicNumber::UndefinedDiff.to_json());
                proof {
                    lemma_views(seq@);
                    assert(views(seq@) =~= seq![
                        JsonView::String(uni_diff@),
                        JsonView::Null,
                        magic(MagicNumber::UndefinedDiff),
                    ]);
                }
                let r = json_array(seq);
                assert(r@ == wire_spec(d));
                r
            },
            Delta::Moved { moved_value, new_index } => {
                let mut seq: Vec<Json> = Vec::new();
                let first = match moved_value {
                    Some(v) => v.clone(),
                    None => Json::Null,
                };
                let ghost carried = d->moved_value;
                proof {
                    assert(*self == Delta::Moved { moved_value: *moved_value, new_index: *new_index });
                    assert(d->new_index == *new_index);
                    assert(first@ == crate::semantics::wire::value_or_null(carried));
                }
                seq.push(first);
                seq.push(Json::Number(Number::PosInt(*new_index as u64)));
                seq.push(MagicNumber::ArrayMoved.to_json());
                proof {
                    lemma_views(seq@);
                    assert(views(seq@) =~= seq![
                        first@,
                        JsonView::Number(Number::PosInt(*new_index as u64)),
                        magic(MagicNumber::ArrayMoved),
                    ]);
                    assert(d == DeltaView::Moved { moved_value: carried, new_index: *new_index });
                    assert(wire_spec(d) == JsonView::Array(
                        seq![
                            first@,
                            JsonView::Number(Number::PosInt(*new_index as u64)),
                            magic(MagicNumber::ArrayMoved),
                        ],
                    ));
                }
                let r = json_array(seq);
                assert(r@ == wire_spec(d));
                r
            },
            Delta::Unchanged => Json::Null,
            Delta::Object(value) => {
                let ghost changes = delta_members(value@);
                proof {
                    lemma_delta_members(value@);
                }
                let mut map: Vec<(String, Json)> = Vec::new();
                let mut i: usize = 0;
                while i < value.len()
                    invariant
                        0 <= i <= value@.len(),
                        *self == Delta::Object(*value),
                        self.wf(),
                        serializable(self@),
                        d == self@,
                        changes == delta_members(value@),
                        map@.len() == i,
                        forall|j: int|
                            0 <= j < i ==> (#[trigger] map@[j]).0@ == value@[j].0@ && map@[j].1@
                                == wire_spec(value@[j].1@) && map@[j].1.wf(),
                    decreases value@.len() - i,
                {
                    proof {
                        lemma_delta_member_sizes(value@, i as int);
                        lemma_delta_members(value@);
                        let key = value@[i as int].0@;
                        assert(changes.contains_key(key));
                        assert(member_serializable(d, key));
                        assert(value@[i as int].1.wf());
                    }
                    map.push((value[i].0.clone(), value[i].1.serialize()));
                    i += 1;
                }
                proof {
                    lemma_delta_members(value@);
                    assert forall|a: int, b: int|
                        0 <= a < map@.len() && 0 <= b < map@.len() && a != b implies (
                    #[trigger] map@[a]).0@ != (#[trigger] map@[b]).0@ by {
                        assert(value@[a].0@ != value@[b].0@);
                    }
                    lemma_members(map@);
                    let made = members(map@);
                    let wanted = wire_members(d);
                    assert forall|key: Seq<char>| made.contains_key(key) <==> wanted.contains_key(
                        key,
                    ) by {
                        if has_key(map@, key) {
                            let j = key_index(map@, key);
                            assert(value@[j].0@ == key);
                        }
                        if has_key(value@, key) {
                            let j = key_index(value@, key);
                            assert(map@[j].0@ == key);
                        }
                    }
                    assert forall|key: Seq<char>| made.contains_key(key) implies made[key]
                        == wanted[key] by {
                        let j = key_index(map@, key);
                        assert(made[map@[j].0@] == map@[j].1@);
                        assert(changes[value@[j].0@] == value@[j].1@);
                    }
                    assert(made =~= wanted);
                }
                let r = Json::Object(map);
                assert(r@ == wire_spec(d));
                assert(r.wf());
                r
            },
            Delta::Array(array_changes) => {
                let ghost ops = delta_ops(array_changes@);
                proof {
                    lemma_delta_ops(array_changes@);
                }
                let mut map: Vec<(String, Json)> = Vec::new();
                map.push((marker_name(), marker_value()));
                let mut i: usize = 0;
                while i < array_changes.len()
                    invariant
                        0 <= i <= array_changes@.len(),
                        *self == Delta::Array(*array_changes),
                        self.wf(),
                        serializable(self@),
                        d == self@,
                        ops == delta_ops(array_changes@),
                        map@.len() == i + 1,
                        map@[0].0@ == array_marker_name(),
                        map@[0].1@ == array_marker(),
                        map@[0].1.wf(),
                        forall|j: int|
                            0 <= j < i ==> (#[trigger] map@[j + 1]).0@ == index_name(
                                array_changes@[j].0,
                            ) && map@[j + 1].1@ == wire_spec(array_changes@[j].1@) && map@[j
                                + 1].1.wf(),
                    decreases array_changes@.len() - i,
                {
                    proof {
                        lemma_delta_op_sizes(array_changes@, i as int);
                        lemma_delta_ops(array_changes@);
                        let key = array_changes@[i as int].0;
                        assert(ops.contains_key(key));
                        assert(element_serializable(d, key));
                        assert(array_changes@[i as int].1.wf());
                    }
                    let ghost before = map@;
                    map.push((array_changes[i].0.serialize(), array_changes[i].1.serialize()));
                    proof {
                        assert forall|j: int| 0 <= j < i + 1 implies (#[trigger] map@[j + 1]).0@
                            == index_name(array_changes@[j].0) && map@[j + 1].1@ == wire_spec(
                            array_changes@[j].1@,
                        ) && map@[j + 1].1.wf() by {
                            if j < i {
                                assert(map@[j + 1] == before[j + 1]);
                            }
                        }
                    }
                    i += 1;
                }
                proof {
                    lemma_delta_ops(array_changes@);
                    assert forall|a: int, b: int|
                        0 <= a < map@.len() && 0 <= b < map@.len() && a != b implies (
                    #[trigger] map@[a]).0@ != (#[trigger] map@[b]).0@ by {
                        if a > 0 {
                            assert(map@[(a - 1) + 1].0@ == index_name(array_changes@[a - 1].0));
                            lemma_index_name(array_changes@[a - 1].0);
                        }
                        if b > 0 {
                            assert(map@[(b - 1) + 1].0@ == index_name(array_changes@[b - 1].0));
                            lemma_index_name(array_changes@[b - 1].0);
                        }
                        if a > 0 && b > 0 {
                            assert(array_changes@[a - 1].0 != array_changes@[b - 1].0);
                        }
                    }
                    lemma_members(map@);
                    let made = members(map@);
                    let wanted = wire_elements(d);
                    assert forall|name: Seq<char>| made.contains_key(name) <==> wanted.contains_key(
                        name,
                    ) by {
                        if has_key(map@, name) {
                            let j = key_index(map@, name);
                            if j > 0 {
                                assert(map@[(j - 1) + 1].0@ == index_name(array_changes@[j - 1].0));
                                lemma_index_name(array_changes@[j - 1].0);
                                assert(ops.contains_key(array_changes@[j - 1].0));
                            }
                        }
                        if wanted.contains_key(name) {
                            if name == array_marker_name() {
                                assert(map@[0].0@ == name);
                            } else {
                                let key = parse_index_name(name)->0;
                                lemma_parse_index_name(name);
                                let j = op_index(array_changes@, key);
                                assert(map@[j + 1].0@ == index_name(array_changes@[j].0));
                            }
                        }
                    }
                    assert forall|name: Seq<char>| made.contains_key(name) implies made[name]
                        == wanted[name] by {
                        let j = key_index(map@, name);
                        assert(made[map@[j].0@] == map@[j].1@);
                        if j > 0 {
                            assert(map@[(j - 1) + 1].0@ == index_name(array_changes@[j - 1].0));
                            lemma_index_name(array_changes@[j - 1].0);
                            assert(ops[array_changes@[j - 1].0] == array_changes@[j - 1].1@);
                        }
                    }
                    assert(made =~= wanted);
                    assert forall|j: int| 0 <= j < map@.len() implies (#[trigger] map@[j]).1.wf() by {
                        if j > 0 {
                            assert(map@[(j - 1) + 1].1.wf());
                        }
                    }
                }
                let r = Json::Object(map);
                assert(r@ == wire_spec(d));
                assert(r.wf());
                r
            },
        }
    }
}

/// Whether a value is the given number of the wire form.
fn is_magic(value: &Json, m: MagicNumber) -> (r: bool)
    ensures
        r == (value@ == magic(m)),
{
    match value {
        Json::Number(Number::PosInt(n)) => *n == m.code(),
        _ => false,
    }
}

/// What a slot holds, against the delta that a wire form stands for.
pub open spec fn found_unwired(found: Option<Delta>, wanted: Option<DeltaView>) -> bool {
    match wanted {
        Some(d) => found matches Some(delta) && delta@ == d && delta.wf(),
        None => found is None,
    }
}

impl Delta {
    /// The delta that a three-element array of the wire form stands for.
    fn deserialize_triple(first: &Json, second: &Json, third: &Json) -> (r: Option<Delta>)
        requires
            first.wf(),
        ensures
            found_unwired(r, unwire_triple(first@, second@, third@)),
    {
        if is_magic(third, MagicNumber::Deleted) {
            Some(Delta::Deleted(first.clone()))
        } else if is_magic(third, MagicNumber::UndefinedDiff) {
            match first {
                Json::String(p) => Some(Delta::TextDiff(p.clone())),
                _ => None,
            }
        } else if is_magic(third, MagicNumber::ArrayMoved) {
            match second {
                Json::Number(Number::PosInt(to)) => {
                    if *to <= usize::MAX as u64 {
                        let moved_value = if first.is_null() {
                            None
                        } else {
                            Some(first.clone())
                        };
                        Some(Delta::Moved { moved_value, new_index: *to as usize })
                    } else {
                        None
                    }
                },
                _ => None,
            }
        } else {
            None
        }
    }

    /// Whether the members `entries` are those of the wire form of an array
    /// delta: they hold the marker.
    fn has_array_marker(entries: &Vec<(String, Json)>) -> (r: bool)
        requires
            distinct_keys(entries@),
        ensures
            r == is_array_wire(JsonView::Object(members(entries@))),
    {
        proof {
            lemma_members(entries@);
        }
        let name = marker_name();
        match find_key(entries, &name) {
            Some(i) => {
                proof {
                    assert(members(entries@)[entries@[i as int].0@] == entries@[i as int].1@);
                }
                match &entries[i].1 {
                    Json::String(s) => {
                        proof {
                            reveal_strlit("a");
                        }
                        let a = String::from_str("a");
                        assert(a@ =~= seq!['a']);
                        *s == a
                    },
                    _ => false,
                }
            },
            None => false,
        }
    }

    /// Reads a delta from its wire form; `None` where the value is the
    /// wire form of no delta.
    ///
    /// An array of one element is an addition, one of two a replacement;
    /// one of three is a deletion, a text diff or a move, by its last
    /// element. An object with the member `"_t": "a"` is an array delta,
    /// whose other members must be named as keys are; any other object is
    /// an object delta.
    pub fn deserialize(json: &Json) -> (r: Option<Delta>)
        requires
            json.wf(),
        ensures
            found_unwired(r, unwire_spec(json@)),
        decreases json.size(),
    {
        let ghost j = json@;
        match json {
            Json::Array(items) => {
                proof {
                    json.lemma_array_view();
                    assert forall|i: int| 0 <= i < items@.len() implies (#[trigger] items@[i]).wf() by {}
                }
                let r = if items.len() == 1 {
                    assert(j->Array_0[0] == items@[0]@);
                    Some(Delta::Added(items[0].clone()))
                } else if items.len() == 2 {
                    assert(j->Array_0[0] == items@[0]@);
                    assert(j->Array_0[1] == items@[1]@);
                    Some(Delta::Modified(items[0].clone(), items[1].clone()))
                } else if items.len() == 3 {
                    assert(j->Array_0[0] == items@[0]@);
                    assert(j->Array_0[1] == items@[1]@);
                    assert(j->Array_0[2] == items@[2]@);
                    Delta::deserialize_triple(&items[0], &items[1], &items[2])
                } else {
                    None
                };
                assert(found_unwired(r, unwire_spec(j)));
                r
            },
            Json::Object(entries) => {
                let ghost m = members(entries@);
                proof {
                    lemma_members(entries@);
                }
                if Delta::has_array_marker(entries) {
                    let mut ops: Vec<(ArrayDeltaIndex, Delta)> = Vec::new();
                    let ghost mut origins: Seq<int> = Seq::empty();
                    let mut i: usize = 0;
                    while i < entries.len()
                        invariant
                            0 <= i <= entries@.len(),
                            *json == Json::Object(*entries),
                            json.wf(),
                            j == json@,
                            m == members(entries@),
                            is_array_wire(j),
                            ops@.len() == origins.len(),
                            forall|k: int|
                                0 <= k < origins.len() ==> 0 <= (#[trigger] origins[k]) < i
                                    && entries@[origins[k]].0@ == index_name(ops@[k].0)
                                    && unwire_spec(entries@[origins[k]].1@) == Some(ops@[k].1@)
                                    && ops@[k].1.wf(),
                            forall|k: int, l: int|
                                0 <= k < l < origins.len() ==> (#[trigger] origins[k]) < (
                                #[trigger] origins[l]),
                            forall|e: int|
                                0 <= e < i && (#[trigger] entries@[e]).0@ != array_marker_name()
                                    ==> origins.contains(e),
                        decreases entries@.len() - i,
                    {
                        let ghost before = ops@;
                        let ghost origins_before = origins;
                        proof {
                            lemma_members(entries@);
                            json.lemma_member_size(i as int);
                            assert(entries@[i as int].1.wf());
                            assert(m.contains_key(entries@[i as int].0@));
                            assert(m[entries@[i as int].0@] == entries@[i as int].1@);
                        }
                        let is_marker = entries[i].0 == marker_name();
                        if !is_marker {
                            let key = match ArrayDeltaIndex::parse(entries[i].0.as_str()) {
                                Some(key) => key,
                                None => {
                                    return None;
                                },
                            };
                            let delta = match Delta::deserialize(&entries[i].1) {
                                Some(delta) => delta,
                                None => {
                                    proof {
                                        assert(member_unwire(j, entries@[i as int].0@) is None);
                                    }
                                    return None;
                                },
                            };
                            proof {
                                lemma_parse_index_name(entries@[i as int].0@);
                            }
                            ops.push((key, delta));
                            proof {
                                origins = origins.push(i as int);
                                assert forall|k: int| 0 <= k < origins.len() implies 0 <= (
                                #[trigger] origins[k]) < i + 1 && entries@[origins[k]].0@
                                    == index_name(ops@[k].0) && unwire_spec(
                                    entries@[origins[k]].1@,
                                ) == Some(ops@[k].1@) && ops@[k].1.wf() by {
                                    if k < before.len() {
                                        assert(ops@[k] == before[k]);
                                        assert(origins[k] == origins_before[k]);
                                    }
                                }
                                assert(origins[origins.len() - 1] == i);
                            }
                        }
                        proof {
                            assert forall|e: int|
                                0 <= e < i + 1 && (#[trigger] entries@[e]).0@
                                    != array_marker_name() implies origins.contains(e) by {
                                if e < i {
                                    assert(origins_before.contains(e));
                                    let k = choose|k: int|
                                        0 <= k < origins_before.len() && origins_before[k] == e;
                                    assert(origins[k] == e);
                                } else {
                                    assert(origins[origins.len() - 1] == e);
                                }
                            }
                        }
                        i += 1;
                    }
                    proof {
                        lemma_members(entries@);
                        assert forall|a: int, b: int|
                            0 <= a < ops@.len() && 0 <= b < ops@.len() && a != b implies (
                        #[trigger] ops@[a]).0 != (#[trigger] ops@[b]).0 by {
                            if a < b {
                                assert(origins[a] < origins[b]);
                            } else {
                                assert(origins[b] < origins[a]);
                            }
                            assert(entries@[origins[a]].0@ != entries@[origins[b]].0@);
                        }
                        assert forall|name: Seq<char>| #[trigger]
                            m.contains_key(name) && name
                                != array_marker_name() implies parse_index_name(name) is Some
                            && member_unwire(j, name) is Some by {
                            let e = key_index(entries@, name);
                            assert(entries@[e].0@ == name);
                            assert(origins.contains(e));
                            let k = choose|k: int| 0 <= k < origins.len() && origins[k] == e;
                            lemma_index_name(ops@[k].0);
                            assert(m[entries@[e].0@] == entries@[e].1@);
                        }
                        lemma_delta_ops(ops@);
                        let made = delta_ops(ops@);
                        let wanted = unwire_elements(j);
                        assert forall|key: ArrayDeltaIndex| made.contains_key(key)
                            <==> wanted.contains_key(key) by {
                            lemma_index_name(key);
                            if has_op(ops@, key) {
                                let k = op_index(ops@, key);
                                assert(entries@[origins[k]].0@ == index_name(ops@[k].0));
                                assert(has_key(entries@, index_name(key)));
                            }
                            if m.contains_key(index_name(key)) {
                                let e = key_index(entries@, index_name(key));
                                assert(entries@[e].0@ == index_name(key));
                                assert(origins.contains(e));
                                let k = choose|k: int| 0 <= k < origins.len() && origins[k] == e;
                                lemma_index_name(ops@[k].0);
                                assert(ops@[k].0 == key);
                            }
                        }
                        assert forall|key: ArrayDeltaIndex| made.contains_key(key) implies made[key]
                            == wanted[key] by {
                            let k = op_index(ops@, key);
                            assert(made[ops@[k].0] == ops@[k].1@);
                            let e = origins[k];
                            assert(entries@[e].0@ == index_name(key));
                            assert(m[entries@[e].0@] == entries@[e].1@);
                        }
                        assert(made =~= wanted);
                    }
                    proof {
                        assert forall|k: int| 0 <= k < ops@.len() implies (#[trigger] ops@[k]).1.wf() by {
                            assert(0 <= origins[k]);
                        }
                        assert(distinct_ops(ops@));
                    }
                    let r = Some(Delta::Array(ops));
                    assert(unwire_spec(j) == Some(DeltaView::Array(unwire_elements(j))));
                    assert(found_unwired(r, unwire_spec(j)));
                    r
                } else {
                    let mut out: Vec<(String, Delta)> = Vec::new();
                    let mut i: usize = 0;
                    while i < entries.len()
                        invariant
                            0 <= i <= entries@.len(),
                            *json == Json::Object(*entries),
                            json.wf(),
                            j == json@,
                            m == members(entries@),
                            !is_array_wire(j),
                            out@.len() == i,
                            forall|k: int|
                                0 <= k < i ==> (#[trigger] out@[k]).0@ == entries@[k].0@
                                    && unwire_spec(entries@[k].1@) == Some(out@[k].1@)
                                    && out@[k].1.wf(),
                        decreases entries@.len() - i,
                    {
                        proof {
                            lemma_members(entries@);
                            json.lemma_member_size(i as int);
                            assert(entries@[i as int].1.wf());
                            assert(m.contains_key(entries@[i as int].0@));
                            assert(m[entries@[i as int].0@] == entries@[i as int].1@);
                        }
                        match Delta::deserialize(&entries[i].1) {
                            Some(delta) => {
                                out.push((entries[i].0.clone(), delta));
                            },
                            None => {
                                proof {
                                    assert(member_unwire(j, entries@[i as int].0@) is None);
                                }
                                return None;
                            },
                        }
                        i += 1;
                    }
                    proof {
                        lemma_members(entries@);
                        assert forall|a: int, b: int|
                            0 <= a < out@.len() && 0 <= b < out@.len() && a != b implies (
                        #[trigger] out@[a]).0@ != (#[trigger] out@[b]).0@ by {
                            assert(entries@[a].0@ != entries@[b].0@);
                        }
                        assert forall|name: Seq<char>| #[trigger]
                            m.contains_key(name) implies member_unwire(j, name) is Some by {
                            let e = key_index(entries@, name);
                            assert(entries@[e].0@ == name);
                            assert(m[entries@[e].0@] == entries@[e].1@);
                            assert(unwire_spec(entries@[e].1@) == Some(out@[e].1@));
                        }
                        lemma_delta_members(out@);
                        let made = delta_members(out@);
                        let wanted = unwire_members(j);
                        assert forall|key: Seq<char>| made.contains_key(key)
                            <==> wanted.contains_key(key) by {
                            if has_key(out@, key) {
                                let k = key_index(out@, key);
                                assert(entries@[k].0@ == key);
                            }
                            if has_key(entries@, key) {
                                let k = key_index(entries@, key);
                                assert(out@[k].0@ == key);
                            }
                        }
                        assert forall|key: Seq<char>| made.contains_key(key) implies made[key]
                            == wanted[key] by {
                            let k = key_index(out@, key);
                            assert(made[out@[k].0@] == out@[k].1@);
                            assert(entries@[k].0@ == key);
                            assert(m[entries@[k].0@] == entries@[k].1@);
                            assert(unwire_spec(entries@[k].1@) == Some(out@[k].1@));
                        }
                        assert(made =~= wanted);
                    }
                    let r = Some(Delta::Object(out));
                    assert(unwire_spec(j) == Some(DeltaView::Object(unwire_members(j))));
                    assert(found_unwired(r, unwire_spec(j)));
                    r
                }
            },
            _ => None,
        }
    }
}

} // verus!
