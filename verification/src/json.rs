//! JSON values: the data that deltas are computed from and applied to.
//!
//! A value is a tree. Its mathematical model, `JsonView`, forgets the order in
//! which an object lists its members, so that two values are structurally
//! equal exactly when their views are equal.

use vstd::prelude::*;

verus! {

/// A JSON number. A float is held by the bits of its IEEE 754 double, so that
/// numbers compare and copy without floating-point arithmetic.
#[derive(Clone, Copy, Debug, PartialEq, Eq, Structural)]
pub enum Number {
    PosInt(u64),
    NegInt(i64),
    Float(u64),
}

/// A JSON value. An object lists its members in insertion order; in a
/// well-formed value no object holds a key twice.
#[derive(Debug)]
pub enum Json {
    Null,
    Bool(bool),
    Number(Number),
    String(String),
    Array(Vec<Json>),
    Object(Vec<(String, Json)>),
}

/// The mathematical model of a JSON value.
pub enum JsonView {
    Null,
    Bool(bool),
    Number(Number),
    String(Seq<char>),
    Array(Seq<JsonView>),
    Object(Map<Seq<char>, JsonView>),
}

/// Whether some entry of `entries` has the key `key`.
pub open spec fn has_key<V>(entries: Seq<(String, V)>, key: Seq<char>) -> bool {
    exists|i: int| 0 <= i < entries.len() && (#[trigger] entries[i]).0@ == key
}

/// The position of an entry with the key `key`, where there is one.
pub open spec fn key_index<V>(entries: Seq<(String, V)>, key: Seq<char>) -> int {
    choose|i: int| 0 <= i < entries.len() && (#[trigger] entries[i]).0@ == key
}

/// No key occurs in two entries.
pub open spec fn distinct_keys<V>(entries: Seq<(String, V)>) -> bool {
    forall|i: int, j: int|
        0 <= i < entries.len() && 0 <= j < entries.len() && i != j ==> (#[trigger] entries[i]).0@
            != (#[trigger] entries[j]).0@
}

/// The model of a value.
pub open spec fn json_view(j: Json) -> JsonView
    decreases j,
{
    match j {
        Json::Null => JsonView::Null,
        Json::Bool(b) => JsonView::Bool(b),
        Json::Number(n) => JsonView::Number(n),
        Json::String(s) => JsonView::String(s@),
        Json::Array(items) => JsonView::Array(views(items@)),
        Json::Object(entries) => JsonView::Object(members(entries@)),
    }
}

/// The models of the values of a sequence, in order.
pub open spec fn views(items: Seq<Json>) -> Seq<JsonView>
    decreases items,
{
    if items.len() == 0 {
        Seq::empty()
    } else {
        views(items.drop_last()).push(json_view(items.last()))
    }
}

/// The mapping that a list of members stands for. Where a key occurs twice,
/// the later entry counts.
pub open spec fn members(entries: Seq<(String, Json)>) -> Map<Seq<char>, JsonView>
    decreases entries,
{
    if entries.len() == 0 {
        Map::empty()
    } else {
        members(entries.drop_last()).insert(entries.last().0@, json_view(entries.last().1))
    }
}

/// The number of nodes of a value: a measure for recursion.
pub open spec fn json_size(j: Json) -> nat
    decreases j,
{
    match j {
        Json::Array(items) => 1 + sizes(items@),
        Json::Object(entries) => 1 + member_sizes(entries@),
        _ => 1,
    }
}

/// The number of nodes of the values of a sequence.
pub open spec fn sizes(items: Seq<Json>) -> nat
    decreases items,
{
    if items.len() == 0 {
        0
    } else {
        sizes(items.drop_last()) + json_size(items.last())
    }
}

/// The number of nodes of the values of a list of members.
pub open spec fn member_sizes(entries: Seq<(String, Json)>) -> nat
    decreases entries,
{
    if entries.len() == 0 {
        0
    } else {
        member_sizes(entries.drop_last()) + json_size(entries.last().1)
    }
}

impl View for Json {
    type V = JsonView;

    open spec fn view(&self) -> JsonView {
        json_view(*self)
    }
}

/// `views` keeps lengths and positions.
pub proof fn lemma_views(items: Seq<Json>)
    ensures
        views(items).len() == items.len(),
        forall|i: int| 0 <= i < items.len() ==> (#[trigger] views(items)[i]) == items[i]@,
    decreases items.len(),
{
    if items.len() > 0 {
        lemma_views(items.drop_last());
    }
}

/// The keys of `members` are the keys of the entries; it is finite; and with
/// distinct keys each entry is the member under its key.
pub proof fn lemma_members(entries: Seq<(String, Json)>)
    ensures
        members(entries).dom().finite(),
        forall|k: Seq<char>| #[trigger] members(entries).contains_key(k) <==> has_key(entries, k),
        distinct_keys(entries) ==> forall|i: int|
            0 <= i < entries.len() ==> members(entries)[(#[trigger] entries[i]).0@] == entries[i].1@,
    decreases entries.len(),
{
    if entries.len() > 0 {
        let init = entries.drop_last();
        let last = entries.last();
        lemma_members(init);
        assert forall|k: Seq<char>| #[trigger]
            members(entries).contains_key(k) <==> has_key(entries, k) by {
            if has_key(entries, k) {
                let i = key_index(entries, k);
                if i < entries.len() - 1 {
                    assert(init[i].0@ == k);
                }
            }
            if members(entries).contains_key(k) {
                if k != last.0@ {
                    let i = key_index(init, k);
                    assert(entries[i].0@ == k);
                } else {
                    assert(entries[entries.len() - 1].0@ == k);
                }
            }
        }
        if distinct_keys(entries) {
            assert(distinct_keys(init)) by {
                assert forall|i: int, j: int|
                    0 <= i < init.len() && 0 <= j < init.len() && i != j implies (
                #[trigger] init[i]).0@ != (#[trigger] init[j]).0@ by {
                    assert(init[i] == entries[i]);
                    assert(init[j] == entries[j]);
                }
            }
            assert forall|i: int| 0 <= i < entries.len() implies members(entries)[(
            #[trigger] entries[i]).0@] == entries[i].1@ by {
                if i < entries.len() - 1 {
                    assert(init[i] == entries[i]);
                    assert(entries[i].0@ != entries[entries.len() - 1].0@);
                }
            }
        }
    }
}

/// Each value of a sequence is counted in `sizes`.
pub proof fn lemma_sizes(items: Seq<Json>, i: int)
    requires
        0 <= i < items.len(),
    ensures
        json_size(items[i]) <= sizes(items),
    decreases items.len(),
{
    if i < items.len() - 1 {
        lemma_sizes(items.drop_last(), i);
    }
}

/// Each member of a list is counted in `member_sizes`.
pub proof fn lemma_member_sizes(entries: Seq<(String, Json)>, i: int)
    requires
        0 <= i < entries.len(),
    ensures
        json_size(entries[i].1) <= member_sizes(entries),
    decreases entries.len(),
{
    if i < entries.len() - 1 {
        lemma_member_sizes(entries.drop_last(), i);
    }
}

/// Lists of members with the same keys and the same values, position by
/// position, stand for the same mapping.
pub proof fn lemma_members_congruent(a: Seq<(String, Json)>, b: Seq<(String, Json)>)
    requires
        a.len() == b.len(),
        forall|i: int| 0 <= i < a.len() ==> (#[trigger] a[i]).0@ == b[i].0@ && a[i].1@ == b[i].1@,
    ensures
        members(a) == members(b),
    decreases a.len(),
{
    if a.len() > 0 {
        let n = a.len() - 1;
        assert(a[n].0@ == b[n].0@ && a[n].1@ == b[n].1@);
        assert forall|i: int| 0 <= i < a.drop_last().len() implies (#[trigger] a.drop_last()[i]).0@
            == b.drop_last()[i].0@ && a.drop_last()[i].1@ == b.drop_last()[i].1@ by {
            assert(a[i].0@ == b[i].0@ && a[i].1@ == b[i].1@);
        }
        lemma_members_congruent(a.drop_last(), b.drop_last());
    }
}

/// The views of a part of a sequence are that part of its views.
pub proof fn lemma_views_subrange(items: Seq<Json>, from: int, to: int)
    requires
        0 <= from <= to <= items.len(),
    ensures
        views(items.subrange(from, to)) == views(items).subrange(from, to),
{
    lemma_views(items);
    lemma_views(items.subrange(from, to));
    assert(views(items.subrange(from, to)) =~= views(items).subrange(from, to));
}

/// Sequences of values with the same views, position by position, have the
/// same sequence of views.
pub proof fn lemma_views_congruent(a: Seq<Json>, b: Seq<Json>)
    requires
        a.len() == b.len(),
        forall|i: int| 0 <= i < a.len() ==> (#[trigger] a[i])@ == b[i]@,
    ensures
        views(a) == views(b),
{
    lemma_views(a);
    lemma_views(b);
    assert forall|i: int| 0 <= i < a.len() implies views(a)[i] == views(b)[i] by {
        assert(a[i]@ == b[i]@);
    }
    assert(views(a) =~= views(b));
}

impl JsonView {
    /// The member of an object under `key`, or null where the value is no
    /// object or has no such member.
    pub open spec fn get_or_null(self, key: Seq<char>) -> JsonView {
        match self {
            JsonView::Object(m) => if m.contains_key(key) {
                m[key]
            } else {
                JsonView::Null
            },
            _ => JsonView::Null,
        }
    }

    /// Whether two values are of the same JSON variant.
    pub open spec fn same_variant(self, other: JsonView) -> bool {
        match (self, other) {
            (JsonView::Null, JsonView::Null) => true,
            (JsonView::Bool(_), JsonView::Bool(_)) => true,
            (JsonView::Number(_), JsonView::Number(_)) => true,
            (JsonView::String(_), JsonView::String(_)) => true,
            (JsonView::Array(_), JsonView::Array(_)) => true,
            (JsonView::Object(_), JsonView::Object(_)) => true,
            _ => false,
        }
    }
}

impl Json {
    /// No object, at any depth, holds a key twice.
    pub open spec fn wf(&self) -> bool
        decreases self,
    {
        match self {
            Json::Array(items) => forall|i: int|
                0 <= i < items@.len() ==> (#[trigger] items@[i]).wf(),
            Json::Object(entries) => distinct_keys(entries@) && forall|i: int|
                0 <= i < entries@.len() ==> (#[trigger] entries@[i]).1.wf(),
            _ => true,
        }
    }

    /// The number of nodes of the value.
    pub open spec fn size(&self) -> nat {
        json_size(*self)
    }

    /// An element of an array is smaller than the array.
    pub proof fn lemma_item_size(&self, i: int)
        requires
            self is Array,
            0 <= i < self->Array_0@.len(),
        ensures
            self->Array_0@[i].size() < self.size(),
    {
        lemma_sizes(self->Array_0@, i);
    }

    /// A member of an object is smaller than the object.
    pub proof fn lemma_member_size(&self, i: int)
        requires
            self is Object,
            0 <= i < self->Object_0@.len(),
        ensures
            self->Object_0@[i].1.size() < self.size(),
    {
        lemma_member_sizes(self->Object_0@, i);
    }

    /// The view of an array holds the views of its elements.
    pub proof fn lemma_array_view(&self)
        requires
            self is Array,
        ensures
            self@ is Array,
            self@->Array_0 == views(self->Array_0@),
            self@->Array_0.len() == self->Array_0@.len(),
            forall|i: int|
                0 <= i < self->Array_0@.len() ==> (#[trigger] self@->Array_0[i])
                    == self->Array_0@[i]@,
    {
        lemma_views(self->Array_0@);
    }

    /// In a well-formed object, each entry is the member under its key.
    pub proof fn lemma_object_member(&self, i: int)
        requires
            self is Object,
            distinct_keys(self->Object_0@),
            0 <= i < self->Object_0@.len(),
        ensures
            self@ is Object,
            self@->Object_0.contains_key(self->Object_0@[i].0@),
            self@->Object_0[self->Object_0@[i].0@] == self->Object_0@[i].1@,
            self@.get_or_null(self->Object_0@[i].0@) == self->Object_0@[i].1@,
    {
        lemma_members(self->Object_0@);
        assert(has_key(self->Object_0@, self->Object_0@[i].0@));
    }

    /// The keys of an object's view are the keys of its entries.
    pub proof fn lemma_object_keys(&self, key: Seq<char>)
        requires
            self is Object,
        ensures
            self@ is Object,
            self@->Object_0.dom().finite(),
            self@->Object_0.contains_key(key) <==> has_key(self->Object_0@, key),
            !has_key(self->Object_0@, key) ==> self@.get_or_null(key) == JsonView::Null,
    {
        lemma_members(self->Object_0@);
    }

    pub fn is_null(&self) -> (r: bool)
        ensures
            r == (self@ is Null),
    {
        match self {
            Json::Null => true,
            _ => false,
        }
    }

    pub fn is_boolean(&self) -> (r: bool)
        ensures
            r == (self@ is Bool),
    {
        match self {
            Json::Bool(_) => true,
            _ => false,
        }
    }

    pub fn is_number(&self) -> (r: bool)
        ensures
            r == (self@ is Number),
    {
        match self {
            Json::Number(_) => true,
            _ => false,
        }
    }

    pub fn is_string(&self) -> (r: bool)
        ensures
            r == (self@ is String),
    {
        match self {
            Json::String(_) => true,
            _ => false,
        }
    }

    pub fn is_array(&self) -> (r: bool)
        ensures
            r == (self@ is Array),
    {
        match self {
            Json::Array(_) => true,
            _ => false,
        }
    }

    pub fn is_object(&self) -> (r: bool)
        ensures
            r == (self@ is Object),
    {
        match self {
            Json::Object(_) => true,
            _ => false,
        }
    }

    /// Whether `self` and `other` are of the same JSON variant.
    pub fn same_variant(&self, other: &Json) -> (r: bool)
        ensures
            r == self@.same_variant(other@),
    {
        match (self, other) {
            (Json::Null, Json::Null) => true,
            (Json::Bool(_), Json::Bool(_)) => true,
            (Json::Number(_), Json::Number(_)) => true,
            (Json::String(_), Json::String(_)) => true,
            (Json::Array(_), Json::Array(_)) => true,
            (Json::Object(_), Json::Object(_)) => true,
            _ => false,
        }
    }

    /// The member of an object under `key`; `None` where the value is no
    /// object or has no such member.
    pub fn get(&self, key: &String) -> (r: Option<&Json>)
        requires
            self.wf(),
        ensures
            match r {
                Some(v) => self@ is Object && self@->Object_0.contains_key(key@) && v@
                    == self@->Object_0[key@] && v.wf() && v.size() < self.size(),
                None => !(self@ is Object && self@->Object_0.contains_key(key@)),
            },
            r is Some ==> r->0@ == self@.get_or_null(key@),
            r is None ==> self@.get_or_null(key@) == JsonView::Null,
    {
        match self {
            Json::Object(entries) => {
                match find_key(entries, key) {
                    Some(i) => {
                        proof {
                            self.lemma_object_member(i as int);
                            self.lemma_member_size(i as int);
                        }
                        Some(&entries[i].1)
                    },
                    None => {
                        proof {
                            self.lemma_object_keys(key@);
                        }
                        None
                    },
                }
            },
            _ => None,
        }
    }

    /// Structural equality: arrays are compared in order, objects as
    /// mappings from keys to values.
    pub fn equals(&self, other: &Json) -> (r: bool)
        requires
            self.wf(),
            other.wf(),
        ensures
            r == (self@ == other@),
        decreases self.size(),
    {
        match (self, other) {
            (Json::Null, Json::Null) => true,
            (Json::Bool(a), Json::Bool(b)) => *a == *b,
            (Json::Number(a), Json::Number(b)) => *a == *b,
            (Json::String(a), Json::String(b)) => *a == *b,
            (Json::Array(a), Json::Array(b)) => {
                proof {
                    lemma_views(a@);
                    lemma_views(b@);
                }
                if a.len() != b.len() {
                    return false;
                }
                let mut i: usize = 0;
                while i < a.len()
                    invariant
                        0 <= i <= a@.len(),
                        a@.len() == b@.len(),
                        *self == Json::Array(*a),
                        *other == Json::Array(*b),
                        self.wf(),
                        other.wf(),
                        forall|j: int| 0 <= j < i ==> (#[trigger] a@[j])@ == b@[j]@,
                    decreases a@.len() - i,
                {
                    proof {
                        self.lemma_item_size(i as int);
                        assert(a@[i as int].wf());
                        assert(other->Array_0@[i as int].wf());
                    }
                    if !a[i].equals(&b[i]) {
                        proof {
                            lemma_views(a@);
                            lemma_views(b@);
                            assert(views(a@)[i as int] != views(b@)[i as int]);
                        }
                        return false;
                    }
                    i += 1;
                }
                proof {
                    lemma_views_congruent(a@, b@);
                }
                true
            },
            (Json::Object(a), Json::Object(b)) => {
                proof {
                    lemma_members(a@);
                    lemma_members(b@);
                }
                let mut i: usize = 0;
                while i < a.len()
                    invariant
                        0 <= i <= a@.len(),
                        *self == Json::Object(*a),
                        *other == Json::Object(*b),
                        self.wf(),
                        other.wf(),
                        forall|j: int|
                            0 <= j < i ==> members(b@).contains_key((#[trigger] a@[j]).0@)
                                && members(b@)[a@[j].0@] == a@[j].1@,
                    decreases a@.len() - i,
                {
                    proof {
                        lemma_members(a@);
                        lemma_members(b@);
                        self.lemma_member_size(i as int);
                        assert(a@[i as int].1.wf());
                        assert(has_key(a@, a@[i as int].0@));
                    }
                    match find_key(b, &a[i].0) {
                        Some(j) => {
                            proof {
                                assert(b@[j as int].1.wf());
                                assert(members(b@)[b@[j as int].0@] == b@[j as int].1@);
                            }
                            if !a[i].1.equals(&b[j].1) {
                                proof {
                                    assert(members(a@)[a@[i as int].0@] == a@[i as int].1@);
                                }
                                return false;
                            }
                        },
                        None => {
                            proof {
                                assert(members(a@).contains_key(a@[i as int].0@));
                                assert(!members(b@).contains_key(a@[i as int].0@));
                            }
                            return false;
                        },
                    }
                    i += 1;
                }
                let mut k: usize = 0;
                while k < b.len()
                    invariant
                        0 <= k <= b@.len(),
                        *self == Json::Object(*a),
                        *other == Json::Object(*b),
                        forall|j: int| 0 <= j < k ==> has_key(a@, (#[trigger] b@[j]).0@),
                    decreases b@.len() - k,
                {
                    if find_key(a, &b[k].0).is_none() {
                        proof {
                            lemma_members(a@);
                            lemma_members(b@);
                            assert(has_key(b@, b@[k as int].0@));
                            assert(members(b@).contains_key(b@[k as int].0@));
                            assert(!members(a@).contains_key(b@[k as int].0@));
                        }
                        return false;
                    }
                    k += 1;
                }
                proof {
                    lemma_members(a@);
                    lemma_members(b@);
                    assert forall|key: Seq<char>|
                        members(a@).contains_key(key) <==> members(b@).contains_key(key) by {
                        if has_key(a@, key) {
                            let j = key_index(a@, key);
                            assert(members(b@).contains_key(a@[j].0@));
                        }
                        if has_key(b@, key) {
                            let j = key_index(b@, key);
                            assert(has_key(a@, b@[j].0@));
                        }
                    }
                    assert forall|key: Seq<char>| members(a@).contains_key(key) implies members(
                        a@,
                    )[key] == members(b@)[key] by {
                        let j = key_index(a@, key);
                        assert(members(b@)[a@[j].0@] == a@[j].1@);
                        assert(members(a@)[a@[j].0@] == a@[j].1@);
                    }
                    assert(members(a@) =~= members(b@));
                }
                true
            },
            _ => false,
        }
    }

    /// Whether no object, at any depth, holds a key twice.
    pub fn is_well_formed(&self) -> (r: bool)
        ensures
            r == self.wf(),
        decreases self.size(),
    {
        match self {
            Json::Array(items) => {
                let mut i: usize = 0;
                while i < items.len()
                    invariant
                        0 <= i <= items@.len(),
                        *self == Json::Array(*items),
                        forall|j: int| 0 <= j < i ==> (#[trigger] items@[j]).wf(),
                    decreases items@.len() - i,
                {
                    proof {
                        self.lemma_item_size(i as int);
                    }
                    if !items[i].is_well_formed() {
                        return false;
                    }
                    i += 1;
                }
                true
            },
            Json::Object(entries) => {
                let mut i: usize = 0;
                while i < entries.len()
                    invariant
                        0 <= i <= entries@.len(),
                        *self == Json::Object(*entries),
                        forall|j: int| 0 <= j < i ==> (#[trigger] entries@[j]).1.wf(),
                        forall|j: int, k: int|
                            0 <= j < i && 0 <= k < entries@.len() && j != k ==> (
                            #[trigger] entries@[j]).0@ != (#[trigger] entries@[k]).0@,
                    decreases entries@.len() - i,
                {
                    proof {
                        self.lemma_member_size(i as int);
                    }
                    if !entries[i].1.is_well_formed() {
                        return false;
                    }
                    let mut k: usize = i + 1;
                    while k < entries.len()
                        invariant
                            i < k <= entries@.len(),
                            *self == Json::Object(*entries),
                            forall|m: int| i < m < k ==> (#[trigger] entries@[m]).0@ != entries@[i as int].0@,
                        decreases entries@.len() - k,
                    {
                        if entries[k].0 == entries[i].0 {
                            proof {
                                assert(entries@[k as int].0@ == entries@[i as int].0@);
                                assert(!distinct_keys(entries@));
                            }
                            return false;
                        }
                        k += 1;
                    }
                    i += 1;
                }
                true
            },
            _ => true,
        }
    }
}

/// The first position in `entries` of the key `key`.
pub fn find_key<V>(entries: &Vec<(String, V)>, key: &String) -> (r: Option<usize>)
    ensures
        match r {
            Some(i) => i < entries@.len() && entries@[i as int].0@ == key@ && forall|j: int|
                0 <= j < i ==> (#[trigger] entries@[j]).0@ != key@,
            None => !has_key(entries@, key@),
        },
        r is Some <==> has_key(entries@, key@),
{
    let mut i: usize = 0;
    while i < entries.len()
        invariant
            0 <= i <= entries@.len(),
            forall|j: int| 0 <= j < i ==> (#[trigger] entries@[j]).0@ != key@,
        decreases entries@.len() - i,
    {
        if entries[i].0 == *key {
            return Some(i);
        }
        i += 1;
    }
    None
}

/// Sets the member under `key` of a list of members with distinct keys: the
/// value of the entry with that key is replaced, or a new entry is added at
/// the end.
pub fn set_member(entries: &mut Vec<(String, Json)>, key: String, value: Json)
    requires
        distinct_keys(old(entries)@),
    ensures
        distinct_keys(final(entries)@),
        members(final(entries)@) == members(old(entries)@).insert(key@, value@),
        forall|i: int|
            0 <= i < final(entries)@.len() ==> (#[trigger] final(entries)@[i]).1 == value || old(
                entries,
            )@.contains(final(entries)@[i]),
{
    let ghost given = entries@;
    proof {
        lemma_members(given);
    }
    match find_key(entries, &key) {
        Some(i) => {
            entries.set(i, (key, value));
            proof {
                assert forall|a: int, b: int|
                    0 <= a < entries@.len() && 0 <= b < entries@.len() && a != b implies (
                #[trigger] entries@[a]).0@ != (#[trigger] entries@[b]).0@ by {
                    assert(entries@[a].0@ == given[a].0@);
                    assert(entries@[b].0@ == given[b].0@);
                }
                lemma_members(entries@);
                assert forall|k: Seq<char>| #[trigger]
                    members(entries@).contains_key(k) <==> members(given).insert(
                        key@,
                        value@,
                    ).contains_key(k) by {
                    if has_key(entries@, k) {
                        let j = key_index(entries@, k);
                        assert(given[j].0@ == k);
                    }
                    if has_key(given, k) {
                        let j = key_index(given, k);
                        assert(entries@[j].0@ == k);
                    }
                    if k == key@ {
                        assert(entries@[i as int].0@ == k);
                    }
                }
                assert forall|k: Seq<char>| members(entries@).contains_key(k) implies members(
                    entries@,
                )[k] == members(given).insert(key@, value@)[k] by {
                    let j = key_index(entries@, k);
                    assert(members(entries@)[entries@[j].0@] == entries@[j].1@);
                    if j != i {
                        assert(entries@[j] == given[j]);
                        assert(members(given)[given[j].0@] == given[j].1@);
                        assert(given[j].0@ != given[i as int].0@);
                    }
                }
                assert(members(entries@) =~= members(given).insert(key@, value@));
                assert forall|j: int| 0 <= j < entries@.len() implies (#[trigger] entries@[j]).1
                    == value || given.contains(entries@[j]) by {
                    if j != i {
                        assert(entries@[j] == given[j]);
                    }
                }
            }
        },
        None => {
            entries.push((key, value));
            proof {
                assert(entries@.drop_last() =~= given);
                assert forall|a: int, b: int|
                    0 <= a < entries@.len() && 0 <= b < entries@.len() && a != b implies (
                #[trigger] entries@[a]).0@ != (#[trigger] entries@[b]).0@ by {
                    if a < given.len() {
                        assert(entries@[a] == given[a]);
                    }
                    if b < given.len() {
                        assert(entries@[b] == given[b]);
                    }
                }
                assert forall|j: int| 0 <= j < entries@.len() implies (#[trigger] entries@[j]).1
                    == value || given.contains(entries@[j]) by {
                    if j < given.len() {
                        assert(entries@[j] == given[j]);
                    }
                }
            }
        },
    }
}

/// Removes the member under `key`, if there is one, from a list of members
/// with distinct keys.
pub fn remove_member(entries: &mut Vec<(String, Json)>, key: &String)
    requires
        distinct_keys(old(entries)@),
    ensures
        distinct_keys(final(entries)@),
        members(final(entries)@) == members(old(entries)@).remove(key@),
        forall|i: int|
            0 <= i < final(entries)@.len() ==> old(entries)@.contains(
                #[trigger] final(entries)@[i],
            ),
{
    let ghost given = entries@;
    proof {
        lemma_members(given);
    }
    match find_key(entries, key) {
        Some(i) => {
            let _ = entries.remove(i);
            proof {
                assert forall|j: int| 0 <= j < entries@.len() implies given.contains(
                    #[trigger] entries@[j],
                ) by {
                    if j < i {
                        assert(entries@[j] == given[j]);
                    } else {
                        assert(entries@[j] == given[j + 1]);
                    }
                }
                assert forall|a: int, b: int|
                    0 <= a < entries@.len() && 0 <= b < entries@.len() && a != b implies (
                #[trigger] entries@[a]).0@ != (#[trigger] entries@[b]).0@ by {
                    let ga = if a < i {
                        a
                    } else {
                        a + 1
                    };
                    let gb = if b < i {
                        b
                    } else {
                        b + 1
                    };
                    assert(entries@[a] == given[ga]);
                    assert(entries@[b] == given[gb]);
                }
                lemma_members(entries@);
                assert forall|k: Seq<char>| #[trigger]
                    members(entries@).contains_key(k) <==> members(given).remove(
                        key@,
                    ).contains_key(k) by {
                    if has_key(entries@, k) {
                        let j = key_index(entries@, k);
                        let gj = if j < i {
                            j
                        } else {
                            j + 1
                        };
                        assert(entries@[j] == given[gj]);
                        assert(given[gj].0@ == k);
                        assert(gj != i);
                        assert(given[gj].0@ != given[i as int].0@);
                    }
                    if has_key(given, k) && k != key@ {
                        let j = key_index(given, k);
                        assert(j != i);
                        let ej = if j < i {
                            j
                        } else {
                            j - 1
                        };
                        assert(entries@[ej] == given[j]);
                    }
                }
                assert forall|k: Seq<char>| members(entries@).contains_key(k) implies members(
                    entries@,
                )[k] == members(given).remove(key@)[k] by {
                    let j = key_index(entries@, k);
                    let gj = if j < i {
                        j
                    } else {
                        j + 1
                    };
                    assert(entries@[j] == given[gj]);
                    assert(members(entries@)[entries@[j].0@] == entries@[j].1@);
                    assert(members(given)[given[gj].0@] == given[gj].1@);
                }
                assert(members(entries@) =~= members(given).remove(key@));
            }
        },
        None => {
            proof {
                assert(members(given) =~= members(given).remove(key@));
            }
        },
    }
}

impl Clone for Json {
    /// A deep copy.
    fn clone(&self) -> (r: Json)
        ensures
            r@ == self@,
            self.wf() ==> r.wf(),
        decreases self.size(),
    {
        match self {
            Json::Null => Json::Null,
            Json::Bool(b) => Json::Bool(*b),
            Json::Number(n) => Json::Number(*n),
            Json::String(s) => Json::String(s.clone()),
            Json::Array(items) => {
                let mut out: Vec<Json> = Vec::new();
                let mut i: usize = 0;
                while i < items.len()
                    invariant
                        0 <= i <= items@.len(),
                        *self == Json::Array(*items),
                        out@.len() == i,
                        forall|j: int| 0 <= j < i ==> (#[trigger] out@[j])@ == items@[j]@,
                        self.wf() ==> forall|j: int| 0 <= j < i ==> (#[trigger] out@[j]).wf(),
                    decreases items@.len() - i,
                {
                    proof {
                        self.lemma_item_size(i as int);
                        if self.wf() {
                            assert(items@[i as int].wf());
                        }
                    }
                    out.push(items[i].clone());
                    i += 1;
                }
                proof {
                    lemma_views_congruent(out@, items@);
                }
                Json::Array(out)
            },
            Json::Object(entries) => {
                let mut out: Vec<(String, Json)> = Vec::new();
                let mut i: usize = 0;
                while i < entries.len()
                    invariant
                        0 <= i <= entries@.len(),
                        *self == Json::Object(*entries),
                        out@.len() == i,
                        forall|j: int|
                            0 <= j < i ==> (#[trigger] out@[j]).0@ == entries@[j].0@ && out@[j].1@
                                == entries@[j].1@,
                        self.wf() ==> forall|j: int| 0 <= j < i ==> (#[trigger] out@[j]).1.wf(),
                    decreases entries@.len() - i,
                {
                    proof {
                        self.lemma_member_size(i as int);
                        if self.wf() {
                            assert(entries@[i as int].1.wf());
                        }
                    }
                    out.push((entries[i].0.clone(), entries[i].1.clone()));
                    i += 1;
                }
                proof {
                    lemma_members_congruent(out@, entries@);
                    if self.wf() {
                        assert forall|j: int, k: int|
                            0 <= j < out@.len() && 0 <= k < out@.len() && j != k implies (
                        #[trigger] out@[j]).0@ != (#[trigger] out@[k]).0@ by {
                            assert(entries@[j].0@ != entries@[k].0@);
                        }
                    }
                }
                Json::Object(out)
            },
        }
    }
}

/// A deep copy of a value.
pub fn clone(value: &Json) -> (r: Json)
    ensures
        r@ == value@,
        value.wf() ==> r.wf(),
{
    value.clone()
}

} // verus!

