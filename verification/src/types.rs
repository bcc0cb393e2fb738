//! Options and deltas.
//!
//! A delta owns the values it carries: they are copied out of the inputs, so a
//! delta stays valid however long the values it was computed from live.

use crate::json::{distinct_keys, has_key, key_index, Json, JsonView, Number};
use std::cmp::Ordering;
use vstd::prelude::*;

verus! {

/// The numbers that close the three-element arrays of the wire form.
#[derive(Clone, Copy, Debug, PartialEq, Eq, Structural)]
pub enum MagicNumber {
    Deleted,
    UndefinedDiff,
    ArrayMoved,
}

impl MagicNumber {
    /// The number that stands for `self` on the wire.
    pub open spec fn spec_code(self) -> u64 {
        match self {
            MagicNumber::Deleted => 0,
            MagicNumber::UndefinedDiff => 2,
            MagicNumber::ArrayMoved => 3,
        }
    }

    #[verifier::when_used_as_spec(spec_code)]
    pub fn code(self) -> (r: u64)
        ensures
            r == self.spec_code(),
    {
        match self {
            MagicNumber::Deleted => 0,
            MagicNumber::UndefinedDiff => 2,
            MagicNumber::ArrayMoved => 3,
        }
    }

    /// The JSON number that stands for `self` on the wire.
    pub fn to_json(self) -> (r: Json)
        ensures
            r@ == JsonView::Number(Number::PosInt(self.spec_code())),
            r.wf(),
    {
        Json::Number(Number::PosInt(self.code()))
    }
}

#[derive(Clone, Copy, Debug, PartialEq, Eq, Structural)]
pub struct ArrayOptions {
    pub detect_move: Option<bool>,
    pub include_value_on_move: Option<bool>,
}

#[derive(Clone, Copy, Debug, PartialEq, Eq, Structural)]
pub struct TextDiffOptions {
    pub min_length: Option<usize>,
}

/// What a caller can configure. A field left `None` takes its default.
#[derive(Clone, Copy, Debug, PartialEq, Eq, Structural)]
pub struct Options {
    pub match_by_position: Option<bool>,
    pub arrays: Option<ArrayOptions>,
    pub text_diff: Option<TextDiffOptions>,
    pub clone_diff_values: Option<bool>,
    pub omit_removed_values: Option<bool>,
}

/// The length, in bytes, from which two strings are compared as texts.
pub const DEFAULT_MIN_LENGTH: usize = 60;

impl Options {
    /// The options with every field at its default.
    pub open spec fn spec_default() -> Options {
        Options {
            match_by_position: Some(false),
            arrays: Some(
                ArrayOptions { detect_move: Some(true), include_value_on_move: Some(false) },
            ),
            text_diff: Some(TextDiffOptions { min_length: Some(DEFAULT_MIN_LENGTH) }),
            clone_diff_values: Some(false),
            omit_removed_values: Some(false),
        }
    }

    /// Whether a deletion and an addition of equal values in an array are
    /// recorded as one move. Default: yes.
    pub open spec fn spec_detect_move(&self) -> bool {
        match self.arrays {
            Some(a) => match a.detect_move {
                Some(b) => b,
                None => true,
            },
            None => true,
        }
    }

    /// Whether a move carries the moved value. Default: no.
    pub open spec fn spec_include_value_on_move(&self) -> bool {
        match self.arrays {
            Some(a) => match a.include_value_on_move {
                Some(b) => b,
                None => false,
            },
            None => false,
        }
    }

    /// The length, in bytes, that both strings must reach to be compared as
    /// texts. Default: `DEFAULT_MIN_LENGTH`.
    pub open spec fn spec_min_length(&self) -> usize {
        match self.text_diff {
            Some(t) => match t.min_length {
                Some(n) => n,
                None => DEFAULT_MIN_LENGTH,
            },
            None => DEFAULT_MIN_LENGTH,
        }
    }

    /// Whether a delta leaves out the values that a change removes.
    /// Default: no.
    pub open spec fn spec_omit_removed_values(&self) -> bool {
        match self.omit_removed_values {
            Some(b) => b,
            None => false,
        }
    }

    #[verifier::when_used_as_spec(spec_detect_move)]
    pub fn detect_move(&self) -> (r: bool)
        ensures
            r == self.spec_detect_move(),
    {
        match self.arrays {
            Some(a) => match a.detect_move {
                Some(b) => b,
                None => true,
            },
            None => true,
        }
    }

    #[verifier::when_used_as_spec(spec_include_value_on_move)]
    pub fn include_value_on_move(&self) -> (r: bool)
        ensures
            r == self.spec_include_value_on_move(),
    {
        match self.arrays {
            Some(a) => match a.include_value_on_move {
                Some(b) => b,
                None => false,
            },
            None => false,
        }
    }

    #[verifier::when_used_as_spec(spec_min_length)]
    pub fn min_length(&self) -> (r: usize)
        ensures
            r == self.spec_min_length(),
    {
        match self.text_diff {
            Some(t) => match t.min_length {
                Some(n) => n,
                None => DEFAULT_MIN_LENGTH,
            },
            None => DEFAULT_MIN_LENGTH,
        }
    }

    #[verifier::when_used_as_spec(spec_omit_removed_values)]
    pub fn omit_removed_values(&self) -> (r: bool)
        ensures
            r == self.spec_omit_removed_values(),
    {
        match self.omit_removed_values {
            Some(b) => b,
            None => false,
        }
    }
}

impl Default for Options {
    fn default() -> (r: Options)
        ensures
            r == Options::spec_default(),
    {
        Options {
            match_by_position: Some(false),
            arrays: Some(
                ArrayOptions { detect_move: Some(true), include_value_on_move: Some(false) },
            ),
            text_diff: Some(TextDiffOptions { min_length: Some(DEFAULT_MIN_LENGTH) }),
            clone_diff_values: Some(false),
            omit_removed_values: Some(false),
        }
    }
}

/// The key of an operation of an array delta.
///
/// `NewOrModified(i)` is a position in the array after the change,
/// `RemovedOrMoved(i)` a position in the array before it.
#[derive(Clone, Copy, Debug, PartialEq, Eq, Structural)]
pub enum ArrayDeltaIndex {
    NewOrModified(usize),
    RemovedOrMoved(usize),
}

impl ArrayDeltaIndex {
    /// The position that the key holds.
    pub open spec fn spec_index(self) -> usize {
        match self {
            ArrayDeltaIndex::NewOrModified(i) => i,
            ArrayDeltaIndex::RemovedOrMoved(i) => i,
        }
    }

    /// The order of keys: every `RemovedOrMoved` is below every
    /// `NewOrModified`; keys of one kind are ordered by position.
    pub open spec fn spec_lt(self, other: ArrayDeltaIndex) -> bool {
        match (self, other) {
            (ArrayDeltaIndex::NewOrModified(a), ArrayDeltaIndex::NewOrModified(b)) => a < b,
            (ArrayDeltaIndex::RemovedOrMoved(a), ArrayDeltaIndex::RemovedOrMoved(b)) => a < b,
            (ArrayDeltaIndex::RemovedOrMoved(_), ArrayDeltaIndex::NewOrModified(_)) => true,
            (ArrayDeltaIndex::NewOrModified(_), ArrayDeltaIndex::RemovedOrMoved(_)) => false,
        }
    }

    #[verifier::when_used_as_spec(spec_index)]
    pub fn index(self) -> (r: usize)
        ensures
            r == self.spec_index(),
    {
        match self {
            ArrayDeltaIndex::NewOrModified(i) => i,
            ArrayDeltaIndex::RemovedOrMoved(i) => i,
        }
    }

    /// Whether `self` is below `other` in the order of keys.
    #[verifier::when_used_as_spec(spec_lt)]
    pub fn lt(self, other: ArrayDeltaIndex) -> (r: bool)
        ensures
            r == self.spec_lt(other),
    {
        match (self, other) {
            (ArrayDeltaIndex::NewOrModified(a), ArrayDeltaIndex::NewOrModified(b)) => a < b,
            (ArrayDeltaIndex::RemovedOrMoved(a), ArrayDeltaIndex::RemovedOrMoved(b)) => a < b,
            (ArrayDeltaIndex::RemovedOrMoved(_), ArrayDeltaIndex::NewOrModified(_)) => true,
            (ArrayDeltaIndex::NewOrModified(_), ArrayDeltaIndex::RemovedOrMoved(_)) => false,
        }
    }

    /// The order of keys, as a three-way comparison.
    pub fn cmp(&self, other: &ArrayDeltaIndex) -> (o: Ordering)
        ensures
            o == Ordering::Less <==> self.spec_lt(*other),
            o == Ordering::Equal <==> *self == *other,
            o == Ordering::Greater <==> other.spec_lt(*self),
    {
        match (*self, *other) {
            (ArrayDeltaIndex::NewOrModified(a), ArrayDeltaIndex::NewOrModified(b)) => {
                if a < b {
                    Ordering::Less
                } else if a == b {
                    Ordering::Equal
                } else {
                    Ordering::Greater
                }
            },
            (ArrayDeltaIndex::RemovedOrMoved(a), ArrayDeltaIndex::RemovedOrMoved(b)) => {
                if a < b {
                    Ordering::Less
                } else if a == b {
                    Ordering::Equal
                } else {
                    Ordering::Greater
                }
            },
            (ArrayDeltaIndex::RemovedOrMoved(_), ArrayDeltaIndex::NewOrModified(_)) => {
                Ordering::Less
            },
            (ArrayDeltaIndex::NewOrModified(_), ArrayDeltaIndex::RemovedOrMoved(_)) => {
                Ordering::Greater
            },
        }
    }
}

/// The difference between two JSON values.
#[derive(Debug)]
pub enum Delta {
    /// The value did not exist and now does.
    Added(Json),
    /// The old value was replaced by the new one.
    Modified(Json, Json),
    /// The value existed and is now absent.
    Deleted(Json),
    /// The changes of the members of an object, by key.
    Object(Vec<(String, Delta)>),
    /// The operations on an array, by key.
    Array(Vec<(ArrayDeltaIndex, Delta)>),
    /// The element moved to `new_index`; found only in an array delta, under
    /// the key of the position that it left.
    Moved { moved_value: Option<Json>, new_index: usize },
    /// A patch, in unidiff form, that turns the old string into the new one.
    TextDiff(String),
    /// No change.
    Unchanged,
}

/// The mathematical model of a delta. The order in which an object or array
/// delta lists its entries is no part of it.
pub enum DeltaView {
    Added(JsonView),
    Modified(JsonView, JsonView),
    Deleted(JsonView),
    Object(Map<Seq<char>, DeltaView>),
    Array(Map<ArrayDeltaIndex, DeltaView>),
    Moved { moved_value: Option<JsonView>, new_index: usize },
    TextDiff(Seq<char>),
    Unchanged,
}

/// Whether some operation of `ops` has the key `key`.
pub open spec fn has_op(ops: Seq<(ArrayDeltaIndex, Delta)>, key: ArrayDeltaIndex) -> bool {
    exists|i: int| 0 <= i < ops.len() && (#[trigger] ops[i]).0 == key
}

/// The position of an operation with the key `key`, where there is one.
pub open spec fn op_index(ops: Seq<(ArrayDeltaIndex, Delta)>, key: ArrayDeltaIndex) -> int {
    choose|i: int| 0 <= i < ops.len() && (#[trigger] ops[i]).0 == key
}

/// No key occurs in two operations.
pub open spec fn distinct_ops(ops: Seq<(ArrayDeltaIndex, Delta)>) -> bool {
    forall|i: int, j: int|
        0 <= i < ops.len() && 0 <= j < ops.len() && i != j ==> (#[trigger] ops[i]).0 != (
        #[trigger] ops[j]).0
}

/// The model of a delta.
pub open spec fn delta_view(d: Delta) -> DeltaView
    decreases d,
{
    match d {
        Delta::Added(v) => DeltaView::Added(v@),
        Delta::Modified(l, r) => DeltaView::Modified(l@, r@),
        Delta::Deleted(v) => DeltaView::Deleted(v@),
        Delta::Object(entries) => DeltaView::Object(delta_members(entries@)),
        Delta::Array(ops) => DeltaView::Array(delta_ops(ops@)),
        Delta::Moved { moved_value, new_index } => DeltaView::Moved {
            moved_value: match moved_value {
                Some(v) => Some(v@),
                None => None,
            },
            new_index,
        },
        Delta::TextDiff(p) => DeltaView::TextDiff(p@),
        Delta::Unchanged => DeltaView::Unchanged,
    }
}

/// The mapping from keys to changes that the entries of an object delta
/// stand for. Where a key occurs twice, the later entry counts.
pub open spec fn delta_members(entries: Seq<(String, Delta)>) -> Map<Seq<char>, DeltaView>
    decreases entries,
{
    if entries.len() == 0 {
        Map::empty()
    } else {
        delta_members(entries.drop_last()).insert(
            entries.last().0@,
            delta_view(entries.last().1),
        )
    }
}

/// The mapping from keys to operations that the entries of an array delta
/// stand for. Where a key occurs twice, the later entry counts.
pub open spec fn delta_ops(ops: Seq<(ArrayDeltaIndex, Delta)>) -> Map<ArrayDeltaIndex, DeltaView>
    decreases ops,
{
    if ops.len() == 0 {
        Map::empty()
    } else {
        delta_ops(ops.drop_last()).insert(ops.last().0, delta_view(ops.last().1))
    }
}

/// The number of nodes of a delta: a measure for recursion.
pub open spec fn delta_size(d: Delta) -> nat
    decreases d,
{
    match d {
        Delta::Object(entries) => 1 + delta_member_sizes(entries@),
        Delta::Array(ops) => 1 + delta_op_sizes(ops@),
        _ => 1,
    }
}

pub open spec fn delta_member_sizes(entries: Seq<(String, Delta)>) -> nat
    decreases entries,
{
    if entries.len() == 0 {
        0
    } else {
        delta_member_sizes(entries.drop_last()) + delta_size(entries.last().1)
    }
}

pub open spec fn delta_op_sizes(ops: Seq<(ArrayDeltaIndex, Delta)>) -> nat
    decreases ops,
{
    if ops.len() == 0 {
        0
    } else {
        delta_op_sizes(ops.drop_last()) + delta_size(ops.last().1)
    }
}

impl View for Delta {
    type V = DeltaView;

    open spec fn view(&self) -> DeltaView {
        delta_view(*self)
    }
}

/// The keys of `delta_members` are the keys of the entries; it is finite; and
/// with distinct keys each entry is the member under its key.
pub proof fn lemma_delta_members(entries: Seq<(String, Delta)>)
    ensures
        delta_members(entries).dom().finite(),
        forall|k: Seq<char>| #[trigger]
            delta_members(entries).contains_key(k) <==> has_key(entries, k),
        distinct_keys(entries) ==> forall|i: int|
            0 <= i < entries.len() ==> delta_members(entries)[(#[trigger] entries[i]).0@]
                == entries[i].1@,
    decreases entries.len(),
{
    if entries.len() > 0 {
        let init = entries.drop_last();
        let last = entries.last();
        lemma_delta_members(init);
        assert forall|k: Seq<char>| #[trigger]
            delta_members(entries).contains_key(k) <==> has_key(entries, k) by {
            if has_key(entries, k) {
                let i = key_index(entries, k);
                if i < entries.len() - 1 {
                    assert(init[i].0@ == k);
                }
            }
            if delta_members(entries).contains_key(k) {
                if k != last.0@ {
                    let i = key_index(init, k);
                    assert(entries[i].0@ == k);
                } else {
                    assert(entries[entries.len() - 1].0@ == k);
                }
            }
        }
        if distinct_keys(entries) {
            assert(distinct_keys(init)) by {
                assert forall|i: int, j: int|
                    0 <= i < init.len() && 0 <= j < init.len() && i != j implies (
                #[trigger] init[i]).0@ != (#[trigger] init[j]).0@ by {
                    assert(init[i] == entries[i]);
                    assert(init[j] == entries[j]);
                }
            }
            assert forall|i: int| 0 <= i < entries.len() implies delta_members(entries)[(
            #[trigger] entries[i]).0@] == entries[i].1@ by {
                if i < entries.len() - 1 {
                    assert(init[i] == entries[i]);
                    assert(entries[i].0@ != entries[entries.len() - 1].0@);
                }
            }
        }
    }
}

/// The keys of `delta_ops` are the keys of the operations; it is finite; and
/// with distinct keys each operation is the one under its key.
pub proof fn lemma_delta_ops(ops: Seq<(ArrayDeltaIndex, Delta)>)
    ensures
        delta_ops(ops).dom().finite(),
        forall|k: ArrayDeltaIndex| #[trigger] delta_ops(ops).contains_key(k) <==> has_op(ops, k),
        distinct_ops(ops) ==> forall|i: int|
            0 <= i < ops.len() ==> delta_ops(ops)[(#[trigger] ops[i]).0] == ops[i].1@,
    decreases ops.len(),
{
    if ops.len() > 0 {
        let init = ops.drop_last();
        let last = ops.last();
        lemma_delta_ops(init);
        assert forall|k: ArrayDeltaIndex| #[trigger]
            delta_ops(ops).contains_key(k) <==> has_op(ops, k) by {
            if has_op(ops, k) {
                let i = op_index(ops, k);
                if i < ops.len() - 1 {
                    assert(init[i].0 == k);
                }
            }
            if delta_ops(ops).contains_key(k) {
                if k != last.0 {
                    let i = op_index(init, k);
                    assert(ops[i].0 == k);
                } else {
                    assert(ops[ops.len() - 1].0 == k);
                }
            }
        }
        if distinct_ops(ops) {
            assert(distinct_ops(init)) by {
                assert forall|i: int, j: int|
                    0 <= i < init.len() && 0 <= j < init.len() && i != j implies (
                #[trigger] init[i]).0 != (#[trigger] init[j]).0 by {
                    assert(init[i] == ops[i]);
                    assert(init[j] == ops[j]);
                }
            }
            assert forall|i: int| 0 <= i < ops.len() implies delta_ops(ops)[(
            #[trigger] ops[i]).0] == ops[i].1@ by {
                if i < ops.len() - 1 {
                    assert(init[i] == ops[i]);
                    assert(ops[i].0 != ops[ops.len() - 1].0);
                }
            }
        }
    }
}

/// Each member of a list is counted in `delta_member_sizes`.
pub proof fn lemma_delta_member_sizes(entries: Seq<(String, Delta)>, i: int)
    requires
        0 <= i < entries.len(),
    ensures
        delta_size(entries[i].1) <= delta_member_sizes(entries),
    decreases entries.len(),
{
    if i < entries.len() - 1 {
        lemma_delta_member_sizes(entries.drop_last(), i);
    }
}

/// Each operation of a list is counted in `delta_op_sizes`.
pub proof fn lemma_delta_op_sizes(ops: Seq<(ArrayDeltaIndex, Delta)>, i: int)
    requires
        0 <= i < ops.len(),
    ensures
        delta_size(ops[i].1) <= delta_op_sizes(ops),
    decreases ops.len(),
{
    if i < ops.len() - 1 {
        lemma_delta_op_sizes(ops.drop_last(), i);
    }
}

impl Delta {
    /// The values that the delta carries are well formed, and no object or
    /// array delta, at any depth, holds a key twice.
    pub open spec fn wf(&self) -> bool
        decreases self,
    {
        match self {
            Delta::Added(v) => v.wf(),
            Delta::Modified(l, r) => l.wf() && r.wf(),
            Delta::Deleted(v) => v.wf(),
            Delta::Object(entries) => distinct_keys(entries@) && forall|i: int|
                0 <= i < entries@.len() ==> (#[trigger] entries@[i]).1.wf(),
            Delta::Array(ops) => distinct_ops(ops@) && forall|i: int|
                0 <= i < ops@.len() ==> (#[trigger] ops@[i]).1.wf(),
            Delta::Moved { moved_value, new_index } => match moved_value {
                Some(v) => v.wf(),
                None => true,
            },
            Delta::TextDiff(_) => true,
            Delta::Unchanged => true,
        }
    }

    /// The number of nodes of the delta.
    pub open spec fn size(&self) -> nat {
        delta_size(*self)
    }

    /// Whether the delta is well formed: the values that it carries are,
    /// and no object or array delta, at any depth, holds a key twice.
    pub fn is_well_formed(&self) -> (r: bool)
        ensures
            r == self.wf(),
        decreases self.size(),
    {
        match self {
            Delta::Added(v) => v.is_well_formed(),
            Delta::Modified(l, r) => l.is_well_formed() && r.is_well_formed(),
            Delta::Deleted(v) => v.is_well_formed(),
            Delta::Moved { moved_value, .. } => match moved_value {
                Some(v) => v.is_well_formed(),
                None => true,
            },
            Delta::TextDiff(_) => true,
            Delta::Unchanged => true,
            Delta::Object(entries) => {
                let mut i: usize = 0;
                while i < entries.len()
                    invariant
                        0 <= i <= entries@.len(),
                        *self == Delta::Object(*entries),
                        forall|j: int| 0 <= j < i ==> (#[trigger] entries@[j]).1.wf(),
                        forall|j: int, k: int|
                            0 <= j < i && 0 <= k < entries@.len() && j != k ==> (
                            #[trigger] entries@[j]).0@ != (#[trigger] entries@[k]).0@,
                    decreases entries@.len() - i,
                {
                    proof {
                        lemma_delta_member_sizes(entries@, i as int);
                    }
                    if !entries[i].1.is_well_formed() {
                        return false;
                    }
                    let mut k: usize = i + 1;
                    while k < entries.len()
                        invariant
                            i < k <= entries@.len(),
                            *self == Delta::Object(*entries),
                            forall|m: int|
                                i < m < k ==> (#[trigger] entries@[m]).0@ != entries@[i as int].0@,
                        decreases entries@.len() - k,
                    {
                        if entries[k].0 == entries[i].0 {
                            proof {
                                assert(entries@[k as int].0@ == entries@[i as int].0@);
                                assert(!distinct_keys(entries@));
                            }
                            return false;
                        }
                        k += 1;
                    }
                    i += 1;
                }
                true
            },
            Delta::Array(ops) => {
                let mut i: usize = 0;
                while i < ops.len()
                    invariant
                        0 <= i <= ops@.len(),
                        *self == Delta::Array(*ops),
                        forall|j: int| 0 <= j < i ==> (#[trigger] ops@[j]).1.wf(),
                        forall|j: int, k: int|
                            0 <= j < i && 0 <= k < ops@.len() && j != k ==> (#[trigger] ops@[j]).0
                                != (#[trigger] ops@[k]).0,
                    decreases ops@.len() - i,
                {
                    proof {
                        lemma_delta_op_sizes(ops@, i as int);
                    }
                    if !ops[i].1.is_well_formed() {
                        return false;
                    }
                    let mut k: usize = i + 1;
                    while k < ops.len()
                        invariant
                            i < k <= ops@.len(),
                            *self == Delta::Array(*ops),
                            forall|m: int| i < m < k ==> (#[trigger] ops@[m]).0 != ops@[i as int].0,
                        decreases ops@.len() - k,
                    {
                        if ops[k].0 == ops[i].0 {
                            proof {
                                assert(ops@[k as int].0 == ops@[i as int].0);
                                assert(!distinct_ops(ops@));
                            }
                            return false;
                        }
                        k += 1;
                    }
                    i += 1;
                }
                true
            },
        }
    }

    /// A delta that adds a copy of `value`.
    pub fn added_ref(value: &Json) -> (d: Delta)
        ensures
            d@ == DeltaView::Added(value@),
            value.wf() ==> d.wf(),
    {
        Delta::Added(value.clone())
    }

    /// A delta that replaces a copy of `old_value` by a copy of `new_value`.
    pub fn modified_ref(old_value: &Json, new_value: &Json) -> (d: Delta)
        ensures
            d@ == DeltaView::Modified(old_value@, new_value@),
            old_value.wf() && new_value.wf() ==> d.wf(),
    {
        Delta::Modified(old_value.clone(), new_value.clone())
    }

    /// A delta that deletes a value, of which it keeps a copy.
    pub fn deleted_ref(value: &Json) -> (d: Delta)
        ensures
            d@ == DeltaView::Deleted(value@),
            value.wf() ==> d.wf(),
    {
        Delta::Deleted(value.clone())
    }

    /// A delta that moves an element to `new_index` and carries a copy of it.
    pub fn moved_ref(moved_value: &Json, new_index: usize) -> (d: Delta)
        ensures
            d@ == (DeltaView::Moved { moved_value: Some(moved_value@), new_index }),
            moved_value.wf() ==> d.wf(),
    {
        Delta::Moved { moved_value: Some(moved_value.clone()), new_index }
    }

    /// A delta that patches a string with the unidiff `text_diff`.
    pub fn text_diff_ref(text_diff: &str) -> (d: Delta)
        ensures
            d@ == DeltaView::TextDiff(text_diff@),
            d.wf(),
    {
        Delta::TextDiff(text_diff.to_owned())
    }
}

/// Lists of entries with the same keys and the same deltas, position by
/// position, stand for the same mapping.
pub proof fn lemma_delta_members_congruent(a: Seq<(String, Delta)>, b: Seq<(String, Delta)>)
    requires
        a.len() == b.len(),
        forall|i: int| 0 <= i < a.len() ==> (#[trigger] a[i]).0@ == b[i].0@ && a[i].1@ == b[i].1@,
    ensures
        delta_members(a) == delta_members(b),
    decreases a.len(),
{
    if a.len() > 0 {
        let n = a.len() - 1;
        assert(a[n].0@ == b[n].0@ && a[n].1@ == b[n].1@);
        assert forall|i: int| 0 <= i < a.drop_last().len() implies (#[trigger] a.drop_last()[i]).0@
            == b.drop_last()[i].0@ && a.drop_last()[i].1@ == b.drop_last()[i].1@ by {
            assert(a[i].0@ == b[i].0@ && a[i].1@ == b[i].1@);
        }
        lemma_delta_members_congruent(a.drop_last(), b.drop_last());
    }
}

/// Lists of operations with the same keys and the same deltas, position by
/// position, stand for the same mapping.
pub proof fn lemma_delta_ops_congruent(
    a: Seq<(ArrayDeltaIndex, Delta)>,
    b: Seq<(ArrayDeltaIndex, Delta)>,
)
    requires
        a.len() == b.len(),
        forall|i: int| 0 <= i < a.len() ==> (#[trigger] a[i]).0 == b[i].0 && a[i].1@ == b[i].1@,
    ensures
        delta_ops(a) == delta_ops(b),
    decreases a.len(),
{
    if a.len() > 0 {
        let n = a.len() - 1;
        assert(a[n].0 == b[n].0 && a[n].1@ == b[n].1@);
        assert forall|i: int| 0 <= i < a.drop_last().len() implies (#[trigger] a.drop_last()[i]).0
            == b.drop_last()[i].0 && a.drop_last()[i].1@ == b.drop_last()[i].1@ by {
            assert(a[i].0 == b[i].0 && a[i].1@ == b[i].1@);
        }
        lemma_delta_ops_congruent(a.drop_last(), b.drop_last());
    }
}

impl Clone for Delta {
    /// A deep copy.
    fn clone(&self) -> (r: Delta)
        ensures
            r@ == self@,
            self.wf() ==> r.wf(),
        decreases self.size(),
    {
        match self {
            Delta::Added(v) => Delta::Added(v.clone()),
            Delta::Modified(l, r) => Delta::Modified(l.clone(), r.clone()),
            Delta::Deleted(v) => Delta::Deleted(v.clone()),
            Delta::Moved { moved_value, new_index } => Delta::Moved {
                moved_value: match moved_value {
                    Some(v) => Some(v.clone()),
                    None => None,
                },
                new_index: *new_index,
            },
            Delta::TextDiff(p) => Delta::TextDiff(p.clone()),
            Delta::Unchanged => Delta::Unchanged,
            Delta::Object(entries) => {
                let mut out: Vec<(String, Delta)> = Vec::new();
                let mut i: usize = 0;
                while i < entries.len()
                    invariant
                        0 <= i <= entries@.len(),
                        *self == Delta::Object(*entries),
                        out@.len() == i,
                        forall|j: int|
                            0 <= j < i ==> (#[trigger] out@[j]).0@ == entries@[j].0@ && out@[j].1@
                                == entries@[j].1@,
                        self.wf() ==> forall|j: int| 0 <= j < i ==> (#[trigger] out@[j]).1.wf(),
                    decreases entries@.len() - i,
                {
                    proof {
                        lemma_delta_member_sizes(entries@, i as int);
                        if self.wf() {
                            assert(entries@[i as int].1.wf());
                        }
                    }
                    out.push((entries[i].0.clone(), entries[i].1.clone()));
                    i += 1;
                }
                proof {
                    lemma_delta_members_congruent(out@, entries@);
                    if self.wf() {
                        assert forall|j: int, k: int|
                            0 <= j < out@.len() && 0 <= k < out@.len() && j != k implies (
                        #[trigger] out@[j]).0@ != (#[trigger] out@[k]).0@ by {
                            assert(entries@[j].0@ != entries@[k].0@);
                        }
                    }
                }
                Delta::Object(out)
            },
            Delta::Array(ops) => {
                let mut out: Vec<(ArrayDeltaIndex, Delta)> = Vec::new();
                let mut i: usize = 0;
                while i < ops.len()
                    invariant
                        0 <= i <= ops@.len(),
                        *self == Delta::Array(*ops),
                        out@.len() == i,
                        forall|j: int|
                            0 <= j < i ==> (#[trigger] out@[j]).0 == ops@[j].0 && out@[j].1@
                                == ops@[j].1@,
                        self.wf() ==> forall|j: int| 0 <= j < i ==> (#[trigger] out@[j]).1.wf(),
                    decreases ops@.len() - i,
                {
                    proof {
                        lemma_delta_op_sizes(ops@, i as int);
                        if self.wf() {
                            assert(ops@[i as int].1.wf());
                        }
                    }
                    out.push((ops[i].0, ops[i].1.clone()));
                    i += 1;
                }
                proof {
                    lemma_delta_ops_congruent(out@, ops@);
                    if self.wf() {
                        assert forall|j: int, k: int|
                            0 <= j < out@.len() && 0 <= k < out@.len() && j != k implies (
                        #[trigger] out@[j]).0 != (#[trigger] out@[k]).0 by {
                            assert(ops@[j].0 != ops@[k].0);
                        }
                    }
                }
                Delta::Array(out)
            },
        }
    }
}

/// The first position in `ops` of the key `key`.
pub fn find_op(ops: &Vec<(ArrayDeltaIndex, Delta)>, key: ArrayDeltaIndex) -> (r: Option<usize>)
    ensures
        match r {
            Some(i) => i < ops@.len() && ops@[i as int].0 == key,
            None => !has_op(ops@, key),
        },
{
    let mut i: usize = 0;
    while i < ops.len()
        invariant
            0 <= i <= ops@.len(),
            forall|j: int| 0 <= j < i ==> (#[trigger] ops@[j]).0 != key,
        decreases ops@.len() - i,
    {
        if ops[i].0 == key {
            return Some(i);
        }
        i += 1;
    }
    None
}

} // verus!
