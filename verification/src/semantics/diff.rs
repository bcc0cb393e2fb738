//! What a diff is.

use crate::json::JsonView;
use crate::lcs::lcs_pairs;
use crate::pipeline::texts::text_patch;
use crate::types::{ArrayDeltaIndex, DeltaView, Options};
use vstd::prelude::*;

verus! {

/// The old value as a delta records it: the value itself, or null where the
/// options ask to leave removed values out.
pub open spec fn kept_old(v: JsonView, o: Options) -> JsonView {
    if o.spec_omit_removed_values() {
        JsonView::Null
    } else {
        v
    }
}

/// The value that a move carries: the moved value where the options ask for
/// it and do not leave removed values out.
pub open spec fn carried(v: JsonView, o: Options) -> Option<JsonView> {
    if o.spec_include_value_on_move() && !o.spec_omit_removed_values() {
        Some(v)
    } else {
        None
    }
}

/// The length in bytes of a string in UTF-8.
pub open spec fn byte_len(s: Seq<char>) -> nat {
    vstd::utf8::encode_utf8(s).len()
}

/// The delta between two different strings: a text diff where both are long
/// enough and the text-diff library yields a patch, else a replacement.
pub open spec fn text_delta(l: Seq<char>, r: Seq<char>, o: Options) -> DeltaView {
    if byte_len(l) < o.spec_min_length() || byte_len(r) < o.spec_min_length() {
        DeltaView::Modified(kept_old(JsonView::String(l), o), JsonView::String(r))
    } else {
        match text_patch(l, r) {
            Some(p) => DeltaView::TextDiff(p),
            None => DeltaView::Modified(kept_old(JsonView::String(l), o), JsonView::String(r)),
        }
    }
}

/// The number of leading positions, from `i` on, at which `a` and `b` hold
/// equal values, added to `i`.
pub open spec fn common_head(a: Seq<JsonView>, b: Seq<JsonView>, i: int) -> int
    decreases a.len() - i,
{
    if 0 <= i < a.len() && i < b.len() && a[i] == b[i] {
        common_head(a, b, i + 1)
    } else {
        i
    }
}

/// The number of trailing positions, beyond `t` of them, at which `a` and `b`
/// hold equal values, without reaching into the first `head` positions, added
/// to `t`.
pub open spec fn common_tail(a: Seq<JsonView>, b: Seq<JsonView>, head: int, t: int) -> int
    decreases a.len() - t,
{
    if 0 <= t && 0 <= head && t + head < a.len() && t + head < b.len() && a[a.len() - 1 - t]
        == b[b.len() - 1 - t] {
        common_tail(a, b, head, t + 1)
    } else {
        t
    }
}

/// Whether a pair of `pairs` holds `i` on the left (`left`) or on the right.
pub open spec fn is_matched(pairs: Seq<(int, int)>, left: bool, i: int) -> bool {
    exists|k: int|
        0 <= k < pairs.len() && (if left {
            (#[trigger] pairs[k]).0
        } else {
            pairs[k].1
        }) == i
}

/// The positions below `len` that no pair of `pairs` holds, each raised by
/// `offset`, in rising order.
pub open spec fn unmatched(pairs: Seq<(int, int)>, left: bool, len: int, offset: int) -> Seq<int>
    decreases len,
{
    if len <= 0 {
        Seq::empty()
    } else if is_matched(pairs, left, len - 1) {
        unmatched(pairs, left, len - 1, offset)
    } else {
        unmatched(pairs, left, len - 1, offset).push(len - 1 + offset)
    }
}

/// The first position `k' >= k` of `removed` that no move has claimed and
/// where `a` holds `value`; the length of `removed` where there is none.
pub open spec fn first_fit(
    a: Seq<JsonView>,
    value: JsonView,
    removed: Seq<int>,
    claims: Seq<Option<int>>,
    k: int,
) -> int
    decreases removed.len() - k,
{
    if k < 0 || k >= removed.len() {
        removed.len() as int
    } else if claims[k] is None && a[removed[k]] == value {
        k
    } else {
        first_fit(a, value, removed, claims, k + 1)
    }
}

/// Move detection. `removed` are the positions of `a` that drop out,
/// `targets` the positions of `b` that come in, both rising. The targets are
/// taken in order, from the `p`-th on; each claims the first removed position
/// still free whose value equals its own. The result says, for each removed
/// position, which target claimed it.
pub open spec fn claim_moves(
    a: Seq<JsonView>,
    b: Seq<JsonView>,
    removed: Seq<int>,
    targets: Seq<int>,
    claims: Seq<Option<int>>,
    p: int,
) -> Seq<Option<int>>
    decreases targets.len() - p,
{
    if p < 0 || p >= targets.len() {
        claims
    } else {
        let k = first_fit(a, b[targets[p]], removed, claims, 0);
        if k < removed.len() {
            claim_moves(a, b, removed, targets, claims.update(k, Some(targets[p])), p + 1)
        } else {
            claim_moves(a, b, removed, targets, claims, p + 1)
        }
    }
}

/// The parts of two arrays that an array diff works with.
pub struct ArrayParts {
    /// The length of the common head.
    pub head: int,
    /// The length of the common tail.
    pub tail: int,
    /// The positions of the left array that drop out, rising.
    pub removed: Seq<int>,
    /// The positions of the right array that come in, rising.
    pub targets: Seq<int>,
    /// For each removed position, the target that it moved to, if any.
    pub claims: Seq<Option<int>>,
}

/// The parts of `a` and `b`: the common head and tail are set aside, a
/// longest common subsequence of what lies between stays in place, and the
/// rest drops out of `a` or comes into `b`, or moves where the options have
/// moves detected.
pub open spec fn array_parts(a: Seq<JsonView>, b: Seq<JsonView>, o: Options) -> ArrayParts {
    let head = common_head(a, b, 0);
    let tail = common_tail(a, b, head, 0);
    let mid_a = a.subrange(head, a.len() - tail);
    let mid_b = b.subrange(head, b.len() - tail);
    let pairs = lcs_pairs(mid_a, mid_b, 0, 0);
    let removed = unmatched(pairs, true, mid_a.len() as int, head);
    let targets = unmatched(pairs, false, mid_b.len() as int, head);
    let free = Seq::new(removed.len(), |k: int| None::<int>);
    let claims = if o.spec_detect_move() {
        claim_moves(a, b, removed, targets, free, 0)
    } else {
        free
    };
    ArrayParts { head, tail, removed, targets, claims }
}

/// The operations of an array delta, from what drops out of `a`, what comes
/// into `b` and what moves: under the key of each removed position a
/// deletion, or a move where a target claimed it; under the key of each
/// target that claimed nothing an addition.
pub open spec fn ops_of_parts(
    a: Seq<JsonView>,
    b: Seq<JsonView>,
    removed: Seq<int>,
    targets: Seq<int>,
    claims: Seq<Option<int>>,
    o: Options,
) -> Map<ArrayDeltaIndex, DeltaView> {
    Map::new(
        |key: ArrayDeltaIndex|
            match key {
                ArrayDeltaIndex::RemovedOrMoved(i) => removed.contains(i as int),
                ArrayDeltaIndex::NewOrModified(j) => targets.contains(j as int) && !claims.contains(
                    Some(j as int),
                ),
            },
        |key: ArrayDeltaIndex|
            match key {
                ArrayDeltaIndex::RemovedOrMoved(i) => {
                    let k = removed.index_of(i as int);
                    match claims[k] {
                        Some(j) => DeltaView::Moved {
                            moved_value: carried(a[i as int], o),
                            new_index: j as usize,
                        },
                        None => DeltaView::Deleted(kept_old(a[i as int], o)),
                    }
                },
                ArrayDeltaIndex::NewOrModified(j) => DeltaView::Added(b[j as int]),
            },
    )
}

/// The operations of the delta between the arrays `a` and `b`.
pub open spec fn array_ops(a: Seq<JsonView>, b: Seq<JsonView>, o: Options) -> Map<
    ArrayDeltaIndex,
    DeltaView,
> {
    let parts = array_parts(a, b, o);
    ops_of_parts(a, b, parts.removed, parts.targets, parts.claims, o)
}

/// The delta between two arrays.
pub open spec fn array_delta(a: Seq<JsonView>, b: Seq<JsonView>, o: Options) -> DeltaView {
    if a == b {
        DeltaView::Unchanged
    } else {
        DeltaView::Array(array_ops(a, b, o))
    }
}

/// The change of the member under `key` between two objects; an absent
/// member counts as null.
pub open spec fn member_delta(l: JsonView, r: JsonView, key: Seq<char>, o: Options) -> DeltaView
    decreases l, 0nat,
{
    match (l, r) {
        (JsonView::Object(lm), JsonView::Object(rm)) => {
            if lm.contains_key(key) && rm.contains_key(key) {
                diff_spec(lm[key], rm[key], o)
            } else if lm.contains_key(key) {
                if lm[key] is Null {
                    DeltaView::Unchanged
                } else {
                    DeltaView::Deleted(kept_old(lm[key], o))
                }
            } else if rm.contains_key(key) {
                if rm[key] is Null {
                    DeltaView::Unchanged
                } else {
                    DeltaView::Added(rm[key])
                }
            } else {
                DeltaView::Unchanged
            }
        },
        _ => DeltaView::Unchanged,
    }
}

/// The changes of the members of two objects: for each key of either whose
/// member changed, the change.
pub open spec fn object_changes(l: JsonView, r: JsonView, o: Options) -> Map<Seq<char>, DeltaView>
    decreases l, 1nat,
{
    Map::new(
        |key: Seq<char>| !(member_delta(l, r, key, o) is Unchanged),
        |key: Seq<char>| member_delta(l, r, key, o),
    )
}

/// The delta that `diff` computes between `l` and `r` under the options `o`.
pub open spec fn diff_spec(l: JsonView, r: JsonView, o: Options) -> DeltaView
    decreases l, 2nat,
{
    if l == r {
        DeltaView::Unchanged
    } else if r is Null {
        DeltaView::Deleted(kept_old(l, o))
    } else if l is Null {
        DeltaView::Added(r)
    } else if l is Bool || l is Number || !l.same_variant(r) {
        DeltaView::Modified(kept_old(l, o), r)
    } else {
        match (l, r) {
            (JsonView::String(a), JsonView::String(b)) => text_delta(a, b, o),
            (JsonView::Array(a), JsonView::Array(b)) => array_delta(a, b, o),
            (JsonView::Object(_), JsonView::Object(_)) => {
                let changes = object_changes(l, r, o);
                if changes.dom() =~= Set::empty() {
                    DeltaView::Unchanged
                } else {
                    DeltaView::Object(changes)
                }
            },
            _ => DeltaView::Unchanged,
        }
    }
}

/// The change of a member is the delta between the two members, with null
/// for one that is absent.
pub proof fn lemma_member_delta(l: JsonView, r: JsonView, key: Seq<char>, o: Options)
    requires
        l is Object,
        r is Object,
    ensures
        member_delta(l, r, key, o) == diff_spec(l.get_or_null(key), r.get_or_null(key), o),
{
}

} // verus!
