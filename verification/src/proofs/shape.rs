//! Array deltas of the shape that an array diff produces, and their
//! reversals.
//!
//! Such a delta takes some positions, the sources, out of one array and
//! fills some positions, the targets, of the other. Some sources are
//! claimed by a target each: their elements move there. The other sources
//! are deleted, the other targets added.

use crate::json::JsonView;
use crate::proofs::rearrange::{holds, insertion_of, rearranges};
use crate::proofs::sequences::{ascending, within, without};
use crate::semantics::reverse::{reversed_entry, reversed_ops, ReversedOp};
use crate::types::{ArrayDeltaIndex, DeltaView};
use vstd::prelude::*;

verus! {

/// The claims are valid: there is one for each source, each claimed
/// position is a target, and no target has claimed two sources.
pub open spec fn claims_valid(sources: Seq<int>, targets: Seq<int>, claims: Seq<Option<int>>) -> bool {
    &&& claims.len() == sources.len()
    &&& forall|k: int|
        0 <= k < claims.len() && (#[trigger] claims[k]) is Some ==> holds(targets, claims[k]->0)
    &&& forall|k: int, l: int|
        0 <= k < claims.len() && 0 <= l < claims.len() && k != l && (#[trigger] claims[k]) is Some
            ==> claims[k] != #[trigger] claims[l]
}

/// The claims seen from the targets: for each target, the source that it
/// claimed, if any.
pub open spec fn inverse(sources: Seq<int>, targets: Seq<int>, claims: Seq<Option<int>>) -> Seq<
    Option<int>,
> {
    Seq::new(
        targets.len(),
        |q: int|
            if claims.contains(Some(targets[q])) {
                Some(sources[claims.index_of(Some(targets[q]))])
            } else {
                None
            },
    )
}

/// The value that the move to the target `t` carries.
pub open spec fn carried_to(
    sources: Seq<int>,
    claims: Seq<Option<int>>,
    carry: spec_fn(int) -> Option<JsonView>,
    t: int,
) -> Option<JsonView> {
    carry(sources[claims.index_of(Some(t))])
}

/// The operations of a delta of the shape: under the key of each source a
/// move to the target that claimed it, or a deletion; under the key of each
/// target that claimed nothing an addition.
pub open spec fn shape_ops(
    sources: Seq<int>,
    targets: Seq<int>,
    claims: Seq<Option<int>>,
    deleted: spec_fn(int) -> JsonView,
    added: spec_fn(int) -> JsonView,
    carry: spec_fn(int) -> Option<JsonView>,
) -> Map<ArrayDeltaIndex, DeltaView> {
    Map::new(
        |key: ArrayDeltaIndex|
            match key {
                ArrayDeltaIndex::RemovedOrMoved(i) => sources.contains(i as int),
                ArrayDeltaIndex::NewOrModified(j) => targets.contains(j as int) && !claims.contains(
                    Some(j as int),
                ),
            },
        |key: ArrayDeltaIndex|
            match key {
                ArrayDeltaIndex::RemovedOrMoved(i) => {
                    let k = sources.index_of(i as int);
                    match claims[k] {
                        Some(j) => DeltaView::Moved {
                            moved_value: carry(i as int),
                            new_index: j as usize,
                        },
                        None => DeltaView::Deleted(deleted(i as int)),
                    }
                },
                ArrayDeltaIndex::NewOrModified(j) => DeltaView::Added(added(j as int)),
            },
    )
}

/// In a strictly rising sequence each position is found where it stands.
pub proof fn lemma_index_of(s: Seq<int>, k: int)
    requires
        ascending(s),
        0 <= k < s.len(),
    ensures
        s.contains(s[k]),
        s.index_of(s[k]) == k,
{
    let at = s.index_of(s[k]);
    assert(0 <= at < s.len() && s[at] == s[k]);
    if at < k {
        assert(s[at] < s[k]);
    }
    if k < at {
        assert(s[k] < s[at]);
    }
}

/// A position that a sequence holds is found in it.
pub proof fn lemma_found(s: Seq<int>, v: int)
    requires
        s.contains(v),
    ensures
        0 <= s.index_of(v) < s.len(),
        s[s.index_of(v)] == v,
{
}

/// A claim is found where it stands.
pub proof fn lemma_claim_index(
    sources: Seq<int>,
    targets: Seq<int>,
    claims: Seq<Option<int>>,
    k: int,
)
    requires
        claims_valid(sources, targets, claims),
        0 <= k < claims.len(),
        claims[k] is Some,
    ensures
        claims.contains(claims[k]),
        claims.index_of(claims[k]) == k,
{
    let at = claims.index_of(claims[k]);
    assert(0 <= at < claims.len() && claims[at] == claims[k]);
    if at != k {
        assert(claims[k] != claims[at]);
    }
}

/// A claim that the claims hold is found in them.
pub proof fn lemma_claim_found(claims: Seq<Option<int>>, t: int)
    requires
        claims.contains(Some(t)),
    ensures
        0 <= claims.index_of(Some(t)) < claims.len(),
        claims[claims.index_of(Some(t))] == Some(t),
{
}

/// The claims seen from the targets are valid, and say of a target and a
/// source what the claims say of the source and the target.
pub proof fn lemma_inverse(sources: Seq<int>, targets: Seq<int>, claims: Seq<Option<int>>)
    requires
        ascending(sources),
        ascending(targets),
        claims_valid(sources, targets, claims),
    ensures
        claims_valid(targets, sources, inverse(sources, targets, claims)),
        forall|k: int, q: int|
            0 <= k < sources.len() && 0 <= q < targets.len() ==> ((#[trigger] claims[k]) == Some(
                targets[q],
            ) <==> (#[trigger] inverse(sources, targets, claims)[q]) == Some(sources[k])),
{
    let inv = inverse(sources, targets, claims);
    assert forall|k: int, q: int| 0 <= k < sources.len() && 0 <= q < targets.len() implies ((
    #[trigger] claims[k]) == Some(targets[q]) <==> (#[trigger] inv[q]) == Some(sources[k])) by {
        if claims[k] == Some(targets[q]) {
            lemma_claim_index(sources, targets, claims, k);
        }
        if inv[q] == Some(sources[k]) {
            lemma_claim_found(claims, targets[q]);
            let at = claims.index_of(Some(targets[q]));
            assert(sources[at] == sources[k]);
            if at < k {
                assert(sources[at] < sources[k]);
            }
            if k < at {
                assert(sources[k] < sources[at]);
            }
        }
    }
    assert forall|q: int| 0 <= q < inv.len() && (#[trigger] inv[q]) is Some implies holds(
        sources,
        inv[q]->0,
    ) by {
        lemma_claim_found(claims, targets[q]);
        let at = claims.index_of(Some(targets[q]));
        lemma_index_of(sources, at);
    }
    assert forall|q: int, r: int|
        0 <= q < inv.len() && 0 <= r < inv.len() && q != r && (#[trigger] inv[q])
            is Some implies inv[q] != #[trigger] inv[r] by {
        if inv[q] == inv[r] {
            lemma_claim_found(claims, targets[q]);
            lemma_claim_found(claims, targets[r]);
            let kq = claims.index_of(Some(targets[q]));
            let kr = claims.index_of(Some(targets[r]));
            assert(sources[kq] == sources[kr]);
            if kq < kr {
                assert(sources[kq] < sources[kr]);
            }
            if kr < kq {
                assert(sources[kr] < sources[kq]);
            }
            assert(targets[q] == targets[r]);
            if q < r {
                assert(targets[q] < targets[r]);
            } else {
                assert(targets[r] < targets[q]);
            }
        }
    }
}

/// Seen from the sources again, the claims are what they were.
pub proof fn lemma_inverse_twice(sources: Seq<int>, targets: Seq<int>, claims: Seq<Option<int>>)
    requires
        ascending(sources),
        ascending(targets),
        claims_valid(sources, targets, claims),
    ensures
        inverse(targets, sources, inverse(sources, targets, claims)) == claims,
{
    let inv = inverse(sources, targets, claims);
    let back = inverse(targets, sources, inv);
    lemma_inverse(sources, targets, claims);
    lemma_inverse(targets, sources, inv);
    assert forall|k: int| 0 <= k < claims.len() implies back[k] == claims[k] by {
        match claims[k] {
            Some(t) => {
                assert(holds(targets, t));
                let q = choose|q: int| 0 <= q < targets.len() && targets[q] == t;
                assert(inv[q] == Some(sources[k]));
                assert(back[k] == Some(targets[q]));
            },
            None => {
                if back[k] is Some {
                    let t = back[k]->0;
                    lemma_claim_found(inv, sources[k]);
                    let q = inv.index_of(Some(sources[k]));
                    assert(inv[q] == Some(sources[k]));
                    assert(claims[k] == Some(targets[q]));
                }
            },
        }
    }
    assert(back =~= claims);
}

/// What stands under a key of a delta of the shape.
pub proof fn lemma_shape_entry(
    sources: Seq<int>,
    targets: Seq<int>,
    claims: Seq<Option<int>>,
    deleted: spec_fn(int) -> JsonView,
    added: spec_fn(int) -> JsonView,
    carry: spec_fn(int) -> Option<JsonView>,
    k: int,
)
    requires
        ascending(sources),
        within(sources, 0, usize::MAX + 1),
        claims.len() == sources.len(),
        0 <= k < sources.len(),
    ensures
        shape_ops(sources, targets, claims, deleted, added, carry).contains_key(
            ArrayDeltaIndex::RemovedOrMoved(sources[k] as usize),
        ),
        shape_ops(sources, targets, claims, deleted, added, carry)[ArrayDeltaIndex::RemovedOrMoved(
            sources[k] as usize,
        )] == (match claims[k] {
            Some(j) => DeltaView::Moved { moved_value: carry(sources[k]), new_index: j as usize },
            None => DeltaView::Deleted(deleted(sources[k])),
        }),
{
    lemma_index_of(sources, k);
    assert(0 <= sources[k] <= usize::MAX);
}

/// A delta of the shape rearranges: it takes the sources out of `x` and
/// fills the targets of `y`.
pub proof fn lemma_shape_rearranges(
    x: Seq<JsonView>,
    y: Seq<JsonView>,
    sources: Seq<int>,
    targets: Seq<int>,
    claims: Seq<Option<int>>,
    deleted: spec_fn(int) -> JsonView,
    added: spec_fn(int) -> JsonView,
    carry: spec_fn(int) -> Option<JsonView>,
)
    requires
        x.len() <= usize::MAX,
        y.len() <= usize::MAX,
        ascending(sources),
        ascending(targets),
        within(sources, 0, x.len() as int),
        within(targets, 0, y.len() as int),
        claims_valid(sources, targets, claims),
        forall|k: int|
            0 <= k < claims.len() && (#[trigger] claims[k]) is Some ==> x[sources[k]]
                == y[claims[k]->0],
        forall|q: int| 0 <= q < targets.len() ==> added(#[trigger] targets[q]) == y[targets[q]],
        without(x, |i: int| holds(sources, i), x.len() as int) == without(
            y,
            |i: int| holds(targets, i),
            y.len() as int,
        ),
    ensures
        rearranges(shape_ops(sources, targets, claims, deleted, added, carry), x, y, sources, targets),
{
    let ops = shape_ops(sources, targets, claims, deleted, added, carry);
    assert forall|key: ArrayDeltaIndex| #[trigger] ops.contains_key(key) implies match key {
        ArrayDeltaIndex::RemovedOrMoved(s) => holds(sources, s as int) && (ops[key] is Deleted
            || ops[key] is Moved),
        ArrayDeltaIndex::NewOrModified(_) => ops[key] is Added,
    } by {}
    assert forall|s: int| #[trigger] holds(sources, s) implies ops.contains_key(
        ArrayDeltaIndex::RemovedOrMoved(s as usize),
    ) by {
        lemma_found(sources, s);
        assert(0 <= s < x.len());
    }
    assert forall|key: ArrayDeltaIndex| #[trigger]
        ops.contains_key(key) && insertion_of(x, key, ops[key]) is Some implies holds(
        targets,
        insertion_of(x, key, ops[key])->0.index as int,
    ) && insertion_of(x, key, ops[key])->0.value == y[insertion_of(x, key, ops[key])->0.index as int] by {
        match key {
            ArrayDeltaIndex::RemovedOrMoved(i) => {
                lemma_found(sources, i as int);
                let k = sources.index_of(i as int);
                assert(claims[k] is Some);
                let t = claims[k]->0;
                assert(holds(targets, t));
                lemma_found(targets, t);
                assert(0 <= t < y.len());
            },
            ArrayDeltaIndex::NewOrModified(j) => {
                lemma_found(targets, j as int);
            },
        }
    }
    assert forall|a: ArrayDeltaIndex, b: ArrayDeltaIndex|
        #[trigger] ops.contains_key(a) && #[trigger] ops.contains_key(b) && a != b && insertion_of(
            x,
            a,
            ops[a],
        ) is Some && insertion_of(x, b, ops[b]) is Some implies insertion_of(x, a, ops[a])->0.index
        != insertion_of(x, b, ops[b])->0.index by {
        lemma_insertion_target(sources, targets, claims, deleted, added, carry, x, y, a);
        lemma_insertion_target(sources, targets, claims, deleted, added, carry, x, y, b);
        match (a, b) {
            (ArrayDeltaIndex::RemovedOrMoved(i), ArrayDeltaIndex::RemovedOrMoved(j)) => {
                let ki = sources.index_of(i as int);
                let kj = sources.index_of(j as int);
                lemma_found(sources, i as int);
                lemma_found(sources, j as int);
                assert(ki != kj);
                assert(claims[ki] != claims[kj]);
            },
            (ArrayDeltaIndex::RemovedOrMoved(i), ArrayDeltaIndex::NewOrModified(j)) => {
                let ki = sources.index_of(i as int);
                lemma_found(sources, i as int);
                if claims[ki]->0 == j as int {
                    assert(claims.contains(Some(j as int)));
                }
            },
            (ArrayDeltaIndex::NewOrModified(i), ArrayDeltaIndex::RemovedOrMoved(j)) => {
                let kj = sources.index_of(j as int);
                lemma_found(sources, j as int);
                if claims[kj]->0 == i as int {
                    assert(claims.contains(Some(i as int)));
                }
            },
            _ => {},
        }
    }
    assert forall|t: int| #[trigger] holds(targets, t) implies exists|key: ArrayDeltaIndex| #[trigger]
        ops.contains_key(key) && insertion_of(x, key, ops[key]) is Some && insertion_of(
            x,
            key,
            ops[key],
        )->0.index == t by {
        lemma_found(targets, t);
        assert(0 <= t < y.len());
        if claims.contains(Some(t)) {
            lemma_claim_found(claims, t);
            let k = claims.index_of(Some(t));
            lemma_shape_entry(sources, targets, claims, deleted, added, carry, k);
            let key = ArrayDeltaIndex::RemovedOrMoved(sources[k] as usize);
            assert(ops.contains_key(key));
            assert(insertion_of(x, key, ops[key])->0.index == t);
        } else {
            let key = ArrayDeltaIndex::NewOrModified(t as usize);
            assert(ops.contains_key(key));
            assert(insertion_of(x, key, ops[key])->0.index == t);
        }
    }
}

/// Where the insertion of an operation of a delta of the shape goes.
pub proof fn lemma_insertion_target(
    sources: Seq<int>,
    targets: Seq<int>,
    claims: Seq<Option<int>>,
    deleted: spec_fn(int) -> JsonView,
    added: spec_fn(int) -> JsonView,
    carry: spec_fn(int) -> Option<JsonView>,
    x: Seq<JsonView>,
    y: Seq<JsonView>,
    key: ArrayDeltaIndex,
)
    requires
        y.len() <= usize::MAX,
        within(targets, 0, y.len() as int),
        claims_valid(sources, targets, claims),
        shape_ops(sources, targets, claims, deleted, added, carry).contains_key(key),
        insertion_of(x, key, shape_ops(sources, targets, claims, deleted, added, carry)[key]) is Some,
    ensures
        insertion_of(
            x,
            key,
            shape_ops(sources, targets, claims, deleted, added, carry)[key],
        )->0.index as int == (match key {
            ArrayDeltaIndex::RemovedOrMoved(i) => claims[sources.index_of(i as int)]->0,
            ArrayDeltaIndex::NewOrModified(j) => j as int,
        }),
        key is RemovedOrMoved ==> claims[sources.index_of(key.spec_index() as int)] is Some,
{
    match key {
        ArrayDeltaIndex::RemovedOrMoved(i) => {
            lemma_found(sources, i as int);
            let k = sources.index_of(i as int);
            let t = claims[k]->0;
            assert(holds(targets, t));
            lemma_found(targets, t);
        },
        ArrayDeltaIndex::NewOrModified(j) => {},
    }
}

/// The reversal of a delta of the shape is a delta of the shape with
/// sources and targets swapped: the additions become deletions, the
/// deletions additions, and each move goes back.
pub proof fn lemma_shape_reversed(
    sources: Seq<int>,
    targets: Seq<int>,
    claims: Seq<Option<int>>,
    deleted: spec_fn(int) -> JsonView,
    added: spec_fn(int) -> JsonView,
    carry: spec_fn(int) -> Option<JsonView>,
)
    requires
        ascending(sources),
        ascending(targets),
        within(sources, 0, usize::MAX + 1),
        within(targets, 0, usize::MAX + 1),
        claims_valid(sources, targets, claims),
    ensures
        reversed_ops(
            DeltaView::Array(shape_ops(sources, targets, claims, deleted, added, carry)),
        ) == Some(
            shape_ops(
                targets,
                sources,
                inverse(sources, targets, claims),
                added,
                deleted,
                |t: int| carried_to(sources, claims, carry, t),
            ),
        ),
{
    let ops = shape_ops(sources, targets, claims, deleted, added, carry);
    let d = DeltaView::Array(ops);
    let inv = inverse(sources, targets, claims);
    let back = |t: int| carried_to(sources, claims, carry, t);
    let rev = shape_ops(targets, sources, inv, added, deleted, back);
    lemma_inverse(sources, targets, claims);
    // what each operation becomes
    assert forall|key: ArrayDeltaIndex| #[trigger] ops.contains_key(key) implies reversed_entry(
        d,
        key,
    ) == Some(reversed_of(sources, targets, claims, deleted, added, carry, key)) by {
        match key {
            ArrayDeltaIndex::RemovedOrMoved(i) => {
                lemma_found(sources, i as int);
            },
            ArrayDeltaIndex::NewOrModified(j) => {},
        }
    }
    assert forall|a: ArrayDeltaIndex, b: ArrayDeltaIndex|
        #[trigger] ops.contains_key(a) && #[trigger] ops.contains_key(b) && a
            != b implies reversed_entry(d, a)->0.key != reversed_entry(d, b)->0.key by {
        lemma_reversed_keys_differ(sources, targets, claims, deleted, added, carry, a, b);
    }
    let wanted = reversed_ops(d)->0;
    assert forall|to: ArrayDeltaIndex| wanted.contains_key(to) <==> rev.contains_key(to) by {
        if wanted.contains_key(to) {
            let key = choose|key: ArrayDeltaIndex| #[trigger]
                ops.contains_key(key) && reversed_entry(d, key)->0.key == to;
            lemma_reversed_in_shape(sources, targets, claims, deleted, added, carry, key);
        }
        if rev.contains_key(to) {
            let key = origin_of(sources, targets, claims, to);
            lemma_origin(sources, targets, claims, deleted, added, carry, to);
            assert(ops.contains_key(key) && reversed_entry(d, key)->0.key == to);
        }
    }
    assert forall|to: ArrayDeltaIndex| wanted.contains_key(to) implies wanted[to] == rev[to] by {
        let key = choose|key: ArrayDeltaIndex| #[trigger]
            ops.contains_key(key) && reversed_entry(d, key)->0.key == to;
        lemma_reversed_in_shape(sources, targets, claims, deleted, added, carry, key);
    }
    assert(wanted =~= rev);
}

/// What an operation of a delta of the shape becomes in the reversal.
pub open spec fn reversed_of(
    sources: Seq<int>,
    targets: Seq<int>,
    claims: Seq<Option<int>>,
    deleted: spec_fn(int) -> JsonView,
    added: spec_fn(int) -> JsonView,
    carry: spec_fn(int) -> Option<JsonView>,
    key: ArrayDeltaIndex,
) -> ReversedOp {
    match key {
        ArrayDeltaIndex::RemovedOrMoved(i) => match claims[sources.index_of(i as int)] {
            Some(t) => ReversedOp {
                key: ArrayDeltaIndex::RemovedOrMoved(t as usize),
                delta: DeltaView::Moved { moved_value: carry(i as int), new_index: i },
            },
            None => ReversedOp {
                key: ArrayDeltaIndex::NewOrModified(i),
                delta: DeltaView::Added(deleted(i as int)),
            },
        },
        ArrayDeltaIndex::NewOrModified(j) => ReversedOp {
            key: ArrayDeltaIndex::RemovedOrMoved(j),
            delta: DeltaView::Deleted(added(j as int)),
        },
    }
}

/// The operation of a delta of the shape that comes to stand under the key
/// `to` of the reversal.
pub open spec fn origin_of(
    sources: Seq<int>,
    targets: Seq<int>,
    claims: Seq<Option<int>>,
    to: ArrayDeltaIndex,
) -> ArrayDeltaIndex {
    match to {
        ArrayDeltaIndex::RemovedOrMoved(t) => if claims.contains(Some(t as int)) {
            ArrayDeltaIndex::RemovedOrMoved(sources[claims.index_of(Some(t as int))] as usize)
        } else {
            ArrayDeltaIndex::NewOrModified(t)
        },
        ArrayDeltaIndex::NewOrModified(s) => ArrayDeltaIndex::RemovedOrMoved(s),
    }
}

/// Two operations of a delta of the shape come to stand under two keys.
pub proof fn lemma_reversed_keys_differ(
    sources: Seq<int>,
    targets: Seq<int>,
    claims: Seq<Option<int>>,
    deleted: spec_fn(int) -> JsonView,
    added: spec_fn(int) -> JsonView,
    carry: spec_fn(int) -> Option<JsonView>,
    a: ArrayDeltaIndex,
    b: ArrayDeltaIndex,
)
    requires
        ascending(sources),
        ascending(targets),
        within(sources, 0, usize::MAX + 1),
        within(targets, 0, usize::MAX + 1),
        claims_valid(sources, targets, claims),
        shape_ops(sources, targets, claims, deleted, added, carry).contains_key(a),
        shape_ops(sources, targets, claims, deleted, added, carry).contains_key(b),
        a != b,
    ensures
        reversed_of(sources, targets, claims, deleted, added, carry, a).key != reversed_of(
            sources,
            targets,
            claims,
            deleted,
            added,
            carry,
            b,
        ).key,
{
    match (a, b) {
        (ArrayDeltaIndex::RemovedOrMoved(i), ArrayDeltaIndex::RemovedOrMoved(j)) => {
            lemma_found(sources, i as int);
            lemma_found(sources, j as int);
            let ki = sources.index_of(i as int);
            let kj = sources.index_of(j as int);
            assert(ki != kj);
            if claims[ki] is Some && claims[kj] is Some {
                assert(claims[ki] != claims[kj]);
                lemma_claimed_in_range(sources, targets, claims, ki);
                lemma_claimed_in_range(sources, targets, claims, kj);
            }
        },
        (ArrayDeltaIndex::RemovedOrMoved(i), ArrayDeltaIndex::NewOrModified(j)) => {
            lemma_found(sources, i as int);
            let ki = sources.index_of(i as int);
            if claims[ki] is Some {
                lemma_claimed_in_range(sources, targets, claims, ki);
                if claims[ki]->0 == j as int {
                    assert(claims.contains(Some(j as int)));
                }
            }
        },
        (ArrayDeltaIndex::NewOrModified(i), ArrayDeltaIndex::RemovedOrMoved(j)) => {
            lemma_found(sources, j as int);
            let kj = sources.index_of(j as int);
            if claims[kj] is Some {
                lemma_claimed_in_range(sources, targets, claims, kj);
                if claims[kj]->0 == i as int {
                    assert(claims.contains(Some(i as int)));
                }
            }
        },
        _ => {},
    }
}

/// A claimed target lies within the range of positions.
pub proof fn lemma_claimed_in_range(
    sources: Seq<int>,
    targets: Seq<int>,
    claims: Seq<Option<int>>,
    k: int,
)
    requires
        within(targets, 0, usize::MAX + 1),
        claims_valid(sources, targets, claims),
        0 <= k < claims.len(),
        claims[k] is Some,
    ensures
        0 <= claims[k]->0 <= usize::MAX,
        holds(targets, claims[k]->0),
{
    assert(holds(targets, claims[k]->0));
    lemma_found(targets, claims[k]->0);
}

/// What an operation of a delta of the shape becomes stands in the
/// reversed shape, under its key.
pub proof fn lemma_reversed_in_shape(
    sources: Seq<int>,
    targets: Seq<int>,
    claims: Seq<Option<int>>,
    deleted: spec_fn(int) -> JsonView,
    added: spec_fn(int) -> JsonView,
    carry: spec_fn(int) -> Option<JsonView>,
    key: ArrayDeltaIndex,
)
    requires
        ascending(sources),
        ascending(targets),
        within(sources, 0, usize::MAX + 1),
        within(targets, 0, usize::MAX + 1),
        claims_valid(sources, targets, claims),
        shape_ops(sources, targets, claims, deleted, added, carry).contains_key(key),
    ensures
        shape_ops(
            targets,
            sources,
            inverse(sources, targets, claims),
            added,
            deleted,
            |t: int| carried_to(sources, claims, carry, t),
        ).contains_key(reversed_of(sources, targets, claims, deleted, added, carry, key).key),
        shape_ops(
            targets,
            sources,
            inverse(sources, targets, claims),
            added,
            deleted,
            |t: int| carried_to(sources, claims, carry, t),
        )[reversed_of(sources, targets, claims, deleted, added, carry, key).key] == reversed_of(
            sources,
            targets,
            claims,
            deleted,
            added,
            carry,
            key,
        ).delta,
{
    let inv = inverse(sources, targets, claims);
    lemma_inverse(sources, targets, claims);
    match key {
        ArrayDeltaIndex::RemovedOrMoved(i) => {
            lemma_found(sources, i as int);
            let k = sources.index_of(i as int);
            match claims[k] {
                Some(t) => {
                    lemma_claimed_in_range(sources, targets, claims, k);
                    lemma_found(targets, t);
                    let q = targets.index_of(t);
                    assert(claims[k] == Some(targets[q]));
                    assert(inv[q] == Some(sources[k]));
                    lemma_claim_index(sources, targets, claims, k);
                },
                None => {
                    if inv.contains(Some(i as int)) {
                        lemma_claim_found(inv, i as int);
                        let q = inv.index_of(Some(i as int));
                        assert(inv[q] == Some(sources[k]));
                        assert(claims[k] == Some(targets[q]));
                    }
                },
            }
        },
        ArrayDeltaIndex::NewOrModified(j) => {
            lemma_found(targets, j as int);
            let q = targets.index_of(j as int);
            if inv[q] is Some {
                assert(claims.contains(Some(targets[q])));
            }
        },
    }
}

/// Each operation of the reversed shape comes from an operation of the
/// shape.
pub proof fn lemma_origin(
    sources: Seq<int>,
    targets: Seq<int>,
    claims: Seq<Option<int>>,
    deleted: spec_fn(int) -> JsonView,
    added: spec_fn(int) -> JsonView,
    carry: spec_fn(int) -> Option<JsonView>,
    to: ArrayDeltaIndex,
)
    requires
        ascending(sources),
        ascending(targets),
        within(sources, 0, usize::MAX + 1),
        within(targets, 0, usize::MAX + 1),
        claims_valid(sources, targets, claims),
        shape_ops(
            targets,
            sources,
            inverse(sources, targets, claims),
            added,
            deleted,
            |t: int| carried_to(sources, claims, carry, t),
        ).contains_key(to),
    ensures
        shape_ops(sources, targets, claims, deleted, added, carry).contains_key(
            origin_of(sources, targets, claims, to),
        ),
        reversed_of(
            sources,
            targets,
            claims,
            deleted,
            added,
            carry,
            origin_of(sources, targets, claims, to),
        ).key == to,
{
    let inv = inverse(sources, targets, claims);
    lemma_inverse(sources, targets, claims);
    match to {
        ArrayDeltaIndex::RemovedOrMoved(t) => {
            lemma_found(targets, t as int);
            if claims.contains(Some(t as int)) {
                lemma_claim_found(claims, t as int);
                let k = claims.index_of(Some(t as int));
                lemma_index_of(sources, k);
                assert(0 <= sources[k] <= usize::MAX);
            }
        },
        ArrayDeltaIndex::NewOrModified(s) => {
            lemma_found(sources, s as int);
            let k = sources.index_of(s as int);
            if claims[k] is Some {
                lemma_claimed_in_range(sources, targets, claims, k);
                lemma_found(targets, claims[k]->0);
                let q = targets.index_of(claims[k]->0);
                assert(claims[k] == Some(targets[q]));
                assert(inv[q] == Some(sources[k]));
                assert(inv.contains(Some(s as int)));
            }
        },
    }
}

} // verus!
