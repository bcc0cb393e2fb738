//! The stages for objects: one child context for each member.

use crate::context::diff::{
    emits_members, fresh, is_member_pair, is_object_pair, same_inputs, DiffContext,
};
use crate::context::FilterContext;
use crate::context::patch::{
    emits_member_patches, held_delta, is_patch_child, DeltaWithLeftover, PatchContext,
};
use crate::context::reverse::{is_reverse_child, ReverseContext};
use crate::errors::{JsonDiffPatchError, PatchFailure};
use crate::json::{distinct_keys, find_key, has_key, key_index, lemma_members, Json};
use crate::pipeline::reverse_pipeline::emits_member_reversals;
use crate::types::{delta_members, lemma_delta_member_sizes, lemma_delta_members, Delta};
use vstd::prelude::*;

verus! {

pub struct ObjectsDiffFilter;

impl ObjectsDiffFilter {
    pub fn filter_name(&self) -> (r: &'static str)
        ensures
            r@ == "objects-diff"@,
    {
        "objects-diff"
    }

    /// Where both values are objects, emits a child context for each key of
    /// either: it compares the two members, with null for one that is
    /// absent. The keys of the left object come first, in its order, then
    /// those that only the right object has, in its order. The exit flag is
    /// raised; the result is left to the step after the children. Any other
    /// step is left as it is.
    pub fn process<'a>(
        &self,
        context: &mut DiffContext<'a>,
        new_children_context: &mut Vec<(String, DiffContext<'a>)>,
    )
        requires
            fresh(*old(context)),
            old(new_children_context)@.len() == 0,
        ensures
            same_inputs(*old(context), *final(context)),
            is_object_pair(*old(context)) ==> final(context).context_data.result is None
                && final(context).context_data.exiting && emits_members(
                *old(context),
                final(new_children_context)@,
            ),
            !is_object_pair(*old(context)) ==> *final(context) == *old(context)
                && *final(new_children_context) == *old(new_children_context),
    {
        let left = context.left;
        let right = context.right;
        let options = *context.options();
        match (left, right) {
            (Json::Object(l), Json::Object(r)) => {
                let ghost parent = *context;
                proof {
                    lemma_members(l@);
                    lemma_members(r@);
                }
                let mut i: usize = 0;
                while i < l.len()
                    invariant
                        0 <= i <= l@.len(),
                        *left == Json::Object(*l),
                        *right == Json::Object(*r),
                        left.wf(),
                        right.wf(),
                        parent.left == left,
                        parent.right == right,
                        parent.context_data.options == options,
                        new_children_context@.len() == i,
                        forall|k: int|
                            0 <= k < i ==> (#[trigger] new_children_context@[k]).0@ == l@[k].0@,
                        forall|k: int|
                            0 <= k < i ==> is_member_pair(
                                (#[trigger] new_children_context@[k]).1,
                                new_children_context@[k].0@,
                                parent,
                            ),
                    decreases l@.len() - i,
                {
                    let key = l[i].0.clone();
                    let ghost before = new_children_context@;
                    proof {
                        left.lemma_object_member(i as int);
                        left.lemma_member_size(i as int);
                        assert(l@[i as int].1.wf());
                    }
                    let child = match find_key(r, &l[i].0) {
                        Some(j) => {
                            proof {
                                right.lemma_object_member(j as int);
                                right.lemma_member_size(j as int);
                                assert(r@[j as int].1.wf());
                            }
                            DiffContext::new(&l[i].1, &r[j].1, options)
                        },
                        None => {
                            proof {
                                right.lemma_object_keys(l@[i as int].0@);
                            }
                            DiffContext::new(&l[i].1, &Json::Null, options)
                        },
                    };
                    new_children_context.push((key, child));
                    proof {
                        assert forall|k: int| 0 <= k < i + 1 implies is_member_pair(
                            (#[trigger] new_children_context@[k]).1,
                            new_children_context@[k].0@,
                            parent,
                        ) by {
                            if k < i {
                                assert(new_children_context@[k] == before[k]);
                            }
                        }
                        assert forall|k: int| 0 <= k < i + 1 implies (
                        #[trigger] new_children_context@[k]).0@ == l@[k].0@ by {
                            if k < i {
                                assert(new_children_context@[k] == before[k]);
                            }
                        }
                    }
                    i += 1;
                }
                let ghost mut origins: Seq<int> = Seq::empty();
                let mut j: usize = 0;
                while j < r.len()
                    invariant
                        0 <= j <= r@.len(),
                        *left == Json::Object(*l),
                        *right == Json::Object(*r),
                        left.wf(),
                        right.wf(),
                        parent.left == left,
                        parent.right == right,
                        parent.context_data.options == options,
                        new_children_context@.len() == l@.len() + origins.len(),
                        forall|k: int|
                            0 <= k < l@.len() ==> (#[trigger] new_children_context@[k]).0@
                                == l@[k].0@,
                        forall|k: int|
                            0 <= k < origins.len() ==> 0 <= (#[trigger] origins[k]) < j
                                && new_children_context@[l@.len() + k].0@ == r@[origins[k]].0@
                                && !has_key(l@, r@[origins[k]].0@),
                        forall|k: int, m: int|
                            0 <= k < m < origins.len() ==> (#[trigger] origins[k]) < (
                            #[trigger] origins[m]),
                        forall|k: int|
                            0 <= k < new_children_context@.len() ==> is_member_pair(
                                (#[trigger] new_children_context@[k]).1,
                                new_children_context@[k].0@,
                                parent,
                            ),
                        forall|k: int|
                            0 <= k < j ==> has_key(new_children_context@, (#[trigger] r@[k]).0@),
                    decreases r@.len() - j,
                {
                    let ghost before = new_children_context@;
                    match find_key(l, &r[j].0) {
                        Some(at) => {
                            proof {
                                assert(new_children_context@[at as int].0@ == r@[j as int].0@);
                            }
                        },
                        None => {
                            proof {
                                left.lemma_object_keys(r@[j as int].0@);
                                right.lemma_object_member(j as int);
                                right.lemma_member_size(j as int);
                                assert(r@[j as int].1.wf());
                            }
                            let child = DiffContext::new(&Json::Null, &r[j].1, options);
                            new_children_context.push((r[j].0.clone(), child));
                            proof {
                                origins = origins.push(j as int);
                                assert forall|k: int|
                                    0 <= k < new_children_context@.len() implies is_member_pair(
                                    (#[trigger] new_children_context@[k]).1,
                                    new_children_context@[k].0@,
                                    parent,
                                ) by {
                                    if k < before.len() {
                                        assert(new_children_context@[k] == before[k]);
                                    }
                                }
                                assert forall|k: int| 0 <= k < l@.len() implies (
                                #[trigger] new_children_context@[k]).0@ == l@[k].0@ by {
                                    assert(new_children_context@[k] == before[k]);
                                }
                                assert forall|k: int| 0 <= k < origins.len() implies 0 <= (
                                #[trigger] origins[k]) < j + 1 && new_children_context@[l@.len()
                                    + k].0@ == r@[origins[k]].0@ && !has_key(
                                    l@,
                                    r@[origins[k]].0@,
                                ) by {
                                    if k < origins.len() - 1 {
                                        assert(new_children_context@[l@.len() + k] == before[l@.len()
                                            + k]);
                                    }
                                }
                                assert(new_children_context@[new_children_context@.len() - 1].0@
                                    == r@[j as int].0@);
                            }
                        },
                    }
                    proof {
                        assert forall|k: int| 0 <= k < j + 1 implies has_key(
                            new_children_context@,
                            (#[trigger] r@[k]).0@,
                        ) by {
                            if k < j {
                                let at = key_index(before, r@[k].0@);
                                assert(new_children_context@[at] == before[at]);
                            }
                        }
                    }
                    j += 1;
                }
                proof {
                    let emitted = new_children_context@;
                    assert(distinct_keys(emitted)) by {
                        assert forall|a: int, b: int|
                            0 <= a < emitted.len() && 0 <= b < emitted.len() && a != b implies (
                        #[trigger] emitted[a]).0@ != (#[trigger] emitted[b]).0@ by {
                            let n = l@.len() as int;
                            if a < n && b < n {
                                assert(l@[a].0@ != l@[b].0@);
                            } else if a >= n && b >= n {
                                assert(emitted[n + (a - n)].0@ == r@[origins[a - n]].0@);
                                assert(emitted[n + (b - n)].0@ == r@[origins[b - n]].0@);
                                if a < b {
                                    assert(origins[a - n] < origins[b - n]);
                                } else {
                                    assert(origins[b - n] < origins[a - n]);
                                }
                                assert(r@[origins[a - n]].0@ != r@[origins[b - n]].0@);
                            } else if a < n {
                                assert(emitted[n + (b - n)].0@ == r@[origins[b - n]].0@);
                                assert(l@[a].0@ == emitted[a].0@);
                                assert(has_key(l@, l@[a].0@));
                            } else {
                                assert(emitted[n + (a - n)].0@ == r@[origins[a - n]].0@);
                                assert(l@[b].0@ == emitted[b].0@);
                                assert(has_key(l@, l@[b].0@));
                            }
                        }
                    }
                    assert forall|key: Seq<char>|
                        parent.left@->Object_0.contains_key(key)
                            || parent.right@->Object_0.contains_key(key) implies #[trigger] has_key(
                        emitted,
                        key,
                    ) by {
                        if has_key(l@, key) {
                            let at = key_index(l@, key);
                            assert(emitted[at].0@ == key);
                        } else {
                            let at = key_index(r@, key);
                            assert(has_key(emitted, r@[at].0@));
                        }
                    }
                }
                if new_children_context.is_empty() {
                    proof {
                        assert(left@->Object_0 =~= right@->Object_0);
                    }
                    context.set_result(Delta::Unchanged).exit();
                } else {
                    context.exit();
                }
            },
            _ => {},
        }
    }
}

pub struct ObjectsPatchFilter;

impl ObjectsPatchFilter {
    pub fn filter_name(&self) -> (r: &'static str)
        ensures
            r@ == "objects-patch"@,
    {
        "objects-patch"
    }

    /// The first step of applying an object delta, whose entries are
    /// `entries`, the delta having been taken out of the context. Where the
    /// value is an object, a child context is emitted for each entry, in
    /// order: it applies the delta of the entry to the member under its
    /// key, or to null where there is none. Where the value is no object,
    /// the step fails and emits no child.
    pub fn process<'a>(
        &self,
        context: &mut PatchContext<'a>,
        entries: Vec<(String, Delta)>,
        new_children_context: &mut Vec<(String, PatchContext<'a>)>,
    ) -> (r: Result<(), JsonDiffPatchError>)
        requires
            old(context).left.wf(),
            old(context).context_data.result is None,
            distinct_keys(entries@),
            forall|i: int| 0 <= i < entries@.len() ==> (#[trigger] entries@[i]).1.wf(),
            old(new_children_context)@.len() == 0,
        ensures
            *final(context) == *old(context),
            r is Ok <==> old(context).left@ is Object,
            r matches Err(e) ==> e@ == (PatchFailure::InvalidPatchToTarget { patch: "object"@ }),
            r is Err ==> final(new_children_context)@.len() == 0,
            r is Ok ==> emits_member_patches(
                PatchContext { delta: DeltaWithLeftover::Delta(Delta::Object(entries)), ..*old(context) },
                final(new_children_context)@,
            ),
    {
        let left = context.left;
        let options = *context.options();
        if !left.is_object() {
            return Err(JsonDiffPatchError::InvalidPatchToTarget { patch: "object".to_owned() });
        }
        let ghost given = entries@;
        let ghost parent = PatchContext {
            delta: DeltaWithLeftover::Delta(Delta::Object(entries)),
            ..*context
        };
        let ghost changes = delta_members(given);
        proof {
            lemma_delta_members(given);
        }
        let mut rest = entries;
        let n = rest.len();
        let mut i: usize = 0;
        while i < n
            invariant
                0 <= i <= n,
                n == given.len(),
                rest@.len() == n,
                left == parent.left,
                left.wf(),
                left@ is Object,
                options == parent.context_data.options,
                parent.delta == DeltaWithLeftover::Delta(Delta::Object(entries)),
                given == entries@,
                changes == delta_members(given),
                distinct_keys(given),
                forall|j: int| 0 <= j < given.len() ==> (#[trigger] given[j]).1.wf(),
                forall|j: int|
                    0 <= j < given.len() ==> changes.contains_key((#[trigger] given[j]).0@)
                        && changes[given[j].0@] == given[j].1@,
                forall|j: int| i <= j < n ==> #[trigger] rest@[j] == given[j],
                new_children_context@.len() == i,
                forall|j: int|
                    0 <= j < i ==> {
                        let child = (#[trigger] new_children_context@[j]).1;
                        &&& new_children_context@[j].0@ == given[j].0@
                        &&& child.left@ == left@.get_or_null(given[j].0@)
                        &&& held_delta(child) == given[j].1@
                        &&& is_patch_child(child, parent)
                    },
            decreases n - i,
        {
            let ghost before = new_children_context@;
            let mut entry = (String::new(), Delta::Unchanged);
            proof {
                assert(rest@[i as int] == given[i as int]);
                lemma_delta_member_sizes(given, i as int);
            }
            std::mem::swap(&mut rest[i], &mut entry);
            let (key, delta) = entry;
            let target = match left.get(&key) {
                Some(member) => member,
                None => &Json::Null,
            };
            let child = PatchContext::new(target, delta, options);
            new_children_context.push((key, child));
            proof {
                assert forall|j: int| 0 <= j < i + 1 implies {
                    let child = (#[trigger] new_children_context@[j]).1;
                    &&& new_children_context@[j].0@ == given[j].0@
                    &&& child.left@ == left@.get_or_null(given[j].0@)
                    &&& held_delta(child) == given[j].1@
                    &&& is_patch_child(child, parent)
                } by {
                    if j < i {
                        assert(new_children_context@[j] == before[j]);
                    }
                }
            }
            i += 1;
        }
        proof {
            let emitted = new_children_context@;
            assert forall|a: int, b: int|
                0 <= a < emitted.len() && 0 <= b < emitted.len() && a != b implies (
            #[trigger] emitted[a]).0@ != (#[trigger] emitted[b]).0@ by {
                assert(given[a].0@ != given[b].0@);
            }
            assert forall|key: Seq<char>| changes.contains_key(key) implies #[trigger] has_key(
                emitted,
                key,
            ) by {
                let at = key_index(given, key);
                assert(emitted[at].0@ == key);
            }
            assert forall|j: int| 0 <= j < emitted.len() implies {
                let child = (#[trigger] emitted[j]).1;
                &&& changes.contains_key(emitted[j].0@)
                &&& child.left@ == parent.left@.get_or_null(emitted[j].0@)
                &&& held_delta(child) == changes[emitted[j].0@]
                &&& is_patch_child(child, parent)
            } by {
                assert(changes.contains_key(given[j].0@));
            }
        }
        Ok(())
    }
}

pub struct ObjectsReverseFilter;

impl ObjectsReverseFilter {
    pub fn filter_name(&self) -> (r: &'static str)
        ensures
            r@ == "objects-reverse"@,
    {
        "objects-reverse"
    }

    /// The first step of reversing an object delta, whose entries are
    /// `entries`, the delta having been taken out of the context: a child
    /// context is emitted for each entry, in order, named by its key and
    /// made for its delta.
    pub fn process(
        &self,
        context: &mut ReverseContext,
        entries: Vec<(String, Delta)>,
        new_children_context: &mut Vec<(String, ReverseContext)>,
    )
        requires
            forall|i: int| 0 <= i < entries@.len() ==> (#[trigger] entries@[i]).1.wf(),
            old(new_children_context)@.len() == 0,
        ensures
            *final(context) == *old(context),
            emits_member_reversals(
                ReverseContext {
                    delta: DeltaWithLeftover::Delta(Delta::Object(entries)),
                    ..*old(context)
                },
                entries@,
                final(new_children_context)@,
            ),
    {
        let options = *context.options();
        let ghost given = entries@;
        let ghost parent = ReverseContext {
            delta: DeltaWithLeftover::Delta(Delta::Object(entries)),
            ..*context
        };
        let mut rest = entries;
        let n = rest.len();
        let mut i: usize = 0;
        while i < n
            invariant
                0 <= i <= n,
                n == given.len(),
                rest@.len() == n,
                parent.delta == DeltaWithLeftover::Delta(Delta::Object(entries)),
                given == entries@,
                parent.context_data.options == options,
                forall|j: int| 0 <= j < given.len() ==> (#[trigger] given[j]).1.wf(),
                forall|j: int| i <= j < n ==> #[trigger] rest@[j] == given[j],
                new_children_context@.len() == i,
                forall|j: int|
                    0 <= j < i ==> (#[trigger] new_children_context@[j]).0@ == given[j].0@
                        && is_reverse_child(new_children_context@[j].1, parent, given[j].1@),
            decreases n - i,
        {
            let ghost children_before = new_children_context@;
            let mut entry = (String::new(), Delta::Unchanged);
            proof {
                assert(rest@[i as int] == given[i as int]);
                lemma_delta_member_sizes(given, i as int);
            }
            std::mem::swap(&mut rest[i], &mut entry);
            let (key, value) = entry;
            new_children_context.push((key, ReverseContext::new(value, options)));
            proof {
                assert forall|j: int| 0 <= j < i + 1 implies (
                #[trigger] new_children_context@[j]).0@ == given[j].0@ && is_reverse_child(
                    new_children_context@[j].1,
                    parent,
                    given[j].1@,
                ) by {
                    if j < i {
                        assert(new_children_context@[j] == children_before[j]);
                    }
                }
            }
            i += 1;
        }
    }
}

} // verus!
