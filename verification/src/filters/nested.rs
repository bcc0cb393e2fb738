//! The stages that gather what the children of an object yielded.

use crate::context::diff::{holds_diff, is_object_step, same_inputs, DiffContext};
use crate::context::FilterContext;
use crate::context::patch::{holds_value, holds_wf, PatchContext};
use crate::context::reverse::ReverseContext;
use crate::json::{
    distinct_keys, has_key, key_index, members, remove_member, set_member, Json, JsonView,
};
use crate::semantics::diff::{lemma_member_delta, object_changes};
use crate::types::{delta_members, lemma_delta_members, Delta};
use vstd::prelude::*;

verus! {

/// The children of the object step on `parent` have all been run: there is
/// one for each key of either object and none twice, and each holds the
/// delta between the two members under its key.
pub open spec fn members_done(parent: DiffContext, children: Seq<(String, DiffContext)>) -> bool {
    &&& distinct_keys(children)
    &&& forall|i: int|
        0 <= i < children.len() ==> {
            let child = (#[trigger] children[i]).1;
            &&& child.left@ == parent.left@.get_or_null(children[i].0@)
            &&& child.right@ == parent.right@.get_or_null(children[i].0@)
            &&& child.context_data.options == parent.context_data.options
            &&& holds_diff(child)
        }
    &&& forall|key: Seq<char>|
        parent.left@->Object_0.contains_key(key) || parent.right@->Object_0.contains_key(key)
            ==> #[trigger] has_key(children, key)
}

pub struct CollectionChildrenDiffFilter;

impl CollectionChildrenDiffFilter {
    pub fn filter_name(&self) -> (r: &'static str)
        ensures
            r@ == "collection-children-diff"@,
    {
        "collection-children-diff"
    }

    /// Gathers the deltas of the members into the delta of the object: an
    /// object delta with an entry for each member that changed, in the order
    /// of the children. Where no member changed, the slot stays empty. The
    /// results are taken out of the children.
    pub fn post_process<'a>(
        &self,
        context: &mut DiffContext<'a>,
        children_context: &mut Vec<(String, DiffContext<'a>)>,
    )
        requires
            is_object_step(*old(context)),
            old(context).context_data.result is None,
            members_done(*old(context), old(children_context)@),
        ensures
            same_inputs(*old(context), *final(context)),
            holds_diff(*final(context)),
    {
        let ghost parent = *context;
        let ghost done = children_context@;
        let ghost l = parent.left@;
        let ghost r = parent.right@;
        let ghost o = parent.context_data.options;
        let ghost changes = object_changes(l, r, o);
        let mut result: Vec<(String, Delta)> = Vec::new();
        let ghost mut origins: Seq<int> = Seq::empty();
        let n = children_context.len();
        let mut i: usize = 0;
        while i < n
            invariant
                0 <= i <= n,
                n == done.len(),
                children_context@.len() == n,
                members_done(parent, done),
                l == parent.left@,
                r == parent.right@,
                o == parent.context_data.options,
                l is Object,
                r is Object,
                changes == object_changes(l, r, o),
                forall|j: int| i <= j < n ==> #[trigger] children_context@[j] == done[j],
                result@.len() == origins.len(),
                forall|k: int|
                    0 <= k < origins.len() ==> 0 <= (#[trigger] origins[k]) < i && result@[k].0@
                        == done[origins[k]].0@,
                forall|k: int, m: int|
                    0 <= k < m < origins.len() ==> (#[trigger] origins[k]) < (#[trigger] origins[m]),
                forall|k: int|
                    0 <= k < result@.len() ==> changes.contains_key((#[trigger] result@[k]).0@)
                        && changes[result@[k].0@] == result@[k].1@ && result@[k].1.wf(),
                forall|j: int|
                    0 <= j < i && changes.contains_key((#[trigger] done[j]).0@) ==> has_key(
                        result@,
                        done[j].0@,
                    ),
            decreases n - i,
        {
            let ghost before = result@;
            proof {
                assert(children_context@[i as int] == done[i as int]);
                lemma_member_delta(l, r, done[i as int].0@, o);
                assert(holds_diff(done[i as int].1));
            }
            let key = children_context[i].0.clone();
            match children_context[i].1.pop_result() {
                Some(child_result) => {
                    result.push((key, child_result));
                    proof {
                        origins = origins.push(i as int);
                        assert forall|k: int| 0 <= k < result@.len() implies changes.contains_key(
                            (#[trigger] result@[k]).0@,
                        ) && changes[result@[k].0@] == result@[k].1@ && result@[k].1.wf() by {
                            if k < before.len() {
                                assert(result@[k] == before[k]);
                            }
                        }
                        assert forall|k: int| 0 <= k < origins.len() implies 0 <= (
                        #[trigger] origins[k]) < i + 1 && result@[k].0@ == done[origins[k]].0@ by {
                            if k < before.len() {
                                assert(result@[k] == before[k]);
                            }
                        }
                        assert(result@[result@.len() - 1].0@ == done[i as int].0@);
                    }
                },
                None => {},
            }
            proof {
                assert forall|j: int|
                    0 <= j < i + 1 && changes.contains_key((#[trigger] done[j]).0@) implies has_key(
                    result@,
                    done[j].0@,
                ) by {
                    if j < i {
                        let at = key_index(before, done[j].0@);
                        assert(result@[at] == before[at]);
                    }
                }
            }
            i += 1;
        }
        proof {
            assert(distinct_keys(result@)) by {
                assert forall|a: int, b: int|
                    0 <= a < result@.len() && 0 <= b < result@.len() && a != b implies (
                #[trigger] result@[a]).0@ != (#[trigger] result@[b]).0@ by {
                    if a < b {
                        assert(origins[a] < origins[b]);
                    } else {
                        assert(origins[b] < origins[a]);
                    }
                    assert(done[origins[a]].0@ != done[origins[b]].0@);
                }
            }
            lemma_delta_members(result@);
            let made = delta_members(result@);
            assert forall|key: Seq<char>| made.contains_key(key) <==> changes.contains_key(
                key,
            ) by {
                if made.contains_key(key) {
                    let at = key_index(result@, key);
                    assert(changes.contains_key(result@[at].0@));
                }
                if changes.contains_key(key) {
                    assert(l->Object_0.contains_key(key) || r->Object_0.contains_key(key));
                    assert(has_key(done, key));
                    let at = key_index(done, key);
                    assert(changes.contains_key(done[at].0@));
                    assert(has_key(result@, done[at].0@));
                }
            }
            assert forall|key: Seq<char>| made.contains_key(key) implies made[key]
                == changes[key] by {
                let at = key_index(result@, key);
                assert(made[result@[at].0@] == result@[at].1@);
            }
            assert(made =~= changes);
        }
        if result.is_empty() {
            proof {
                assert(changes.dom() =~= Set::empty());
            }
            return ;
        }
        proof {
            assert(changes.contains_key(result@[0].0@));
            assert(!(changes.dom() =~= Set::empty()));
        }
        let delta = Delta::Object(result);
        proof {
            assert(delta.wf());
        }
        context.set_result(delta).exit();
    }
}

/// The members of an object after the first `n` children of an object
/// patch have been gathered: a child that yielded a value sets the member
/// that it is named after, one that yielded none removes it.
pub open spec fn applied_members(
    m: Map<Seq<char>, JsonView>,
    children: Seq<(String, PatchContext)>,
    n: int,
) -> Map<Seq<char>, JsonView>
    decreases n,
{
    if n <= 0 || n > children.len() {
        m
    } else {
        let prev = applied_members(m, children, n - 1);
        match children[n - 1].1.context_data.result {
            Some(v) => prev.insert(children[n - 1].0@, v@),
            None => prev.remove(children[n - 1].0@),
        }
    }
}

pub struct CollectionChildrenPatchFilter;

impl CollectionChildrenPatchFilter {
    pub fn filter_name(&self) -> (r: &'static str)
        ensures
            r@ == "collection-children-patch"@,
    {
        "collection-children-patch"
    }

    /// The step after the children of an object patch. It starts from a
    /// copy of the object; each child that yielded a value sets the member
    /// that it is named after, each that yielded none removes it. The new
    /// object is stored and the exit flag is raised. The results are taken
    /// out of the children.
    pub fn post_process<'a>(
        &self,
        context: &mut PatchContext<'a>,
        children_context: &mut Vec<(String, PatchContext<'a>)>,
    )
        requires
            old(context).left@ is Object,
            old(context).left.wf(),
            forall|i: int|
                0 <= i < old(children_context)@.len() ==> holds_wf(
                    (#[trigger] old(children_context)@[i]).1.context_data.result,
                ),
        ensures
            final(context).left == old(context).left,
            final(context).delta == old(context).delta,
            final(context).context_data.options == old(context).context_data.options,
            final(context).context_data.exiting,
            holds_value(
                final(context).context_data.result,
                JsonView::Object(
                    applied_members(
                        old(context).left@->Object_0,
                        old(children_context)@,
                        old(children_context)@.len() as int,
                    ),
                ),
            ),
    {
        let ghost given = children_context@;
        let ghost start = context.left@->Object_0;
        let mut entries: Vec<(String, Json)> = match context.left.clone() {
            Json::Object(entries) => entries,
            _ => {
                proof {
                    assert(false);
                }
                Vec::new()
            },
        };
        proof {
            assert forall|i: int| 0 <= i < entries@.len() implies (#[trigger] entries@[i]).1.wf() by {}
        }
        let n = children_context.len();
        let mut i: usize = 0;
        while i < n
            invariant
                0 <= i <= n,
                n == given.len(),
                children_context@.len() == n,
                forall|j: int| i <= j < n ==> #[trigger] children_context@[j] == given[j],
                forall|j: int|
                    0 <= j < given.len() ==> holds_wf((#[trigger] given[j]).1.context_data.result),
                distinct_keys(entries@),
                forall|j: int| 0 <= j < entries@.len() ==> (#[trigger] entries@[j]).1.wf(),
                members(entries@) == applied_members(start, given, i as int),
            decreases n - i,
        {
            proof {
                assert(children_context@[i as int] == given[i as int]);
            }
            let ghost before = entries@;
            let key = children_context[i].0.clone();
            match children_context[i].1.pop_result() {
                Some(value) => {
                    set_member(&mut entries, key, value);
                    proof {
                        assert forall|j: int| 0 <= j < entries@.len() implies (
                        #[trigger] entries@[j]).1.wf() by {
                            if before.contains(entries@[j]) {
                            }
                        }
                    }
                },
                None => {
                    remove_member(&mut entries, &key);
                    proof {
                        assert forall|j: int| 0 <= j < entries@.len() implies (
                        #[trigger] entries@[j]).1.wf() by {
                            assert(before.contains(entries@[j]));
                        }
                    }
                },
            }
            i += 1;
        }
        let patched = Json::Object(entries);
        proof {
            assert(patched.wf());
        }
        context.set_result(patched).exit();
    }
}

/// The slot holds an object delta with one entry for each child, in order:
/// under the name of the child, the result that the child held.
pub open spec fn holds_gathered(
    result: Option<Delta>,
    children: Seq<(String, ReverseContext)>,
) -> bool {
    &&& result is Some
    &&& result->0 is Object
    &&& result->0->Object_0@.len() == children.len()
    &&& forall|i: int|
        0 <= i < children.len() ==> (#[trigger] result->0->Object_0@[i]).0@ == children[i].0@
            && result->0->Object_0@[i].1 == children[i].1.context_data.result->0
}

pub struct CollectionChildrenReverseFilter;

impl CollectionChildrenReverseFilter {
    pub fn filter_name(&self) -> (r: &'static str)
        ensures
            r@ == "collection-children-reverse"@,
    {
        "collection-children-reverse"
    }

    /// The step after the children of an object delta that is reversed:
    /// the reversal that each child yielded is entered under the name of
    /// the child, in the order of the children. The object delta of these
    /// entries is stored and the exit flag is raised. The results are taken
    /// out of the children.
    pub fn post_process(
        &self,
        context: &mut ReverseContext,
        children_context: &mut Vec<(String, ReverseContext)>,
    )
        requires
            forall|i: int|
                0 <= i < old(children_context)@.len() ==> (#[trigger] old(
                    children_context,
                )@[i]).1.context_data.result is Some,
        ensures
            final(context).delta == old(context).delta,
            final(context).given == old(context).given,
            final(context).context_data.options == old(context).context_data.options,
            final(context).context_data.exiting,
            holds_gathered(final(context).context_data.result, old(children_context)@),
    {
        let ghost given = children_context@;
        let mut out: Vec<(String, Delta)> = Vec::new();
        let n = children_context.len();
        let mut i: usize = 0;
        while i < n
            invariant
                0 <= i <= n,
                n == given.len(),
                children_context@.len() == n,
                forall|j: int| i <= j < n ==> #[trigger] children_context@[j] == given[j],
                forall|j: int| 0 <= j < n ==> (#[trigger] given[j]).1.context_data.result is Some,
                out@.len() == i,
                forall|j: int|
                    0 <= j < i ==> (#[trigger] out@[j]).0@ == given[j].0@ && out@[j].1
                        == given[j].1.context_data.result->0,
            decreases n - i,
        {
            proof {
                assert(children_context@[i as int] == given[i as int]);
            }
            let key = children_context[i].0.clone();
            match children_context[i].1.pop_result() {
                Some(reversed) => {
                    out.push((key, reversed));
                },
                None => {
                    proof {
                        assert(false);
                    }
                },
            }
            i += 1;
        }
        context.set_result(Delta::Object(out)).exit();
    }
}

} // verus!
