//! The diff pipeline: one step compares two values.
//!
//! A step is made of four stages. The first settles the trivial cases, the
//! second two strings, the third two arrays, and the last hands the members
//! of two objects to the runtime as children. A stage that settles the step
//! raises the exit flag, and the later stages are passed over.

use crate::context::diff::{
    emits_members, fresh, holds_diff, is_member_pair, is_object_step, same_inputs, DiffContext,
};
use crate::context::FilterContext;
use crate::errors::JsonDiffPatchError;
use crate::filters::arrays::{is_array_step, ArraysDiffFilter};
use crate::filters::nested::{members_done, CollectionChildrenDiffFilter};
use crate::filters::objects::ObjectsDiffFilter;
use crate::filters::texts::{is_text_step, TextsDiffFilter};
use crate::filters::trivial::{is_trivial_step, TrivialDiffFilter};
use crate::json::Json;
use crate::pipeline::arrays::{is_pair_entry, is_pair_of, lemma_no_child_changes};
use crate::processor::Pipeline;
use vstd::prelude::*;

verus! {

pub struct DiffPipeline;

impl<'a> Pipeline<DiffContext<'a>> for DiffPipeline {
    /// A run starts on a context that nothing has worked on, with
    /// well-formed values.
    open spec fn ready(&self, ctx: DiffContext<'a>) -> bool {
        fresh(ctx)
    }

    open spec fn rank(&self, ctx: DiffContext<'a>) -> nat {
        ctx.left.size() + ctx.right.size()
    }

    /// After the first step, either the members of two objects wait as
    /// children and the slot is empty, or the slot holds the delta and every
    /// child pairs two equal values.
    open spec fn processed(
        &self,
        before: DiffContext<'a>,
        now: DiffContext<'a>,
        emitted: Seq<(String, DiffContext<'a>)>,
    ) -> bool {
        &&& fresh(before)
        &&& same_inputs(before, now)
        &&& if is_object_step(before) {
            now.context_data.result is None && emits_members(before, emitted)
        } else {
            &&& holds_diff(now)
            &&& emitted.len() > 0 ==> is_array_step(before)
            &&& forall|i: int|
                0 <= i < emitted.len() ==> (#[trigger] emitted[i]).1.left@ == emitted[i].1.right@
        }
    }

    /// After a run, the slot holds the delta between the two values, and is
    /// empty where they do not differ.
    open spec fn done(&self, before: DiffContext<'a>, after: DiffContext<'a>) -> bool {
        same_inputs(before, after) && holds_diff(after)
    }

    /// A diff does not fail.
    open spec fn failed(&self, before: DiffContext<'a>, error: JsonDiffPatchError) -> bool {
        false
    }

    proof fn child_failure(
        &self,
        before: DiffContext<'a>,
        now: DiffContext<'a>,
        emitted: Seq<(String, DiffContext<'a>)>,
        children: Seq<(String, DiffContext<'a>)>,
        i: int,
        error: JsonDiffPatchError,
    ) {
    }

    fn filter_name(&self) -> (r: &str)
        ensures
            r@ == "diff-pipeline"@,
    {
        "diff-pipeline"
    }

    fn process(
        &self,
        context: &mut DiffContext<'a>,
        new_children_context: &mut Vec<(String, DiffContext<'a>)>,
    ) -> (r: Result<(), JsonDiffPatchError>) {
        let ghost before = *context;
        TrivialDiffFilter.process(context, new_children_context);
        if !context.is_exiting() {
            TextsDiffFilter.process(context, new_children_context);
        }
        if !context.is_exiting() {
            ArraysDiffFilter.process(context, new_children_context);
            proof {
                if is_array_step(before) {
                    let l = before.left->Array_0;
                    let r = before.right->Array_0;
                    assert forall|i: int| 0 <= i < new_children_context@.len() implies self.ready(
                        (#[trigger] new_children_context@[i]).1,
                    ) && self.rank(new_children_context@[i].1) < self.rank(before) by {
                        let child = new_children_context@[i].1;
                        assert(is_pair_entry(
                            new_children_context@[i],
                            l@,
                            r@,
                            before.context_data.options,
                        ));
                        assert(is_pair_of(child, l@, r@, before.context_data.options));
                        let a = choose|a: int| 0 <= a < l@.len() && l@[a] == *child.left;
                        let b = choose|b: int| 0 <= b < r@.len() && r@[b] == *child.right;
                        before.left.lemma_item_size(a);
                        before.right.lemma_item_size(b);
                        assert(l@[a].wf());
                        assert(r@[b].wf());
                    }
                }
            }
        }
        if !context.is_exiting() {
            ObjectsDiffFilter.process(context, new_children_context);
        }
        proof {
            if !is_trivial_step(before) && !is_text_step(before) && !is_array_step(before) {
                assert(is_object_step(before));
            }
        }
        Ok(())
    }

    fn post_process(
        &self,
        context: &mut DiffContext<'a>,
        children_context: &mut Vec<(String, DiffContext<'a>)>,
    ) -> (r: Result<(), JsonDiffPatchError>) {
        let ghost now = *context;
        let ghost children = children_context@;
        let ghost (before, emitted) = choose|
            before: DiffContext<'a>,
            emitted: Seq<(String, DiffContext<'a>)>,
        |
            {
                &&& #[trigger] self.processed(before, now, emitted)
                &&& emitted.len() == children.len()
                &&& forall|i: int|
                    0 <= i < emitted.len() ==> (#[trigger] emitted[i]).0 == children[i].0
                        && self.done(emitted[i].1, children[i].1)
            };
        let left = context.left;
        let right = context.right;
        match (left, right) {
            (Json::Object(_), Json::Object(_)) => {
                if children_context.len() > 0 {
                    proof {
                        assert(is_object_step(before));
                        assert(members_done(now, children)) by {
                            assert forall|i: int| 0 <= i < children.len() implies {
                                let child = (#[trigger] children[i]).1;
                                &&& child.left@ == now.left@.get_or_null(children[i].0@)
                                &&& child.right@ == now.right@.get_or_null(children[i].0@)
                                &&& child.context_data.options == now.context_data.options
                                &&& holds_diff(child)
                            } by {
                                assert(is_member_pair(emitted[i].1, emitted[i].0@, before));
                                assert(self.done(emitted[i].1, children[i].1));
                            }
                            assert forall|a: int, b: int|
                                0 <= a < children.len() && 0 <= b < children.len() && a
                                    != b implies (#[trigger] children[a]).0@ != (
                            #[trigger] children[b]).0@ by {
                                assert(emitted[a].0@ != emitted[b].0@);
                            }
                            assert forall|key: Seq<char>|
                                now.left@->Object_0.contains_key(key)
                                    || now.right@->Object_0.contains_key(
                                    key,
                                ) implies #[trigger] crate::json::has_key(children, key) by {
                                assert(crate::json::has_key(emitted, key));
                                let at = crate::json::key_index(emitted, key);
                                assert(children[at].0@ == key);
                            }
                        }
                    }
                    CollectionChildrenDiffFilter.post_process(context, children_context);
                }
            },
            (Json::Array(_), Json::Array(_)) => {
                proof {
                    assert forall|i: int| 0 <= i < children.len() implies (
                    #[trigger] children[i]).1.context_data.result is None by {
                        assert(emitted[i].1.left@ == emitted[i].1.right@);
                        assert(self.done(emitted[i].1, children[i].1));
                    }
                    lemma_no_child_changes(children);
                }
                ArraysDiffFilter.post_process(context, children_context);
            },
            _ => {},
        }
        proof {
            assert forall|b: DiffContext<'a>, e: Seq<(String, DiffContext<'a>)>|
                {
                    &&& #[trigger] self.processed(b, now, e)
                    &&& e.len() == children.len()
                    &&& forall|i: int|
                        0 <= i < e.len() ==> (#[trigger] e[i]).0 == children[i].0 && self.done(
                            e[i].1,
                            children[i].1,
                        )
                } implies self.done(b, *context) by {
                if is_object_step(b) {
                    assert(is_object_step(now));
                    if children.len() == 0 {
                        assert(emits_members(b, e));
                        let l = b.left@->Object_0;
                        let r = b.right@->Object_0;
                        assert forall|key: Seq<char>| !l.contains_key(key) && !r.contains_key(
                            key,
                        ) by {
                            if l.contains_key(key) || r.contains_key(key) {
                                assert(crate::json::has_key(e, key));
                            }
                        }
                        assert(l =~= r);
                        assert(false);
                    }
                } else {
                    assert(!is_object_step(before));
                }
            }
        }
        Ok(())
    }
}

} // verus!
