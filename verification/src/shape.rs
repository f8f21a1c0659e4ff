//! What the structured code of a function looks like.

use vstd::prelude::*;

use crate::analysis::LoopId;
use crate::flow::{
    after_loop, dest_info, inst_steps, straight_line, unless_merge, FunctionFlow, TerminatorInfo,
};
use crate::ir::{is_place, BasicBlockId, BodyDataStore, BranchInfo, FunctionBody, InstId};
use crate::run::lemma_straight_line_plain;
use crate::scope::Context;
use crate::steps::Step;
use crate::walk::Place;

verus! {

/// `ok` holds of every step of the list, however deep inside others, given
/// whether a loop is around it.
pub open spec fn everywhere(
    steps: Seq<Step>,
    in_loop: bool,
    ok: spec_fn(Step, bool) -> bool,
) -> bool
    decreases steps,
{
    steps.len() == 0 || (everywhere(steps.drop_last(), in_loop, ok) && everywhere_in(
        steps.last(),
        in_loop,
        ok,
    ))
}

/// `ok` holds of a step and of every step inside it.
pub open spec fn everywhere_in(step: Step, in_loop: bool, ok: spec_fn(Step, bool) -> bool) -> bool
    decreases step,
{
    ok(step, in_loop) && match step {
        Step::If { cond, then, else_ } => everywhere(then, in_loop, ok) && everywhere(
            else_,
            in_loop,
            ok,
        ),
        Step::For { body } => everywhere(body, true, ok),
        _ => true,
    }
}

proof fn lemma_everywhere_append(
    first: Seq<Step>,
    rest: Seq<Step>,
    in_loop: bool,
    ok: spec_fn(Step, bool) -> bool,
)
    requires
        everywhere(first, in_loop, ok),
        everywhere(rest, in_loop, ok),
    ensures
        everywhere(first + rest, in_loop, ok),
    decreases rest.len(),
{
    if rest.len() == 0 {
        assert(first + rest =~= first);
    } else {
        lemma_everywhere_append(first, rest.drop_last(), in_loop, ok);
        assert((first + rest).drop_last() =~= first + rest.drop_last());
        assert((first + rest).last() == rest.last());
    }
}

proof fn lemma_everywhere_one(step: Step, in_loop: bool, ok: spec_fn(Step, bool) -> bool)
    requires
        everywhere_in(step, in_loop, ok),
    ensures
        everywhere(seq![step], in_loop, ok),
{
    assert(seq![step].drop_last() =~= Seq::<Step>::empty());
    assert(everywhere(Seq::<Step>::empty(), in_loop, ok));
    assert(seq![step].last() == step);
}

/// `inst` runs in a block before the block's end.
pub open spec fn runs_before_end(body: FunctionBody, block: BasicBlockId, inst: InstId) -> bool {
    body.order.has_block(block) && straight_line(
        body.store,
        body.order.insts_of(block),
    ).contains(inst)
}

/// `inst` ends a block, and the function with it.
pub open spec fn ends_function(body: FunctionBody, block: BasicBlockId, inst: InstId) -> bool {
    body.terminator_of(block) == Some(inst) && body.store.kind(inst).targets()
        == BranchInfo::NotBranch
}

/// `ok` holds of all that a listing can be made of.
spec fn covers(body: FunctionBody, ok: spec_fn(Step, bool) -> bool) -> bool {
    &&& forall|step: Step, in_loop: bool|
        (step is If || step is For) ==> #[trigger] ok(step, in_loop)
    &&& ok(Step::Break, true)
    &&& ok(Step::Continue, true)
    &&& forall|block: BasicBlockId, inst: InstId, in_loop: bool|
        #![trigger runs_before_end(body, block, inst), ok(Step::Inst(inst), in_loop)]
        runs_before_end(body, block, inst) ==> ok(Step::Inst(inst), in_loop)
    &&& forall|block: BasicBlockId, inst: InstId, in_loop: bool|
        #![trigger ends_function(body, block, inst), ok(Step::Inst(inst), in_loop)]
        ends_function(body, block, inst) ==> ok(Step::Inst(inst), in_loop)
}

proof fn lemma_everywhere_insts(
    insts: Seq<InstId>,
    in_loop: bool,
    ok: spec_fn(Step, bool) -> bool,
)
    requires
        forall|i: int| 0 <= i < insts.len() ==> ok(Step::Inst(#[trigger] insts[i]), in_loop),
    ensures
        everywhere(inst_steps(insts), in_loop, ok),
    decreases insts.len(),
{
    if insts.len() > 0 {
        let shorter = insts.drop_last();
        assert forall|i: int| 0 <= i < shorter.len() implies ok(
            Step::Inst(#[trigger] shorter[i]),
            in_loop,
        ) by {
            assert(shorter[i] == insts[i]);
        }
        lemma_everywhere_insts(shorter, in_loop, ok);
        assert(inst_steps(insts).drop_last() =~= inst_steps(shorter));
        assert(inst_steps(insts).last() == Step::Inst(insts[insts.len() - 1]));
        assert(everywhere_in(inst_steps(insts).last(), in_loop, ok));
    }
}

proof fn lemma_everywhere_listing(
    flow: FunctionFlow,
    place: Place,
    depth: nat,
    ok: spec_fn(Step, bool) -> bool,
)
    requires
        covers(flow.body, ok),
        flow.listing_at(place, depth) is Some,
    ensures
        everywhere(flow.listing_at(place, depth)->0, place.context.enclosing is Some, ok),
    decreases depth, 0nat,
{
    let context = place.context;
    let block = place.block;
    let in_loop = context.enclosing is Some;
    let d = (depth - 1) as nat;
    if let Some(lp) = flow.opened_loop(context, block) {
        let l = flow.around_body(lp);
        let inner = Place { context: Context::in_loop(l), block };
        let after = after_loop(context, l.exit);
        lemma_everywhere_listing(flow, inner, d, ok);
        lemma_everywhere_rest(flow, context, after, d, ok);
        let step = Step::For { body: flow.listing_at(inner, d)->0 };
        lemma_everywhere_one(step, in_loop, ok);
        lemma_everywhere_append(
            seq![step],
            flow.rest_listing(context, after, d)->0,
            in_loop,
            ok,
        );
    } else {
        let end = flow.body.terminator_of(block)->0;
        let insts = straight_line(flow.body.store, flow.body.order.insts_of(block));
        let code = flow.block_code(block);
        assert forall|i: int| 0 <= i < insts.len() implies ok(
            Step::Inst(#[trigger] insts[i]),
            in_loop,
        ) by {
            assert(runs_before_end(flow.body, block, insts[i]));
        }
        lemma_everywhere_insts(insts, in_loop, ok);
        match flow.body.store.kind(end).targets() {
            BranchInfo::NotBranch => {
                assert(ends_function(flow.body, block, end));
                assert(ok(Step::Inst(end), in_loop));
                assert(everywhere_in(Step::Inst(end), in_loop, ok));
                lemma_everywhere_one(Step::Inst(end), in_loop, ok);
                lemma_everywhere_append(code, seq![Step::Inst(end)], in_loop, ok);
                assert(code + seq![Step::Inst(end)] =~= code.push(Step::Inst(end)));
            },
            BranchInfo::Jump(dest) => {
                let info = dest_info(context, dest);
                lemma_everywhere_dest(flow, context, context, dest, None, d, ok);
                lemma_everywhere_append(
                    code,
                    flow.dest_listing(context, info, None, d)->0,
                    in_loop,
                    ok,
                );
            },
            BranchInfo::Branch(cond, then, else_) => {
                let merge = flow.merge_of(context, block);
                let inner = context.in_if(merge);
                let t = dest_info(context, then);
                let e = dest_info(context, else_);
                assert(flow.if_listing(context, cond, t, e, merge, d) is Some);
                lemma_everywhere_dest(flow, context, inner, then, merge, d, ok);
                lemma_everywhere_dest(flow, context, inner, else_, merge, d, ok);
                lemma_everywhere_rest(flow, context, merge, d, ok);
                let step = Step::If {
                    cond,
                    then: flow.dest_listing(inner, t, merge, d)->0,
                    else_: flow.dest_listing(inner, e, merge, d)->0,
                };
                let rest = flow.rest_listing(context, merge, d)->0;
                lemma_everywhere_one(step, in_loop, ok);
                lemma_everywhere_append(seq![step], rest, in_loop, ok);
                lemma_everywhere_append(code, seq![step] + rest, in_loop, ok);
            },
        }
    }
}

proof fn lemma_everywhere_rest(
    flow: FunctionFlow,
    context: Context,
    block: Option<BasicBlockId>,
    depth: nat,
    ok: spec_fn(Step, bool) -> bool,
)
    requires
        covers(flow.body, ok),
        flow.rest_listing(context, block, depth) is Some,
    ensures
        everywhere(flow.rest_listing(context, block, depth)->0, context.enclosing is Some, ok),
    decreases depth, 1nat,
{
    if let Some(block) = block {
        lemma_everywhere_listing(flow, Place { context, block }, depth, ok);
    }
}

proof fn lemma_everywhere_dest(
    flow: FunctionFlow,
    context: Context,
    inner: Context,
    dest: BasicBlockId,
    merge: Option<BasicBlockId>,
    depth: nat,
    ok: spec_fn(Step, bool) -> bool,
)
    requires
        covers(flow.body, ok),
        inner.enclosing == context.enclosing,
        flow.dest_listing(inner, dest_info(context, dest), merge, depth) is Some,
    ensures
        everywhere(
            flow.dest_listing(inner, dest_info(context, dest), merge, depth)->0,
            inner.enclosing is Some,
            ok,
        ),
    decreases depth, 2nat,
{
    match dest_info(context, dest) {
        TerminatorInfo::Break => {
            lemma_everywhere_one(Step::Break, true, ok);
        },
        TerminatorInfo::Continue => {
            lemma_everywhere_one(Step::Continue, true, ok);
        },
        TerminatorInfo::FallThrough(b) => {
            lemma_everywhere_rest(flow, inner, unless_merge(merge, dest), depth, ok);
        },
        _ => {},
    }
}

/// A `Break` or a `Continue` has a loop around it.
pub open spec fn jump_in_loop() -> spec_fn(Step, bool) -> bool {
    |step: Step, in_loop: bool| (step is Break || step is Continue) ==> in_loop
}

/// Every `Break` and every `Continue` in the structured code of a function
/// stands inside a loop.
pub proof fn law_jumps_in_loops(flow: FunctionFlow)
    requires
        flow.serializable(),
    ensures
        everywhere(flow.serialized(), false, jump_in_loop()),
{
    let depth = choose|depth: nat| #[trigger] flow.listing_at(flow.start(), depth) is Some;
    lemma_everywhere_listing(flow, flow.start(), depth, jump_in_loop());
}

/// An instruction stands in a block of the body, does something, and does not
/// go to another block.
pub open spec fn own_inst(body: FunctionBody) -> spec_fn(Step, bool) -> bool {
    |step: Step, in_loop: bool|
        step matches Step::Inst(inst) ==> {
            &&& exists|b: int, k: int| #[trigger]
                is_place(body.order.blocks@, b, k) && body.order.blocks@[b]@[k] == inst
            &&& body.store.kind(inst) is Plain || body.store.kind(inst) is Return
        }
}

pub proof fn lemma_straight_line_own(store: BodyDataStore, insts: Seq<InstId>, inst: InstId)
    requires
        straight_line(store, insts).contains(inst),
    ensures
        insts.contains(inst),
        store.kind(inst) is Plain,
    decreases insts.len(),
{
    if insts.len() > 0 {
        let rest = insts.drop_first();
        if inst == insts[0] && !(store.kind(insts[0]) is Nop) {
        } else {
            let line = straight_line(store, insts);
            let i = choose|i: int| 0 <= i < line.len() && line[i] == inst;
            if !(store.kind(insts[0]) is Nop) {
                assert(straight_line(store, rest)[i - 1] == inst);
            }
            lemma_straight_line_own(store, rest, inst);
            let j = choose|j: int| 0 <= j < rest.len() && rest[j] == inst;
            assert(insts[j + 1] == inst);
        }
    }
}

/// Every instruction in the structured code of a function is one of the body's:
/// none that does nothing, and none that goes to another block, for the code
/// around it does that.
pub proof fn law_lists_own_insts(flow: FunctionFlow)
    requires
        flow.serializable(),
    ensures
        everywhere(flow.serialized(), false, own_inst(flow.body)),
{
    let body = flow.body;
    let ok = own_inst(body);
    assert forall|block: BasicBlockId, inst: InstId, in_loop: bool|
        #![trigger runs_before_end(body, block, inst), ok(Step::Inst(inst), in_loop)]
        runs_before_end(body, block, inst) implies ok(Step::Inst(inst), in_loop) by {
        let insts = body.order.insts_of(block);
        lemma_straight_line_own(body.store, insts, inst);
        let k = choose|k: int| 0 <= k < insts.len() && insts[k] == inst;
        assert(is_place(body.order.blocks@, block.0 as int, k));
    }
    assert forall|block: BasicBlockId, inst: InstId, in_loop: bool|
        #![trigger ends_function(body, block, inst), ok(Step::Inst(inst), in_loop)]
        ends_function(body, block, inst) implies ok(Step::Inst(inst), in_loop) by {
        assert(is_place(
            body.order.blocks@,
            block.0 as int,
            body.order.insts_of(block).len() - 1,
        ));
    }
    let depth = choose|depth: nat| #[trigger] flow.listing_at(flow.start(), depth) is Some;
    lemma_everywhere_listing(flow, flow.start(), depth, ok);
}

/// Nothing that follows the step in a list is ever run.
pub open spec fn leaves(store: BodyDataStore, step: Step) -> bool {
    match step {
        Step::Inst(inst) => store.kind(inst) is Return,
        Step::Break => true,
        Step::Continue => true,
        _ => false,
    }
}

/// Only the last step of a list leaves it, and so it is with the lists inside its steps.
pub open spec fn leaves_last(store: BodyDataStore, steps: Seq<Step>) -> bool
    decreases steps,
{
    forall|i: int|
        #![trigger steps[i]]
        0 <= i < steps.len() ==> {
            &&& i < steps.len() - 1 ==> !leaves(store, steps[i])
            &&& leaves_last_in(store, steps[i])
        }
}

/// Only the last step of a list inside the step leaves the list.
pub open spec fn leaves_last_in(store: BodyDataStore, step: Step) -> bool
    decreases step,
{
    match step {
        Step::If { cond, then, else_ } => leaves_last(store, then) && leaves_last(store, else_),
        Step::For { body } => leaves_last(store, body),
        _ => true,
    }
}

proof fn lemma_leaves_last_append(store: BodyDataStore, first: Seq<Step>, rest: Seq<Step>)
    requires
        leaves_last(store, first),
        leaves_last(store, rest),
        first.len() > 0 ==> !leaves(store, first.last()),
    ensures
        leaves_last(store, first + rest),
{
    let steps = first + rest;
    assert forall|i: int|
        #![trigger steps[i]]
        0 <= i < steps.len() implies {
        &&& i < steps.len() - 1 ==> !leaves(store, steps[i])
        &&& leaves_last_in(store, steps[i])
    } by {
        if i < first.len() {
            assert(steps[i] == first[i]);
        } else {
            assert(steps[i] == rest[i - first.len()]);
        }
    }
}

proof fn lemma_leaves_last_listing(flow: FunctionFlow, place: Place, depth: nat)
    requires
        flow.listing_at(place, depth) is Some,
    ensures
        leaves_last(flow.body.store, flow.listing_at(place, depth)->0),
    decreases depth, 0nat,
{
    let store = flow.body.store;
    let context = place.context;
    let block = place.block;
    let d = (depth - 1) as nat;
    if let Some(lp) = flow.opened_loop(context, block) {
        let l = flow.around_body(lp);
        let inner = Place { context: Context::in_loop(l), block };
        let after = after_loop(context, l.exit);
        lemma_leaves_last_listing(flow, inner, d);
        lemma_leaves_last_rest(flow, context, after, d);
        let step = Step::For { body: flow.listing_at(inner, d)->0 };
        assert(leaves_last(store, seq![step]));
        lemma_leaves_last_append(store, seq![step], flow.rest_listing(context, after, d)->0);
    } else {
        let end = flow.body.terminator_of(block)->0;
        let insts = straight_line(store, flow.body.order.insts_of(block));
        let code = flow.block_code(block);
        lemma_straight_line_plain(store, flow.body.order.insts_of(block));
        assert forall|i: int| 0 <= i < code.len() implies !leaves(store, #[trigger] code[i]) by {
            assert(code[i] == Step::Inst(insts[i]));
        }
        assert forall|i: int| 0 <= i < code.len() implies leaves_last_in(
            store,
            #[trigger] code[i],
        ) by {
            assert(code[i] == Step::Inst(insts[i]));
        }
        assert(leaves_last(store, code));
        match store.kind(end).targets() {
            BranchInfo::NotBranch => {
                assert(leaves_last(store, seq![Step::Inst(end)]));
                lemma_leaves_last_append(store, code, seq![Step::Inst(end)]);
                assert(code + seq![Step::Inst(end)] =~= code.push(Step::Inst(end)));
            },
            BranchInfo::Jump(dest) => {
                let info = dest_info(context, dest);
                lemma_leaves_last_dest(flow, context, info, None, d);
                lemma_leaves_last_append(
                    store,
                    code,
                    flow.dest_listing(context, info, None, d)->0,
                );
            },
            BranchInfo::Branch(cond, then, else_) => {
                let merge = flow.merge_of(context, block);
                let inner = context.in_if(merge);
                let t = dest_info(context, then);
                let e = dest_info(context, else_);
                assert(flow.if_listing(context, cond, t, e, merge, d) is Some);
                lemma_leaves_last_dest(flow, inner, t, merge, d);
                lemma_leaves_last_dest(flow, inner, e, merge, d);
                lemma_leaves_last_rest(flow, context, merge, d);
                let step = Step::If {
                    cond,
                    then: flow.dest_listing(inner, t, merge, d)->0,
                    else_: flow.dest_listing(inner, e, merge, d)->0,
                };
                let rest = flow.rest_listing(context, merge, d)->0;
                assert(leaves_last(store, seq![step]));
                lemma_leaves_last_append(store, seq![step], rest);
                lemma_leaves_last_append(store, code, seq![step] + rest);
            },
        }
    }
}

proof fn lemma_leaves_last_rest(
    flow: FunctionFlow,
    context: Context,
    block: Option<BasicBlockId>,
    depth: nat,
)
    requires
        flow.rest_listing(context, block, depth) is Some,
    ensures
        leaves_last(flow.body.store, flow.rest_listing(context, block, depth)->0),
    decreases depth, 1nat,
{
    if let Some(block) = block {
        lemma_leaves_last_listing(flow, Place { context, block }, depth);
    }
}

proof fn lemma_leaves_last_dest(
    flow: FunctionFlow,
    context: Context,
    info: TerminatorInfo,
    merge: Option<BasicBlockId>,
    depth: nat,
)
    requires
        flow.dest_listing(context, info, merge, depth) is Some,
    ensures
        leaves_last(flow.body.store, flow.dest_listing(context, info, merge, depth)->0),
    decreases depth, 2nat,
{
    if let TerminatorInfo::FallThrough(dest) = info {
        lemma_leaves_last_rest(flow, context, unless_merge(merge, dest), depth);
    }
}

/// In the structured code of a function nothing follows a `Break`, a `Continue`
/// or an instruction that leaves the function.
pub proof fn law_nothing_follows_a_jump(flow: FunctionFlow)
    requires
        flow.serializable(),
    ensures
        leaves_last(flow.body.store, flow.serialized()),
{
    let depth = choose|depth: nat| #[trigger] flow.listing_at(flow.start(), depth) is Some;
    lemma_leaves_last_listing(flow, flow.start(), depth);
}

/// If all candidates for where control goes on after a loop have one and the
/// same block for their dominance frontier, and they are not all one block,
/// then control goes on at that frontier block.
pub proof fn law_common_frontier_is_exit(flow: FunctionFlow, lp: LoopId, frontier: BasicBlockId)
    requires
        forall|i: int|
            0 <= i < flow.exit_candidates(lp).len() ==> flow.df.frontiers_of(
                #[trigger] flow.exit_candidates(lp)[i],
            ) == Some(seq![frontier]),
        exists|i: int, j: int|
            0 <= i < j < flow.exit_candidates(lp).len() && #[trigger] flow.exit_candidates(lp)[i]
                != #[trigger] flow.exit_candidates(lp)[j],
    ensures
        flow.loop_exit(lp) == Some(frontier),
{
    let candidates = flow.exit_candidates(lp);
    let (i, j) = choose|i: int, j: int|
        0 <= i < j < candidates.len() && #[trigger] candidates[i] != #[trigger] candidates[j];
    assert forall|k: int| #[trigger] flow.is_joint(candidates, k) implies candidates[k]
        == frontier by {
        assert(flow.meets_at(candidates[i], candidates[k]));
        assert(flow.meets_at(candidates[j], candidates[k]));
    }
    if exists|k: int| flow.is_joint(candidates, k) {
        let k = lemma_joint_picked(flow, candidates);
        assert(candidates[k] == frontier);
    } else {
        assert(flow.df.frontiers_of(candidates[candidates.len() - 1]) == Some(seq![frontier]));
    }
}

/// Where all candidates meet, there is a first index at which they do.
proof fn lemma_first_joint(flow: FunctionFlow, candidates: Seq<BasicBlockId>, k: int)
    requires
        flow.is_joint(candidates, k),
        forall|j: int| !#[trigger] flow.is_frontier(candidates, j),
    ensures
        exists|i: int| flow.is_first_joint(candidates, i),
    decreases k,
{
    if exists|j: int| 0 <= j < k && flow.is_joint(candidates, j) {
        let j = choose|j: int| 0 <= j < k && flow.is_joint(candidates, j);
        lemma_first_joint(flow, candidates, j);
    } else {
        assert(flow.is_first_joint(candidates, k));
    }
}

/// Where a candidate is in the dominance frontier of all others, there is a first one.
proof fn lemma_first_frontier(flow: FunctionFlow, candidates: Seq<BasicBlockId>, k: int) -> (i: int)
    requires
        flow.is_frontier(candidates, k),
    ensures
        i <= k,
        flow.is_frontier(candidates, i),
        flow.is_first_joint(candidates, i),
    decreases k,
{
    if exists|j: int| 0 <= j < k && flow.is_frontier(candidates, j) {
        let j = choose|j: int| 0 <= j < k && flow.is_frontier(candidates, j);
        lemma_first_frontier(flow, candidates, j)
    } else {
        k
    }
}

/// If some candidates for where control goes on after a loop meet at one of
/// them, one at which they all meet is picked.
pub proof fn lemma_joint_picked(flow: FunctionFlow, candidates: Seq<BasicBlockId>) -> (i: int)
    requires
        exists|k: int| flow.is_joint(candidates, k),
    ensures
        i == (choose|i: int| flow.is_first_joint(candidates, i)),
        flow.is_first_joint(candidates, i),
        flow.is_joint(candidates, i),
{
    let i = choose|i: int| flow.is_first_joint(candidates, i);
    if exists|k: int| flow.is_frontier(candidates, k) {
        let k = choose|k: int| flow.is_frontier(candidates, k);
        let first = lemma_first_frontier(flow, candidates, k);
        assert(flow.is_frontier(candidates, i));
        assert(flow.is_joint(candidates, i));
    } else {
        let k = choose|k: int| flow.is_joint(candidates, k);
        lemma_first_joint(flow, candidates, k);
    }
    i
}

/// If one of several candidates for where control goes on after a loop is in
/// the dominance frontier of all others, control goes on at such a candidate.
pub proof fn law_joint_is_exit(flow: FunctionFlow, lp: LoopId, i: int)
    requires
        flow.exit_candidates(lp).len() > 1,
        flow.is_frontier(flow.exit_candidates(lp), i),
    ensures
        exists|j: int|
            0 <= j <= i && #[trigger] flow.is_frontier(flow.exit_candidates(lp), j)
                && flow.loop_exit(lp) == Some(flow.exit_candidates(lp)[j]),
{
    let candidates = flow.exit_candidates(lp);
    let first = lemma_first_frontier(flow, candidates, i);
    assert(flow.is_joint(candidates, first));
    let j = lemma_joint_picked(flow, candidates);
    assert(flow.is_frontier(candidates, j));
    assert(j == first);
}

} // verus!
