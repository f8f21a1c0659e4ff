//! Instructions that do nothing make no difference.

use vstd::prelude::*;

use crate::analysis::LoopId;
use crate::flow::{after_loop, dest_info, straight_line, unless_merge, FunctionFlow, TerminatorInfo};
use crate::ir::{BasicBlockId, BodyDataStore, BranchInfo, InstId};
use crate::scope::Context;
use crate::shape::lemma_joint_picked;
use crate::walk::{law_listing_unique, Place};

verus! {

/// `fewer` is `insts` without some of the instructions that do nothing.
pub open spec fn thinned(store: BodyDataStore, insts: Seq<InstId>, fewer: Seq<InstId>) -> bool
    decreases insts.len(),
{
    if insts.len() == 0 {
        fewer.len() == 0
    } else {
        ||| fewer.len() > 0 && fewer[0] == insts[0] && thinned(
            store,
            insts.drop_first(),
            fewer.drop_first(),
        )
        ||| store.kind(insts[0]) is Nop && thinned(store, insts.drop_first(), fewer)
    }
}

/// `thin` is `flow`, but some instructions that do nothing are taken out of its blocks.
pub open spec fn is_thinned(flow: FunctionFlow, thin: FunctionFlow) -> bool {
    &&& thin.cfg == flow.cfg
    &&& thin.loop_tree == flow.loop_tree
    &&& thin.df == flow.df
    &&& thin.pd_tree == flow.pd_tree
    &&& thin.body.store == flow.body.store
    &&& thin.body.order.blocks@.len() == flow.body.order.blocks@.len()
    &&& forall|block: BasicBlockId| #[trigger]
        flow.body.order.has_block(block) ==> thinned(
            flow.body.store,
            flow.body.order.insts_of(block),
            thin.body.order.insts_of(block),
        )
}

proof fn lemma_thinned_line(store: BodyDataStore, insts: Seq<InstId>, fewer: Seq<InstId>)
    requires
        thinned(store, insts, fewer),
    ensures
        straight_line(store, fewer) == straight_line(store, insts),
    decreases insts.len(),
{
    if insts.len() > 0 {
        let rest = insts.drop_first();
        if fewer.len() > 0 && fewer[0] == insts[0] && thinned(store, rest, fewer.drop_first()) {
            lemma_thinned_line(store, rest, fewer.drop_first());
        } else {
            lemma_thinned_line(store, rest, fewer);
        }
    }
}

proof fn lemma_thinned_last(store: BodyDataStore, insts: Seq<InstId>, fewer: Seq<InstId>)
    requires
        thinned(store, insts, fewer),
        insts.len() > 0,
        !(store.kind(insts.last()) is Nop),
    ensures
        fewer.len() > 0,
        fewer.last() == insts.last(),
    decreases insts.len(),
{
    let rest = insts.drop_first();
    if insts.len() > 1 {
        assert(rest.last() == insts.last());
        if fewer.len() > 0 && fewer[0] == insts[0] && thinned(store, rest, fewer.drop_first()) {
            lemma_thinned_last(store, rest, fewer.drop_first());
        } else {
            lemma_thinned_last(store, rest, fewer);
        }
    } else {
        assert(thinned(store, rest, fewer.drop_first()));
    }
}

proof fn lemma_same_exits_from(
    flow: FunctionFlow,
    thin: FunctionFlow,
    lp: LoopId,
    blocks: Seq<BasicBlockId>,
)
    requires
        is_thinned(flow, thin),
    ensures
        thin.exits_from(lp, blocks) == flow.exits_from(lp, blocks),
    decreases blocks.len(),
{
    if blocks.len() > 0 {
        lemma_same_exits_from(flow, thin, lp, blocks.drop_last());
        let succs = flow.cfg.succs_of(blocks.last());
        let pred = |b: BasicBlockId| !flow.loop_tree.blocks_of(lp).contains(b);
        assert(thin.outside(lp, succs) == succs.filter(pred));
        assert(flow.outside(lp, succs) == succs.filter(pred));
    }
}

/// Where control goes on after a loop does not depend on the instructions.
proof fn lemma_same_exit(flow: FunctionFlow, thin: FunctionFlow, lp: LoopId)
    requires
        is_thinned(flow, thin),
    ensures
        thin.exit_determined(lp) == flow.exit_determined(lp),
        thin.loop_exit(lp) == flow.loop_exit(lp),
{
    let candidates = flow.exit_candidates(lp);
    lemma_same_exits_from(flow, thin, lp, flow.loop_tree.blocks_of(lp));
    assert(thin.exit_candidates(lp) == candidates);
    assert forall|i: int| #[trigger]
        thin.is_joint(candidates, i) == flow.is_joint(candidates, i) by {
        if thin.is_joint(candidates, i) {
            assert forall|j: int| 0 <= j < candidates.len() implies flow.meets_at(
                #[trigger] candidates[j],
                candidates[i],
            ) by {
                assert(thin.meets_at(candidates[j], candidates[i]));
            }
        }
        if flow.is_joint(candidates, i) {
            assert forall|j: int| 0 <= j < candidates.len() implies thin.meets_at(
                #[trigger] candidates[j],
                candidates[i],
            ) by {
                assert(flow.meets_at(candidates[j], candidates[i]));
            }
        }
    }
    assert forall|i: int| #[trigger]
        thin.is_frontier(candidates, i) == flow.is_frontier(candidates, i) by {}
    let thin_joint = exists|i: int| thin.is_joint(candidates, i);
    let flow_joint = exists|i: int| flow.is_joint(candidates, i);
    if thin_joint {
        let i = choose|i: int| thin.is_joint(candidates, i);
        assert(flow.is_joint(candidates, i));
    }
    if flow_joint {
        let i = choose|i: int| flow.is_joint(candidates, i);
        assert(thin.is_joint(candidates, i));
    }
    assert(thin_joint == flow_joint);
    if flow_joint {
        let i = lemma_joint_picked(flow, candidates);
        let j = lemma_joint_picked(thin, candidates);
        if exists|k: int| flow.is_frontier(candidates, k) {
            let k = choose|k: int| flow.is_frontier(candidates, k);
            assert(thin.is_frontier(candidates, k));
            assert(thin.is_frontier(candidates, i) && flow.is_frontier(candidates, j));
        } else {
            assert forall|k: int| !#[trigger] thin.is_frontier(candidates, k) by {
                assert(!flow.is_frontier(candidates, k));
            }
            assert(thin.is_joint(candidates, i) && flow.is_joint(candidates, j));
        }
        assert(i == j);
    }
    assert(thin.in_graph(lp) == flow.in_graph(lp));
}

proof fn lemma_thinned_listing(flow: FunctionFlow, thin: FunctionFlow, place: Place, depth: nat)
    requires
        is_thinned(flow, thin),
        flow.listing_at(place, depth) is Some,
    ensures
        thin.listing_at(place, depth) == flow.listing_at(place, depth),
    decreases depth, 0nat,
{
    let context = place.context;
    let block = place.block;
    let d = (depth - 1) as nat;
    assert(thin.opened_loop(context, block) == flow.opened_loop(context, block));
    if let Some(lp) = flow.opened_loop(context, block) {
        lemma_same_exit(flow, thin, lp);
        let l = flow.around_body(lp);
        assert(thin.around_body(lp) == l);
        lemma_thinned_listing(flow, thin, Place { context: Context::in_loop(l), block }, d);
        lemma_thinned_rest(flow, thin, context, after_loop(context, l.exit), d);
    } else {
        let end = flow.body.terminator_of(block)->0;
        let store = flow.body.store;
        lemma_thinned_line(
            store,
            flow.body.order.insts_of(block),
            thin.body.order.insts_of(block),
        );
        lemma_thinned_last(
            store,
            flow.body.order.insts_of(block),
            thin.body.order.insts_of(block),
        );
        assert(thin.body.terminator_of(block) == Some(end));
        assert(thin.block_code(block) == flow.block_code(block));
        match store.kind(end).targets() {
            BranchInfo::NotBranch => {},
            BranchInfo::Jump(dest) => {
                lemma_thinned_dest(flow, thin, context, dest_info(context, dest), None, d);
            },
            BranchInfo::Branch(cond, then, else_) => {
                let merge = flow.merge_of(context, block);
                let inner = context.in_if(merge);
                let t = dest_info(context, then);
                let e = dest_info(context, else_);
                assert(thin.merge_of(context, block) == merge);
                assert(flow.if_listing(context, cond, t, e, merge, d) is Some);
                lemma_thinned_dest(flow, thin, inner, t, merge, d);
                lemma_thinned_dest(flow, thin, inner, e, merge, d);
                lemma_thinned_rest(flow, thin, context, merge, d);
                assert(thin.if_listing(context, cond, t, e, merge, d) == flow.if_listing(
                    context,
                    cond,
                    t,
                    e,
                    merge,
                    d,
                ));
            },
        }
    }
}

proof fn lemma_thinned_rest(
    flow: FunctionFlow,
    thin: FunctionFlow,
    context: Context,
    block: Option<BasicBlockId>,
    depth: nat,
)
    requires
        is_thinned(flow, thin),
        flow.rest_listing(context, block, depth) is Some,
    ensures
        thin.rest_listing(context, block, depth) == flow.rest_listing(context, block, depth),
    decreases depth, 1nat,
{
    if let Some(block) = block {
        lemma_thinned_listing(flow, thin, Place { context, block }, depth);
    }
}

proof fn lemma_thinned_dest(
    flow: FunctionFlow,
    thin: FunctionFlow,
    context: Context,
    info: TerminatorInfo,
    merge: Option<BasicBlockId>,
    depth: nat,
)
    requires
        is_thinned(flow, thin),
        flow.dest_listing(context, info, merge, depth) is Some,
    ensures
        thin.dest_listing(context, info, merge, depth) == flow.dest_listing(
            context,
            info,
            merge,
            depth,
        ),
    decreases depth, 2nat,
{
    if let TerminatorInfo::FallThrough(dest) = info {
        lemma_thinned_rest(flow, thin, context, unless_merge(merge, dest), depth);
    }
}

/// Taking instructions that do nothing out of the blocks of a function leaves
/// the listing of every place as it is.
pub proof fn law_nops_make_no_difference(flow: FunctionFlow, thin: FunctionFlow, place: Place)
    requires
        is_thinned(flow, thin),
        flow.ends(place),
    ensures
        thin.ends(place),
        thin.steps_at(place) == flow.steps_at(place),
{
    let depth = choose|depth: nat| #[trigger] flow.listing_at(place, depth) is Some;
    lemma_thinned_listing(flow, thin, place, depth);
    law_listing_unique(flow, place, depth);
    law_listing_unique(thin, place, depth);
}

} // verus!
