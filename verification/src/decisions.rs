//! How it is decided what the flow of control becomes.

use vstd::prelude::*;

use crate::analysis::{LoopId, PostIDom};
use crate::flow::{after_loop, dest_info, unless_merge, FunctionFlow, TerminatorInfo};
use crate::ir::{BasicBlockId, InstId, InstKind};
use crate::scope::{Context, EnclosingLoop};
use crate::shape::lemma_joint_picked;

verus! {

/// A jump starts the innermost loop anew just if it goes to the loop's header,
/// leaves it just if it goes to the loop's exit, amounts to nothing just if it
/// goes to where the branches around meet, and else has its destination follow.
pub proof fn law_jump(context: Context, dest: BasicBlockId)
    ensures
        dest_info(context, dest) is Continue <==> (context.enclosing matches Some(l) && l.header
            == dest),
        dest_info(context, dest) is Break <==> (context.enclosing matches Some(l) && l.header
            != dest && l.exit == Some(dest)),
        dest_info(context, dest) is ToMergeBlock <==> context.merge == Some(dest) && (
        context.enclosing matches Some(l) ==> l.header != dest && l.exit != Some(dest)),
        dest_info(context, dest) is FallThrough <==> context.merge != Some(dest) && (
        context.enclosing matches Some(l) ==> l.header != dest && l.exit != Some(dest)),
        dest_info(context, dest) is FallThrough ==> dest_info(context, dest)
            == TerminatorInfo::FallThrough(dest),
{
}

/// The branches from a block meet at its immediate post dominator, which must be
/// in the innermost loop if there is one.
pub proof fn law_branches_meet(flow: FunctionFlow, context: Context, block: BasicBlockId)
    requires
        block.0 < flow.pd_tree.post_idoms@.len(),
    ensures
        flow.merge_of(context, block) matches Some(m) ==> flow.pd_tree.post_idoms@[block.0 as int]
            == PostIDom::Block(m) && (context.enclosing matches Some(l)
            ==> flow.loop_tree.loops@[l.lp.0 as int].blocks@.contains(m)),
        flow.merge_of(context, block) is None ==> match flow.pd_tree.post_idoms@[block.0 as int] {
            PostIDom::Dummy => true,
            PostIDom::Block(m) => context.enclosing matches Some(l)
                && !flow.loop_tree.loops@[l.lp.0 as int].blocks@.contains(m),
        },
{
}

/// A block opens a loop just if it is the header of its innermost loop and the
/// innermost construct around is not a loop with that header.
pub proof fn law_header_opens(flow: FunctionFlow, context: Context, block: BasicBlockId)
    ensures
        flow.opened_loop(context, block) matches Some(lp) ==> {
            &&& block.0 < flow.loop_tree.block_to_loop@.len()
            &&& flow.loop_tree.block_to_loop@[block.0 as int] == Some(lp)
            &&& flow.loop_tree.loops@[lp.0 as int].header == block
            &&& context.header != Some(block)
        },
        flow.opened_loop(context, block) is None ==> {
            ||| block.0 >= flow.loop_tree.block_to_loop@.len()
            ||| flow.loop_tree.block_to_loop@[block.0 as int] is None
            ||| (flow.loop_tree.block_to_loop@[block.0 as int] matches Some(lp)
                && flow.loop_tree.loops@[lp.0 as int].header != block)
            ||| context.header == Some(block)
        },
{
}

/// Inside of a loop the innermost construct is that loop, with its header and exit;
/// inside of a conditional it is the conditional, in the same innermost loop.
pub proof fn law_inside(
    flow: FunctionFlow,
    context: Context,
    lp: LoopId,
    merge: Option<BasicBlockId>,
)
    ensures
        Context::in_loop(flow.around_body(lp)) == (Context {
            merge: None,
            header: Some(flow.loop_tree.loops@[lp.0 as int].header),
            enclosing: Some(
                EnclosingLoop {
                    lp,
                    header: flow.loop_tree.loops@[lp.0 as int].header,
                    exit: flow.loop_exit(lp),
                },
            ),
        }),
        context.in_if(merge) == (Context { merge, header: None, enclosing: context.enclosing }),
        Context::outermost() == (Context { merge: None, header: None, enclosing: None }),
{
}

/// A block is passed over just where it is listed anyway, because branches meet there.
pub proof fn law_passed_over(context: Context, block: BasicBlockId)
    ensures
        unless_merge(Some(block), block) is None,
        unless_merge(None, block) == Some(block),
        forall|merge: Option<BasicBlockId>|
            merge != Some(block) ==> #[trigger] unless_merge(merge, block) == Some(block),
        after_loop(context, None) is None,
        context.merge == Some(block) ==> after_loop(context, Some(block)) is None,
        context.merge != Some(block) ==> after_loop(context, Some(block)) == Some(block),
{
}

/// What the last instruction of a block becomes: a branch a conditional on its
/// own condition, with its own `then` first; a jump what it amounts to; and any
/// other one stays.
pub proof fn law_end_becomes(
    flow: FunctionFlow,
    context: Context,
    block: BasicBlockId,
    end: InstId,
)
    ensures
        match flow.body.store.insts@[end.0 as int] {
            InstKind::Branch { cond, then, else_ } => flow.end_info(context, block, end) == (
            TerminatorInfo::If {
                cond,
                then: Box::new(dest_info(context, then)),
                else_: Box::new(dest_info(context, else_)),
                merge_block: flow.merge_of(context, block),
            }),
            InstKind::Jump { dest } => flow.end_info(context, block, end) == dest_info(
                context,
                dest,
            ),
            _ => flow.end_info(context, block, end) == TerminatorInfo::NormalInst(end),
        },
{
}

proof fn lemma_exits_flat(flow: FunctionFlow, lp: LoopId, blocks: Seq<BasicBlockId>)
    ensures
        flow.exits_from(lp, blocks) == blocks.map_values(
            |b: BasicBlockId|
                flow.cfg.succs@[b.0 as int]@.filter(
                    |c: BasicBlockId| !flow.loop_tree.loops@[lp.0 as int].blocks@.contains(c),
                ),
        ).flatten_alt(),
    decreases blocks.len(),
{
    let pred = |c: BasicBlockId| !flow.loop_tree.loops@[lp.0 as int].blocks@.contains(c);
    let outside = |b: BasicBlockId| flow.cfg.succs@[b.0 as int]@.filter(pred);
    let lists = blocks.map_values(outside);
    if blocks.len() > 0 {
        lemma_exits_flat(flow, lp, blocks.drop_last());
        assert(lists.drop_last() =~= blocks.drop_last().map_values(outside));
        assert(lists.last() == outside(blocks.last()));
        let own = |b: BasicBlockId| !flow.loop_tree.blocks_of(lp).contains(b);
        assert(own =~= pred);
        assert(flow.outside(lp, flow.cfg.succs_of(blocks.last())) == outside(blocks.last()));
    }
}

/// The candidates for where control goes on after a loop are all ends of edges
/// that lead out of the loop: block by block in the order of the loop's blocks,
/// and edge by edge for each.
pub proof fn law_ways_out(flow: FunctionFlow, lp: LoopId)
    ensures
        flow.exit_candidates(lp) == flow.loop_tree.loops@[lp.0 as int].blocks@.map_values(
            |b: BasicBlockId|
                flow.cfg.succs@[b.0 as int]@.filter(
                    |c: BasicBlockId| !flow.loop_tree.loops@[lp.0 as int].blocks@.contains(c),
                ),
        ).flatten(),
{
    let blocks = flow.loop_tree.loops@[lp.0 as int].blocks@;
    lemma_exits_flat(flow, lp, blocks);
    blocks.map_values(
        |b: BasicBlockId|
            flow.cfg.succs@[b.0 as int]@.filter(
                |c: BasicBlockId| !flow.loop_tree.loops@[lp.0 as int].blocks@.contains(c),
            ),
    ).lemma_flatten_and_flatten_alt_are_equivalent();
}

/// A loop without a way out has no exit, and that is settled.
pub proof fn law_no_way_out(flow: FunctionFlow, lp: LoopId)
    requires
        flow.exit_candidates(lp).len() == 0,
        forall|k: int|
            0 <= k < flow.loop_tree.loops@[lp.0 as int].blocks@.len() ==> (
            #[trigger] flow.loop_tree.loops@[lp.0 as int].blocks@[k]).0 < flow.cfg.succs@.len(),
    ensures
        flow.loop_exit(lp) is None,
        flow.exit_determined(lp),
{
    lemma_in_graph(flow, lp);
}

proof fn lemma_in_graph(flow: FunctionFlow, lp: LoopId)
    ensures
        flow.in_graph(lp) <==> forall|k: int|
            0 <= k < flow.loop_tree.loops@[lp.0 as int].blocks@.len() ==> (
            #[trigger] flow.loop_tree.loops@[lp.0 as int].blocks@[k]).0 < flow.cfg.succs@.len(),
{
    let blocks = flow.loop_tree.loops@[lp.0 as int].blocks@;
    if flow.in_graph(lp) {
        assert forall|k: int| 0 <= k < blocks.len() implies (#[trigger] blocks[k]).0
            < flow.cfg.succs@.len() by {
            assert(flow.cfg.has_block(flow.loop_tree.blocks_of(lp)[k]));
        }
    }
}

/// A loop with a single way out has an exit: where that leads, or if the block
/// there has a dominance frontier, the block in it. That is settled just if
/// there is no frontier, or one block in it.
pub proof fn law_one_way_out(flow: FunctionFlow, lp: LoopId, candidate: BasicBlockId)
    requires
        flow.exit_candidates(lp) == seq![candidate],
        forall|k: int|
            0 <= k < flow.loop_tree.loops@[lp.0 as int].blocks@.len() ==> (
            #[trigger] flow.loop_tree.loops@[lp.0 as int].blocks@[k]).0 < flow.cfg.succs@.len(),
    ensures
        candidate.0 >= flow.df.frontiers@.len() || flow.df.frontiers@[candidate.0 as int] is None
            ==> flow.exit_determined(lp) && flow.loop_exit(lp) == Some(candidate),
        candidate.0 < flow.df.frontiers@.len() ==> (
        flow.df.frontiers@[candidate.0 as int] matches Some(list) ==> (flow.exit_determined(lp)
            <==> list@.len() == 1) && (list@.len() == 1 ==> flow.loop_exit(lp) == Some(list@[0]))),
{
    lemma_in_graph(flow, lp);
    assert(flow.exit_candidates(lp)[0] == candidate);
}

/// A loop with several ways out that all lead to one block has that block for
/// its exit.
pub proof fn law_all_ways_to_one_block(flow: FunctionFlow, lp: LoopId, block: BasicBlockId)
    requires
        flow.exit_candidates(lp).len() > 1,
        forall|i: int|
            0 <= i < flow.exit_candidates(lp).len() ==> #[trigger] flow.exit_candidates(lp)[i]
                == block,
        forall|k: int|
            0 <= k < flow.loop_tree.loops@[lp.0 as int].blocks@.len() ==> (
            #[trigger] flow.loop_tree.loops@[lp.0 as int].blocks@[k]).0 < flow.cfg.succs@.len(),
    ensures
        flow.exit_determined(lp),
        flow.loop_exit(lp) == Some(block),
{
    let candidates = flow.exit_candidates(lp);
    lemma_in_graph(flow, lp);
    assert(flow.is_joint(candidates, 0));
    let i = lemma_joint_picked(flow, candidates);
    assert(candidates[i] == block);
}

/// If one of several candidates is in the dominance frontier of all others, the
/// first such is the exit.
pub proof fn law_first_common_frontier(flow: FunctionFlow, lp: LoopId, i: int)
    requires
        flow.exit_candidates(lp).len() > 1,
        0 <= i < flow.exit_candidates(lp).len(),
        forall|k: int|
            0 <= k < flow.loop_tree.loops@[lp.0 as int].blocks@.len() ==> (
            #[trigger] flow.loop_tree.loops@[lp.0 as int].blocks@[k]).0 < flow.cfg.succs@.len(),
        forall|j: int|
            #![trigger flow.exit_candidates(lp)[j]]
            0 <= j < flow.exit_candidates(lp).len() ==> {
                let other = flow.exit_candidates(lp)[j];
                other == flow.exit_candidates(lp)[i] || (other.0 < flow.df.frontiers@.len() && (
                flow.df.frontiers@[other.0 as int] matches Some(list) && list@.contains(
                    flow.exit_candidates(lp)[i],
                )))
            },
    ensures
        flow.exit_determined(lp),
        exists|h: int|
            {
                &&& 0 <= h <= i
                &&& flow.loop_exit(lp) == Some(#[trigger] flow.exit_candidates(lp)[h])
                &&& forall|j: int|
                    #![trigger flow.exit_candidates(lp)[j]]
                    0 <= j < flow.exit_candidates(lp).len() ==> {
                        let other = flow.exit_candidates(lp)[j];
                        other == flow.exit_candidates(lp)[h] || (other.0
                            < flow.df.frontiers@.len() && (
                        flow.df.frontiers@[other.0 as int] matches Some(list) && list@.contains(
                            flow.exit_candidates(lp)[h],
                        )))
                    }
            },
{
    let candidates = flow.exit_candidates(lp);
    lemma_in_graph(flow, lp);
    assert(flow.is_frontier(candidates, i)) by {
        assert forall|j: int| 0 <= j < candidates.len() implies (
        #[trigger] candidates[j] == candidates[i] || (flow.df.frontiers_of(
            candidates[j],
        ) matches Some(list) && list.contains(candidates[i]))) by {}
    }
    assert(flow.is_joint(candidates, i));
    let h = lemma_joint_picked(flow, candidates);
    assert(flow.is_frontier(candidates, h));
    if h > i {
        assert(!flow.is_frontier(candidates, i));
    }
    assert(flow.loop_exit(lp) == Some(candidates[h]));
}

/// If none of several candidates is in the dominance frontier of all others, but
/// one is in those of all others that have one, the first such is the exit.
pub proof fn law_first_joint(flow: FunctionFlow, lp: LoopId, i: int)
    requires
        flow.exit_candidates(lp).len() > 1,
        0 <= i < flow.exit_candidates(lp).len(),
        forall|k: int|
            0 <= k < flow.loop_tree.loops@[lp.0 as int].blocks@.len() ==> (
            #[trigger] flow.loop_tree.loops@[lp.0 as int].blocks@[k]).0 < flow.cfg.succs@.len(),
        forall|h: int|
            #![trigger flow.exit_candidates(lp)[h]]
            0 <= h < flow.exit_candidates(lp).len() ==> exists|j: int|
                #![trigger flow.exit_candidates(lp)[j]]
                {
                    let other = flow.exit_candidates(lp)[j];
                    &&& 0 <= j < flow.exit_candidates(lp).len()
                    &&& other != flow.exit_candidates(lp)[h]
                    &&& other.0 < flow.df.frontiers@.len() ==> (
                    flow.df.frontiers@[other.0 as int] matches Some(list) ==> !list@.contains(
                        flow.exit_candidates(lp)[h],
                    ))
                },
        forall|j: int|
            #![trigger flow.exit_candidates(lp)[j]]
            0 <= j < flow.exit_candidates(lp).len() ==> {
                let other = flow.exit_candidates(lp)[j];
                other == flow.exit_candidates(lp)[i] || (other.0 < flow.df.frontiers@.len() ==> (
                flow.df.frontiers@[other.0 as int] matches Some(list) ==> list@.contains(
                    flow.exit_candidates(lp)[i],
                )))
            },
    ensures
        flow.exit_determined(lp),
        exists|h: int|
            {
                &&& 0 <= h <= i
                &&& flow.loop_exit(lp) == Some(#[trigger] flow.exit_candidates(lp)[h])
                &&& forall|j: int|
                    #![trigger flow.exit_candidates(lp)[j]]
                    0 <= j < flow.exit_candidates(lp).len() ==> {
                        let other = flow.exit_candidates(lp)[j];
                        other == flow.exit_candidates(lp)[h] || (other.0
                            < flow.df.frontiers@.len() ==> (
                        flow.df.frontiers@[other.0 as int] matches Some(list) ==> list@.contains(
                            flow.exit_candidates(lp)[h],
                        )))
                    }
            },
{
    let candidates = flow.exit_candidates(lp);
    lemma_in_graph(flow, lp);
    assert forall|h: int| !#[trigger] flow.is_frontier(candidates, h) by {
        if flow.is_frontier(candidates, h) {
            let c = candidates[h];
            let j = choose|j: int|
                #![trigger candidates[j]]
                {
                    let other = candidates[j];
                    &&& 0 <= j < candidates.len()
                    &&& other != c
                    &&& other.0 < flow.df.frontiers@.len() ==> (
                    flow.df.frontiers@[other.0 as int] matches Some(list) ==> !list@.contains(c))
                };
            assert(candidates[j] != c);
        }
    }
    assert(flow.is_joint(candidates, i)) by {
        assert forall|j: int| 0 <= j < candidates.len() implies flow.meets_at(
            #[trigger] candidates[j],
            candidates[i],
        ) by {}
    }
    let h = lemma_joint_picked(flow, candidates);
    if h > i {
        assert(!flow.is_joint(candidates, i));
    }
    assert forall|j: int|
        #![trigger candidates[j]]
        0 <= j < candidates.len() implies {
        let other = candidates[j];
        other == candidates[h] || (other.0 < flow.df.frontiers@.len() ==> (
        flow.df.frontiers@[other.0 as int] matches Some(list) ==> list@.contains(candidates[h])))
    } by {
        assert(flow.meets_at(candidates[j], candidates[h]));
    }
    assert(flow.loop_exit(lp) == Some(candidates[h]));
}

proof fn lemma_no_joint(flow: FunctionFlow, candidates: Seq<BasicBlockId>)
    requires
        forall|h: int|
            #![trigger candidates[h]]
            0 <= h < candidates.len() ==> exists|j: int|
                #![trigger candidates[j]]
                0 <= j < candidates.len() && candidates[j] != candidates[h] && (
                flow.df.frontiers_of(candidates[j]) matches Some(list) && !list.contains(
                    candidates[h],
                )),
    ensures
        forall|h: int| !#[trigger] flow.is_joint(candidates, h),
{
    assert forall|h: int| !#[trigger] flow.is_joint(candidates, h) by {
        if flow.is_joint(candidates, h) {
            let c = candidates[h];
            let j = choose|j: int|
                #![trigger candidates[j]]
                0 <= j < candidates.len() && candidates[j] != c && (flow.df.frontiers_of(
                    candidates[j],
                ) matches Some(list) && !list.contains(c));
            assert(flow.meets_at(candidates[j], c));
        }
    }
}

/// If none of several candidates is in the dominance frontiers of all others that
/// have one, the exit is in the dominance frontier of the last, if anything is.
pub proof fn law_last_frontier(flow: FunctionFlow, lp: LoopId)
    requires
        flow.exit_candidates(lp).len() > 1,
        forall|h: int|
            #![trigger flow.exit_candidates(lp)[h]]
            0 <= h < flow.exit_candidates(lp).len() ==> exists|j: int|
                #![trigger flow.exit_candidates(lp)[j]]
                0 <= j < flow.exit_candidates(lp).len() && flow.exit_candidates(lp)[j]
                    != flow.exit_candidates(lp)[h] && (flow.df.frontiers_of(
                    flow.exit_candidates(lp)[j],
                ) matches Some(list) && !list.contains(flow.exit_candidates(lp)[h])),
    ensures
        match flow.df.frontiers_of(
            flow.exit_candidates(lp)[flow.exit_candidates(lp).len() - 1],
        ) {
            Some(list) => if list.len() > 0 {
                flow.loop_exit(lp) == Some(list[0])
            } else {
                flow.loop_exit(lp) is None
            },
            None => flow.loop_exit(lp) is None,
        },
{
    let candidates = flow.exit_candidates(lp);
    lemma_no_joint(flow, candidates);
    assert(candidates.last() == candidates[candidates.len() - 1]);
}

/// In that case the exit is settled just if all others have a dominance frontier,
/// and the last has not two blocks in its own.
pub proof fn law_last_frontier_settles(flow: FunctionFlow, lp: LoopId)
    requires
        flow.exit_candidates(lp).len() > 1,
        forall|h: int|
            #![trigger flow.exit_candidates(lp)[h]]
            0 <= h < flow.exit_candidates(lp).len() ==> exists|j: int|
                #![trigger flow.exit_candidates(lp)[j]]
                0 <= j < flow.exit_candidates(lp).len() && flow.exit_candidates(lp)[j]
                    != flow.exit_candidates(lp)[h] && (flow.df.frontiers_of(
                    flow.exit_candidates(lp)[j],
                ) matches Some(list) && !list.contains(flow.exit_candidates(lp)[h])),
        forall|k: int|
            0 <= k < flow.loop_tree.loops@[lp.0 as int].blocks@.len() ==> (
            #[trigger] flow.loop_tree.loops@[lp.0 as int].blocks@[k]).0 < flow.cfg.succs@.len(),
    ensures
        flow.exit_determined(lp) <==> {
            &&& forall|i: int|
                0 <= i < flow.exit_candidates(lp).len() - 1 ==> flow.df.frontiers_of(
                    #[trigger] flow.exit_candidates(lp)[i],
                ) is Some
            &&& flow.df.frontiers_of(
                flow.exit_candidates(lp)[flow.exit_candidates(lp).len() - 1],
            ) matches Some(list) ==> forall|a: int|
                0 <= a < list.len() ==> #[trigger] list[a] == list[0]
        },
{
    let candidates = flow.exit_candidates(lp);
    lemma_in_graph(flow, lp);
    lemma_no_joint(flow, candidates);
    assert(candidates.last() == candidates[candidates.len() - 1]);
}

/// Nothing is settled of a loop with a block that is not in the graph.
pub proof fn law_loop_in_graph(flow: FunctionFlow, lp: LoopId, k: int)
    requires
        0 <= k < flow.loop_tree.loops@[lp.0 as int].blocks@.len(),
        flow.loop_tree.loops@[lp.0 as int].blocks@[k].0 >= flow.cfg.succs@.len(),
    ensures
        !flow.exit_determined(lp),
{
    lemma_in_graph(flow, lp);
}

/// A loop of which it is settled that it has no exit has no way out, or none but
/// such as the last of several, that nothing but itself and what it dominates follows.
pub proof fn law_without_exit(flow: FunctionFlow, lp: LoopId)
    requires
        flow.exit_determined(lp),
        flow.loop_exit(lp) is None,
    ensures
        flow.exit_candidates(lp).len() == 0 || {
            let last = flow.exit_candidates(lp)[flow.exit_candidates(lp).len() - 1];
            &&& flow.exit_candidates(lp).len() > 1
            &&& last.0 < flow.df.frontiers@.len() ==> (
            flow.df.frontiers@[last.0 as int] matches Some(list) ==> list@.len() == 0)
        },
{
    let candidates = flow.exit_candidates(lp);
    if candidates.len() > 1 {
        assert(candidates.last() == candidates[candidates.len() - 1]);
    }
}

} // verus!
