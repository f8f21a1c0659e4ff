//! How the blocks of a function are to be listed as structured code.

use vstd::prelude::*;

use crate::analysis::{ControlFlowGraph, DFSet, LoopId, LoopTree, PostDomTree, PostIDom};
use crate::ir::{BasicBlockId, BodyDataStore, BranchInfo, FunctionBody, InstId, ValueId};
use crate::scope::{Context, EnclosingLoop};
use crate::steps::Step;

verus! {

/// What becomes of the end of a block.
#[derive(Debug)]
pub enum TerminatorInfo {
    If {
        cond: ValueId,
        then: Box<TerminatorInfo>,
        else_: Box<TerminatorInfo>,
        merge_block: Option<BasicBlockId>,
    },
    ToMergeBlock,
    Continue,
    Break,
    FallThrough(BasicBlockId),
    NormalInst(InstId),
}

impl TerminatorInfo {
    /// It tells what a jump to a block amounts to.
    pub open spec fn is_dest(self) -> bool {
        self is ToMergeBlock || self is Continue || self is Break || self is FallThrough
    }
}

/// A function body with all that is known of its control flow.
pub struct FunctionFlow {
    pub body: FunctionBody,
    pub cfg: ControlFlowGraph,
    pub loop_tree: LoopTree,
    pub df: DFSet,
    pub pd_tree: PostDomTree,
}

/// The instructions of a block that are to be run before its end: those before
/// the first one that ends a block, without those that do nothing.
pub open spec fn straight_line(store: BodyDataStore, insts: Seq<InstId>) -> Seq<InstId>
    decreases insts.len(),
{
    if insts.len() == 0 || store.kind(insts[0]).ends_block() {
        Seq::empty()
    } else if store.kind(insts[0]) is Nop {
        straight_line(store, insts.drop_first())
    } else {
        seq![insts[0]] + straight_line(store, insts.drop_first())
    }
}

/// One step for each instruction.
pub open spec fn inst_steps(insts: Seq<InstId>) -> Seq<Step> {
    insts.map_values(|inst: InstId| Step::Inst(inst))
}

/// What a jump to `dest` amounts to in a context.
pub open spec fn dest_info(context: Context, dest: BasicBlockId) -> TerminatorInfo {
    if context.enclosing matches Some(l) && l.header == dest {
        TerminatorInfo::Continue
    } else if context.enclosing matches Some(l) && l.exit == Some(dest) {
        TerminatorInfo::Break
    } else if context.merge == Some(dest) {
        TerminatorInfo::ToMergeBlock
    } else {
        TerminatorInfo::FallThrough(dest)
    }
}

/// The block to list where control goes to `dest`: none if that is where the
/// branches of a conditional meet, after which it is listed anyway.
pub open spec fn unless_merge(merge: Option<BasicBlockId>, dest: BasicBlockId) -> Option<
    BasicBlockId,
> {
    if merge == Some(dest) {
        None
    } else {
        Some(dest)
    }
}

/// The block to list after a loop.
pub open spec fn after_loop(context: Context, exit: Option<BasicBlockId>) -> Option<BasicBlockId> {
    match exit {
        Some(e) => unless_merge(context.merge, e),
        None => None,
    }
}

impl FunctionFlow {
    pub open spec fn wf(&self) -> bool {
        self.body.wf() && self.loop_tree.wf()
    }

    /// The blocks among `succs` that are not in `lp`.
    pub open spec fn outside(&self, lp: LoopId, succs: Seq<BasicBlockId>) -> Seq<BasicBlockId> {
        succs.filter(|b: BasicBlockId| !self.loop_tree.blocks_of(lp).contains(b))
    }

    /// The blocks outside `lp` to which control can go from `blocks`, block by block.
    pub open spec fn exits_from(&self, lp: LoopId, blocks: Seq<BasicBlockId>) -> Seq<BasicBlockId>
        decreases blocks.len(),
    {
        if blocks.len() == 0 {
            Seq::empty()
        } else {
            self.exits_from(lp, blocks.drop_last()) + self.outside(
                lp,
                self.cfg.succs_of(blocks.last()),
            )
        }
    }

    /// The blocks outside `lp` to which control can go from `lp`.
    pub open spec fn exit_candidates(&self, lp: LoopId) -> Seq<BasicBlockId> {
        self.exits_from(lp, self.loop_tree.blocks_of(lp))
    }

    /// `joint` is in the dominance frontier of `block`, or is `block`, or
    /// `block` has no dominance frontier.
    pub open spec fn meets_at(&self, block: BasicBlockId, joint: BasicBlockId) -> bool {
        block == joint || (self.df.frontiers_of(block) matches Some(list) ==> list.contains(joint))
    }

    /// All of `candidates` meet at the one with index `i`.
    pub open spec fn is_joint(&self, candidates: Seq<BasicBlockId>, i: int) -> bool {
        0 <= i < candidates.len() && forall|j: int|
            0 <= j < candidates.len() ==> self.meets_at(#[trigger] candidates[j], candidates[i])
    }

    /// The one of `candidates` with index `i` is in the dominance frontier of all others.
    pub open spec fn is_frontier(&self, candidates: Seq<BasicBlockId>, i: int) -> bool {
        0 <= i < candidates.len() && forall|j: int|
            0 <= j < candidates.len() ==> (#[trigger] candidates[j] == candidates[i] || (
            self.df.frontiers_of(candidates[j]) matches Some(list) && list.contains(
                candidates[i],
            )))
    }

    /// `i` is the first index whose candidate is in the dominance frontier of all
    /// others, or if there is none, the first at which all of `candidates` meet.
    pub open spec fn is_first_joint(&self, candidates: Seq<BasicBlockId>, i: int) -> bool {
        if exists|k: int| self.is_frontier(candidates, k) {
            self.is_frontier(candidates, i) && forall|j: int|
                0 <= j < i ==> !#[trigger] self.is_frontier(candidates, j)
        } else {
            self.is_joint(candidates, i) && forall|j: int|
                0 <= j < i ==> !#[trigger] self.is_joint(candidates, j)
        }
    }

    /// The blocks of `lp` are blocks of the graph.
    pub open spec fn in_graph(&self, lp: LoopId) -> bool {
        forall|k: int|
            0 <= k < self.loop_tree.blocks_of(lp).len() ==> self.cfg.has_block(
                #[trigger] self.loop_tree.blocks_of(lp)[k],
            )
    }

    /// There is one answer to where control goes on after `lp`.
    pub open spec fn exit_determined(&self, lp: LoopId) -> bool {
        let candidates = self.exit_candidates(lp);
        &&& self.in_graph(lp)
        &&& candidates.len() == 1 ==> (self.df.frontiers_of(candidates[0]) matches Some(list)
            ==> list.len() == 1)
        &&& candidates.len() > 1 && !(exists|i: int| self.is_joint(candidates, i)) ==> {
            &&& forall|i: int|
                0 <= i < candidates.len() - 1 ==> self.df.frontiers_of(
                    #[trigger] candidates[i],
                ) is Some
            &&& self.df.frontiers_of(candidates.last()) matches Some(list) ==> forall|j: int|
                0 <= j < list.len() ==> #[trigger] list[j] == list[0]
        }
    }

    /// Where control goes on after `lp`. A single candidate stands for its
    /// dominance frontier if it has one. Of several candidates it is the first
    /// in the dominance frontier of all others, else the first at which all that
    /// have a dominance frontier meet, else the dominance frontier of the last.
    pub open spec fn loop_exit(&self, lp: LoopId) -> Option<BasicBlockId> {
        let candidates = self.exit_candidates(lp);
        if candidates.len() == 0 {
            None
        } else if candidates.len() == 1 {
            match self.df.frontiers_of(candidates[0]) {
                Some(list) => Some(list[0]),
                None => Some(candidates[0]),
            }
        } else if exists|i: int| self.is_joint(candidates, i) {
            Some(candidates[choose|i: int| self.is_first_joint(candidates, i)])
        } else {
            match self.df.frontiers_of(candidates.last()) {
                Some(list) => if list.len() == 0 {
                    None
                } else {
                    Some(list[0])
                },
                None => None,
            }
        }
    }

    /// `lp` as the innermost loop around its body.
    pub open spec fn around_body(&self, lp: LoopId) -> EnclosingLoop {
        EnclosingLoop { lp, header: self.loop_tree.header_of(lp), exit: self.loop_exit(lp) }
    }

    /// The loop that listing `block` opens, if it is the header of one that is
    /// not the innermost construct already.
    pub open spec fn opened_loop(&self, context: Context, block: BasicBlockId) -> Option<LoopId> {
        match self.loop_tree.innermost(block) {
            Some(lp) => if self.loop_tree.header_of(lp) == block && context.header != Some(block) {
                Some(lp)
            } else {
                None
            },
            None => None,
        }
    }

    /// Where the branches from `block` meet: at its immediate post dominator,
    /// unless that is outside the innermost loop.
    pub open spec fn merge_of(&self, context: Context, block: BasicBlockId) -> Option<
        BasicBlockId,
    > {
        match self.pd_tree.post_idoms@[block.0 as int] {
            PostIDom::Block(b) => if context.enclosing matches Some(l)
                && !self.loop_tree.blocks_of(l.lp).contains(b) {
                None
            } else {
                Some(b)
            },
            _ => None,
        }
    }

    /// What becomes of `end`, the instruction that ends `block`.
    pub open spec fn end_info(
        &self,
        context: Context,
        block: BasicBlockId,
        end: InstId,
    ) -> TerminatorInfo {
        match self.body.store.kind(end).targets() {
            BranchInfo::Jump(dest) => dest_info(context, dest),
            BranchInfo::Branch(cond, then, else_) => TerminatorInfo::If {
                cond,
                then: Box::new(dest_info(context, then)),
                else_: Box::new(dest_info(context, else_)),
                merge_block: self.merge_of(context, block),
            },
            BranchInfo::NotBranch => TerminatorInfo::NormalInst(end),
        }
    }

    /// The steps that a block lists before its end.
    pub open spec fn block_code(&self, block: BasicBlockId) -> Seq<Step> {
        inst_steps(straight_line(self.body.store, self.body.order.insts_of(block)))
    }

    /// The steps for `block` and all that follows it in `context`: `None` if they
    /// are not all there within `depth` blocks on end.
    pub open spec fn listing(&self, context: Context, block: BasicBlockId, depth: nat) -> Option<
        Seq<Step>,
    >
        decreases depth, 0nat,
    {
        if depth == 0 {
            None
        } else if let Some(lp) = self.opened_loop(context, block) {
            if !self.exit_determined(lp) {
                None
            } else {
                let l = self.around_body(lp);
                match (
                    self.listing(Context::in_loop(l), block, (depth - 1) as nat),
                    self.rest_listing(context, after_loop(context, l.exit), (depth - 1) as nat),
                ) {
                    (Some(body), Some(rest)) => Some(seq![Step::For { body }] + rest),
                    _ => None,
                }
            }
        } else if let Some(end) = self.body.terminator_of(block) {
            let code = self.block_code(block);
            match self.body.store.kind(end).targets() {
                BranchInfo::NotBranch => Some(code.push(Step::Inst(end))),
                BranchInfo::Jump(dest) => match self.dest_listing(
                    context,
                    dest_info(context, dest),
                    None,
                    (depth - 1) as nat,
                ) {
                    Some(rest) => Some(code + rest),
                    None => None,
                },
                BranchInfo::Branch(cond, then, else_) => if !self.pd_tree.has_block(block) {
                    None
                } else {
                    match self.if_listing(
                        context,
                        cond,
                        dest_info(context, then),
                        dest_info(context, else_),
                        self.merge_of(context, block),
                        (depth - 1) as nat,
                    ) {
                        Some(rest) => Some(code + rest),
                        None => None,
                    }
                },
            }
        } else {
            None
        }
    }

    /// The steps for a conditional and all that follows it in `context`.
    pub open spec fn if_listing(
        &self,
        context: Context,
        cond: ValueId,
        then: TerminatorInfo,
        else_: TerminatorInfo,
        merge: Option<BasicBlockId>,
        depth: nat,
    ) -> Option<Seq<Step>>
        decreases depth, 3nat,
    {
        match (
            self.dest_listing(context.in_if(merge), then, merge, depth),
            self.dest_listing(context.in_if(merge), else_, merge, depth),
            self.rest_listing(context, merge, depth),
        ) {
            (Some(then), Some(else_), Some(rest)) => Some(
                seq![Step::If { cond, then, else_ }] + rest,
            ),
            _ => None,
        }
    }

    /// The steps for `block` if there is one.
    pub open spec fn rest_listing(
        &self,
        context: Context,
        block: Option<BasicBlockId>,
        depth: nat,
    ) -> Option<Seq<Step>>
        decreases depth, 1nat,
    {
        match block {
            Some(b) => self.listing(context, b, depth),
            None => Some(Seq::empty()),
        }
    }

    /// The steps for a jump that amounts to `info`: a block that is listed
    /// later anyway, at `merge`, is not listed here.
    pub open spec fn dest_listing(
        &self,
        context: Context,
        info: TerminatorInfo,
        merge: Option<BasicBlockId>,
        depth: nat,
    ) -> Option<Seq<Step>>
        decreases depth, 2nat,
    {
        match info {
            TerminatorInfo::Break => Some(seq![Step::Break]),
            TerminatorInfo::Continue => Some(seq![Step::Continue]),
            TerminatorInfo::FallThrough(dest) => self.rest_listing(
                context,
                unless_merge(merge, dest),
                depth,
            ),
            _ => Some(Seq::empty()),
        }
    }
}

} // verus!
