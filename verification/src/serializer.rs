//! Lists the instructions of a function as structured code.

use fxhash::FxHashSet;
use vstd::prelude::*;

use crate::analysis::{ControlFlowGraph, DFSet, LoopId, LoopTree, PostDomTree, PostIDom};
use crate::flow::{dest_info, inst_steps, straight_line, FunctionFlow, TerminatorInfo};
use crate::fx;
use crate::ir::{is_place, BasicBlockId, BranchInfo, FunctionBody, InstId, ValueId};
use crate::scope::{context_of, entered, left, Context, Scope, ScopeKind};
use crate::steps::{lemma_steps_push, steps_of, Step, StructuralInst};
use crate::walk::{
    law_block_steps, law_loop_steps, lemma_depth_next, lemma_if_depth, lemma_visits_loop, Place,
};

verus! {

/// Lists the instructions of one function as structured code.
pub struct InstSerializer<'a> {
    pub body: &'a FunctionBody,
    pub cfg: ControlFlowGraph,
    pub loop_tree: LoopTree,
    pub df: DFSet,
    pub pd_tree: PostDomTree,
    pub scope: Option<Scope>,
}

impl<'a> InstSerializer<'a> {
    /// The function to list.
    pub open spec fn flow(&self) -> FunctionFlow {
        FunctionFlow {
            body: *self.body,
            cfg: self.cfg,
            loop_tree: self.loop_tree,
            df: self.df,
            pd_tree: self.pd_tree,
        }
    }

    /// The function is well formed, and so are the loops around the current place.
    pub open spec fn wf(&self) -> bool {
        &&& self.flow().wf()
        &&& self.context().enclosing matches Some(l) ==> self.loop_tree.has_loop(l.lp)
    }

    /// What the order of the code at the current place depends on.
    pub open spec fn context(&self) -> Context {
        context_of(self.scope)
    }

    /// Starts outside of every construct.
    pub fn new(
        body: &'a FunctionBody,
        cfg: ControlFlowGraph,
        loop_tree: LoopTree,
        df: DFSet,
        pd_tree: PostDomTree,
    ) -> (serializer: Self)
        requires
            body.wf(),
            loop_tree.wf(),
        ensures
            serializer.wf(),
            serializer.scope is None,
            serializer.flow() == (FunctionFlow { body: *body, cfg, loop_tree, df, pd_tree }),
            serializer.body == body,
            serializer.cfg == cfg,
            serializer.loop_tree == loop_tree,
            serializer.df == df,
            serializer.pd_tree == pd_tree,
    {
        InstSerializer { body, cfg, loop_tree, df, pd_tree, scope: None }
    }

    /// Lists the function as structured code.
    pub fn serialize(&mut self) -> (order: Vec<StructuralInst>)
        requires
            old(self).flow().wf(),
            old(self).flow().serializable(),
        ensures
            final(self).flow() == old(self).flow(),
            final(self).scope is None,
            steps_of(order@) == old(self).flow().serialized(),
    {
        self.scope = None;
        let entry: BasicBlockId = self.cfg.entry();
        let mut order: Vec<StructuralInst> = Vec::new();
        self.serialize_block(entry, &mut order);
        assert(steps_of(order@) =~= self.flow().serialized());
        order
    }

    /// Appends `block` and what follows it in the current place.
    pub fn serialize_block(&mut self, block: BasicBlockId, order: &mut Vec<StructuralInst>)
        requires
            old(self).wf(),
            old(self).flow().ends(Place { context: old(self).context(), block }),
        ensures
            final(self).flow() == old(self).flow(),
            final(self).scope == old(self).scope,
            old(order)@.is_prefix_of(final(order)@),
            steps_of(final(order)@) == steps_of(old(order)@) + old(self).flow().steps_at(
                Place { context: old(self).context(), block },
            ),
        decreases
                old(self).flow().depth_of(Place { context: old(self).context(), block }),
                0nat,
    {
        let ghost flow = self.flow();
        let ghost context = self.context();
        let ghost here = Place { context, block };
        let header_here: Option<BasicBlockId> = match &self.scope {
            Some(scope) => scope.loop_header(),
            None => None,
        };
        if let Some(lp) = self.loop_tree.loop_of_block(block) {
            if block == self.loop_tree.loop_header(lp) && Some(block) != header_here {
                assert(flow.opened_loop(context, block) == Some(lp));
                let ghost inner = Place { context: Context::in_loop(flow.around_body(lp)), block };
                proof {
                    law_loop_steps(flow, here, lp);
                    lemma_visits_loop(flow, here, lp);
                    lemma_depth_next(flow, here, inner);
                }
                let loop_exit = self.find_loop_exit(lp);
                self.enter_loop_scope(lp, block, loop_exit);
                let mut body: Vec<StructuralInst> = Vec::new();
                self.serialize_block(block, &mut body);
                self.exit_scope();
                proof {
                    assert(steps_of(body@) =~= flow.steps_at(inner));
                    lemma_steps_push(order@, StructuralInst::For { body });
                }
                order.push(StructuralInst::For { body });

                if let Some(exit) = loop_exit {
                    let at_merge: bool = match &self.scope {
                        Some(scope) => scope.if_merge_block() == Some(exit),
                        None => false,
                    };
                    assert(at_merge <==> context.merge == Some(exit));
                    if !at_merge {
                        proof {
                            lemma_depth_next(flow, here, Place { context, block: exit });
                        }
                        self.serialize_block(exit, order);
                    }
                }
                assert(steps_of(order@) =~= steps_of(old(order)@) + flow.steps_at(here));
                return ;
            }
        }
        assert(flow.opened_loop(context, block) is None);
        proof {
            law_block_steps(flow, here);
        }

        let fn_body: &FunctionBody = self.body;
        let insts: &Vec<InstId> = fn_body.order.insts(block);
        let ghost before = steps_of(order@);
        let ghost code = flow.block_code(block);
        let mut k: usize = 0;
        assert(insts@.skip(0) =~= insts@);
        while k < insts.len()
            invariant
                k <= insts@.len(),
                fn_body.wf(),
                fn_body.order.has_block(block),
                insts@ == fn_body.order.insts_of(block),
                old(order)@.is_prefix_of(order@),
                code == inst_steps(straight_line(fn_body.store, insts@)),
                before + code == steps_of(order@) + inst_steps(
                    straight_line(fn_body.store, insts@.skip(k as int)),
                ),
            ensures
                old(order)@.is_prefix_of(order@),
                before + code == steps_of(order@),
            decreases insts@.len() - k,
        {
            let inst: InstId = insts[k];
            assert(is_place(fn_body.order.blocks@, block.0 as int, k as int));
            assert(insts@.skip(k as int).drop_first() =~= insts@.skip(k + 1));
            if fn_body.store.is_terminator(inst) {
                assert(inst_steps(straight_line(fn_body.store, insts@.skip(k as int))) =~= seq![]);
                break;
            }
            if !fn_body.store.is_nop(inst) {
                proof {
                    lemma_steps_push(order@, StructuralInst::Inst(inst));
                    let rest = straight_line(fn_body.store, insts@.skip(k + 1));
                    assert(inst_steps(seq![inst] + rest) =~= seq![Step::Inst(inst)] + inst_steps(
                        rest,
                    ));
                    assert(steps_of(order@) + (seq![Step::Inst(inst)] + inst_steps(rest))
                        =~= steps_of(order@).push(Step::Inst(inst)) + inst_steps(rest));
                }
                order.push(StructuralInst::Inst(inst));
            }
            k += 1;
            proof {
                if k == insts@.len() {
                    assert(inst_steps(straight_line(fn_body.store, insts@.skip(k as int)))
                        =~= seq![]);
                }
            }
        }

        let terminator: InstId = fn_body.terminator(block).unwrap();
        match self.analyze_terminator(terminator) {
            TerminatorInfo::If { cond, then, else_, merge_block } => {
                proof {
                    lemma_if_depth(flow, here);
                }
                self.serialize_if_terminator(cond, *then, *else_, merge_block, order);
            },
            TerminatorInfo::ToMergeBlock => {},
            TerminatorInfo::Continue => {
                proof {
                    lemma_steps_push(order@, StructuralInst::Continue);
                }
                order.push(StructuralInst::Continue);
            },
            TerminatorInfo::Break => {
                proof {
                    lemma_steps_push(order@, StructuralInst::Break);
                }
                order.push(StructuralInst::Break);
            },
            TerminatorInfo::FallThrough(next) => {
                proof {
                    let place = Place { context, block: next };
                    assert(flow.next_places(here)->0 =~= seq![place]);
                    assert(flow.next_places(here)->0[0] == place);
                    lemma_depth_next(flow, here, place);
                }
                self.serialize_block(next, order);
            },
            TerminatorInfo::NormalInst(inst) => {
                proof {
                    lemma_steps_push(order@, StructuralInst::Inst(inst));
                }
                order.push(StructuralInst::Inst(inst));
            },
        }
        assert(steps_of(order@) =~= steps_of(old(order)@) + flow.steps_at(here));
    }

    /// Appends a conditional and what follows it in the current place.
    pub fn serialize_if_terminator(
        &mut self,
        cond: ValueId,
        then: TerminatorInfo,
        else_: TerminatorInfo,
        merge_block: Option<BasicBlockId>,
        order: &mut Vec<StructuralInst>,
    )
        requires
            old(self).wf(),
            then.is_dest(),
            else_.is_dest(),
            old(self).flow().if_ends(old(self).context(), then, else_, merge_block),
        ensures
            final(self).flow() == old(self).flow(),
            final(self).scope == old(self).scope,
            old(order)@.is_prefix_of(final(order)@),
            final(order)@.len() > old(order)@.len(),
            final(order)@[old(order)@.len() as int] matches StructuralInst::If { cond: c, .. }
                && c == cond,
            steps_of(final(order)@) == steps_of(old(order)@) + old(self).flow().if_steps(
                old(self).context(),
                cond,
                then,
                else_,
                merge_block,
            ),
        decreases old(self).flow().if_depth(old(self).context(), then, else_, merge_block), 2nat,
    {
        let ghost before = steps_of(order@);
        let mut then_body: Vec<StructuralInst> = Vec::new();
        let mut else_body: Vec<StructuralInst> = Vec::new();

        self.enter_if_scope(merge_block);
        self.serialize_dest(then, &mut then_body, merge_block);
        self.serialize_dest(else_, &mut else_body, merge_block);
        self.exit_scope();

        let inst = StructuralInst::If { cond, then: then_body, else_: else_body };
        proof {
            let inner = old(self).context().in_if(merge_block);
            assert(steps_of(then_body@) =~= old(self).flow().dest_steps(inner, then, merge_block));
            assert(steps_of(else_body@) =~= old(self).flow().dest_steps(
                inner,
                else_,
                merge_block,
            ));
            lemma_steps_push(order@, inst);
        }
        order.push(inst);
        if let Some(merge_block) = merge_block {
            self.serialize_block(merge_block, order);
        }
        assert(steps_of(order@) =~= before + old(self).flow().if_steps(
            old(self).context(),
            cond,
            then,
            else_,
            merge_block,
        ));
    }

    /// Appends what a branch of a conditional runs.
    fn serialize_dest(
        &mut self,
        dest_info: TerminatorInfo,
        body: &mut Vec<StructuralInst>,
        merge_block: Option<BasicBlockId>,
    )
        requires
            old(self).wf(),
            dest_info.is_dest(),
            old(self).flow().dest_ends(old(self).context(), dest_info, merge_block),
        ensures
            final(self).flow() == old(self).flow(),
            final(self).scope == old(self).scope,
            steps_of(final(body)@) == steps_of(old(body)@) + old(self).flow().dest_steps(
                old(self).context(),
                dest_info,
                merge_block,
            ),
        decreases old(self).flow().dest_depth(old(self).context(), dest_info, merge_block), 1nat,
    {
        let ghost before = steps_of(body@);
        match dest_info {
            TerminatorInfo::Break => {
                proof {
                    lemma_steps_push(body@, StructuralInst::Break);
                }
                body.push(StructuralInst::Break);
            },
            TerminatorInfo::Continue => {
                proof {
                    lemma_steps_push(body@, StructuralInst::Continue);
                }
                body.push(StructuralInst::Continue);
            },
            TerminatorInfo::ToMergeBlock => {},
            TerminatorInfo::FallThrough(dest) => {
                if Some(dest) != merge_block {
                    self.serialize_block(dest, body);
                }
            },
            _ => {
                assert(false);
            },
        }
        assert(steps_of(body@) =~= before + old(self).flow().dest_steps(
            old(self).context(),
            dest_info,
            merge_block,
        ));
    }

    /// Enters a loop.
    pub fn enter_loop_scope(
        &mut self,
        lp: LoopId,
        header: BasicBlockId,
        exit: Option<BasicBlockId>,
    )
        ensures
            final(self).flow() == old(self).flow(),
            final(self).scope == entered(old(self).scope, ScopeKind::Loop { lp, header, exit }),
            final(self).scope matches Some(inner) && inner.kind == (ScopeKind::Loop {
                lp,
                header,
                exit,
            }) && match inner.parent {
                Some(outer) => old(self).scope == Some(*outer),
                None => old(self).scope is None,
            },
    {
        let kind = ScopeKind::Loop { lp, header, exit };
        let parent = match self.scope.take() {
            Some(scope) => Some(Box::new(scope)),
            None => None,
        };
        self.scope = Some(Scope { kind, parent });
    }

    /// Enters a conditional.
    pub fn enter_if_scope(&mut self, merge_block: Option<BasicBlockId>)
        ensures
            final(self).flow() == old(self).flow(),
            final(self).scope == entered(old(self).scope, ScopeKind::If { merge_block }),
            final(self).scope matches Some(inner) && inner.kind == (ScopeKind::If { merge_block })
                && match inner.parent {
                Some(outer) => old(self).scope == Some(*outer),
                None => old(self).scope is None,
            },
    {
        let kind = ScopeKind::If { merge_block };
        let parent = match self.scope.take() {
            Some(scope) => Some(Box::new(scope)),
            None => None,
        };
        self.scope = Some(Scope { kind, parent });
    }

    /// Leaves the innermost construct.
    pub fn exit_scope(&mut self)
        requires
            old(self).scope is Some,
        ensures
            final(self).flow() == old(self).flow(),
            final(self).scope == left(old(self).scope->0),
            match old(self).scope->0.parent {
                Some(outer) => final(self).scope == Some(*outer),
                None => final(self).scope is None,
            },
    {
        if let Some(scope) = self.scope.take() {
            self.scope = match scope.parent {
                Some(parent) => Some(*parent),
                None => None,
            };
        }
    }

    /// Where control goes on after `lp`, if anywhere.
    // NOTE: We assume loop has at most one canonical loop exit.
    pub fn find_loop_exit(&self, lp: LoopId) -> (exit: Option<BasicBlockId>)
        requires
            self.flow().wf(),
            self.loop_tree.has_loop(lp),
            self.flow().exit_determined(lp),
        ensures
            exit == self.flow().loop_exit(lp),
    {
        let ghost flow = self.flow();
        let candidates: Vec<BasicBlockId> = self.exit_candidates(lp);
        if candidates.len() == 0 {
            return None;
        }
        if candidates.len() == 1 {
            let candidate: BasicBlockId = candidates[0];
            return match self.df.frontiers(candidate) {
                Some(list) => Some(list[0]),
                None => Some(candidate),
            };
        }

        // If a candidate is a dominance frontier of all other nodes, then the candidate
        // is a loop exit.
        if let Some(i) = self.find_joint(&candidates) {
            return Some(candidates[i]);
        }

        // If all candidates have the same dominance frontier, then the frontier block
        // is the canonicalized loop exit.
        let mut frontier: FxHashSet<usize> = FxHashSet::default();
        let last: BasicBlockId = candidates[candidates.len() - 1];
        if let Some(list) = self.df.frontiers(last) {
            let mut k: usize = 0;
            while k < list.len()
                invariant
                    k <= list@.len(),
                    forall|x: usize| #[trigger]
                        frontier@.contains(x) <==> exists|j: int|
                            0 <= j < k && #[trigger] list@[j] == BasicBlockId(x),
                decreases list@.len() - k,
            {
                fx::insert(&mut frontier, list[k].0);
                k += 1;
            }
        }
        proof {
            if let Some(list) = flow.df.frontiers_of(last) {
                if list.len() > 0 {
                    assert(frontier@.contains(list[0].0));
                }
            }
        }
        match fx::first(&frontier) {
            Some(block) => Some(BasicBlockId(block)),
            None => None,
        }
    }

    /// The index of the candidate at which all of `candidates` meet.
    pub(crate) fn find_joint(&self, candidates: &Vec<BasicBlockId>) -> (joint: Option<usize>)
        ensures
            match joint {
                Some(i) => self.flow().is_first_joint(candidates@, i as int)
                    && self.flow().is_joint(candidates@, i as int),
                None => forall|i: int| !#[trigger] self.flow().is_joint(candidates@, i),
            },
    {
        let mut k: usize = 0;
        while k < candidates.len()
            invariant
                k <= candidates@.len(),
                forall|j: int| 0 <= j < k ==> !#[trigger] self.flow().is_frontier(candidates@, j),
            decreases candidates@.len() - k,
        {
            if self.is_frontier_of_all(candidates, candidates[k]) {
                assert(self.flow().is_frontier(candidates@, k as int));
                assert(self.flow().is_joint(candidates@, k as int));
                return Some(k);
            }
            k += 1;
        }
        let mut i: usize = 0;
        while i < candidates.len()
            invariant
                i <= candidates@.len(),
                forall|j: int| !#[trigger] self.flow().is_frontier(candidates@, j),
                forall|j: int| 0 <= j < i ==> !#[trigger] self.flow().is_joint(candidates@, j),
            decreases candidates@.len() - i,
        {
            if self.all_meet_at(candidates, candidates[i]) {
                return Some(i);
            }
            i += 1;
        }
        None
    }

    /// The blocks outside `lp` to which control can go from `lp`.
    pub(crate) fn exit_candidates(&self, lp: LoopId) -> (candidates: Vec<BasicBlockId>)
        requires
            self.loop_tree.has_loop(lp),
            self.flow().in_graph(lp),
        ensures
            candidates@ == self.flow().exit_candidates(lp),
    {
        let ghost flow = self.flow();
        let blocks: &Vec<BasicBlockId> = self.loop_tree.blocks_post_order(lp);
        let mut candidates: Vec<BasicBlockId> = Vec::new();
        let mut k: usize = 0;
        while k < blocks.len()
            invariant
                k <= blocks@.len(),
                flow == self.flow(),
                self.loop_tree.has_loop(lp),
                flow.in_graph(lp),
                blocks@ == self.loop_tree.blocks_of(lp),
                candidates@ == flow.exits_from(lp, blocks@.take(k as int)),
            decreases blocks@.len() - k,
        {
            let ghost found = candidates@;
            let succs: &Vec<BasicBlockId> = self.cfg.succs(blocks[k]);
            let mut j: usize = 0;
            while j < succs.len()
                invariant
                    j <= succs@.len(),
                    flow == self.flow(),
                    self.loop_tree.has_loop(lp),
                    candidates@ == found + flow.outside(lp, succs@.take(j as int)),
                decreases succs@.len() - j,
            {
                assert(succs@.take(j + 1).drop_last() =~= succs@.take(j as int));
                reveal_with_fuel(Seq::filter, 2);
                if !self.loop_tree.is_block_in_loop(succs[j], lp) {
                    candidates.push(succs[j]);
                }
                j += 1;
            }
            assert(succs@.take(j as int) =~= succs@);
            assert(blocks@.take(k + 1).drop_last() =~= blocks@.take(k as int));
            k += 1;
        }
        assert(blocks@.take(k as int) =~= blocks@);
        candidates
    }

    /// All of `candidates` meet at `joint`.
    fn all_meet_at(&self, candidates: &Vec<BasicBlockId>, joint: BasicBlockId) -> (yes: bool)
        ensures
            yes == forall|j: int|
                0 <= j < candidates@.len() ==> self.flow().meets_at(
                    #[trigger] candidates@[j],
                    joint,
                ),
    {
        let mut j: usize = 0;
        while j < candidates.len()
            invariant
                j <= candidates@.len(),
                forall|i: int|
                    0 <= i < j ==> self.flow().meets_at(#[trigger] candidates@[i], joint),
            decreases candidates@.len() - j,
        {
            if !self.meets_at(candidates[j], joint) {
                return false;
            }
            j += 1;
        }
        true
    }

    /// `joint` is in the dominance frontier of all other `candidates`.
    fn is_frontier_of_all(
        &self,
        candidates: &Vec<BasicBlockId>,
        joint: BasicBlockId,
    ) -> (yes: bool)
        ensures
            yes == forall|j: int|
                0 <= j < candidates@.len() ==> (#[trigger] candidates@[j] == joint || (
                self.df.frontiers_of(candidates@[j]) matches Some(list) && list.contains(joint))),
    {
        let mut j: usize = 0;
        while j < candidates.len()
            invariant
                j <= candidates@.len(),
                forall|i: int|
                    0 <= i < j ==> (#[trigger] candidates@[i] == joint || (self.df.frontiers_of(
                        candidates@[i],
                    ) matches Some(list) && list.contains(joint))),
            decreases candidates@.len() - j,
        {
            let candidate: BasicBlockId = candidates[j];
            if candidate != joint && (self.df.frontiers(candidate).is_none() || !self.meets_at(
                candidate,
                joint,
            )) {
                assert(candidates@[j as int] == candidate);
                return false;
            }
            j += 1;
        }
        true
    }

    fn meets_at(&self, block: BasicBlockId, joint: BasicBlockId) -> (yes: bool)
        ensures
            yes == self.flow().meets_at(block, joint),
    {
        if block == joint {
            return true;
        }
        match self.df.frontiers(block) {
            Some(list) => {
                let mut k: usize = 0;
                while k < list.len()
                    invariant
                        k <= list@.len(),
                        self.df.frontiers_of(block) == Some(list@),
                        forall|j: int| 0 <= j < k ==> list@[j] != joint,
                    decreases list@.len() - k,
                {
                    if list[k] == joint {
                        assert(list@.contains(joint));
                        return true;
                    }
                    k += 1;
                }
                false
            },
            None => true,
        }
    }

    /// What becomes of the end of a block in the current place.
    pub fn analyze_terminator(&self, inst: InstId) -> (info: TerminatorInfo)
        requires
            self.wf(),
            self.body.store.has(inst),
            self.body.store.kind(inst).ends_block(),
            self.body.store.kind(inst) is Branch ==> (
            self.body.order.inst_blocks@[inst.0 as int] matches Some(block)
                && self.pd_tree.has_block(block)),
        ensures
            info == self.flow().end_info(
                self.context(),
                self.body.order.inst_blocks@[inst.0 as int]->0,
                inst,
            ),
    {
        match self.body.store.branch_info(inst) {
            BranchInfo::Jump(dest) => self.analyze_jump(dest),
            BranchInfo::Branch(cond, then, else_) => {
                self.analyze_branch(self.body.order.inst_block(inst), cond, then, else_)
            },
            BranchInfo::NotBranch => TerminatorInfo::NormalInst(inst),
        }
    }

    /// What a branch at the end of `block` becomes in the current place.
    pub fn analyze_branch(
        &self,
        block: BasicBlockId,
        cond: ValueId,
        then: BasicBlockId,
        else_: BasicBlockId,
    ) -> (info: TerminatorInfo)
        requires
            self.wf(),
            self.pd_tree.has_block(block),
        ensures
            info == (TerminatorInfo::If {
                cond,
                then: Box::new(dest_info(self.context(), then)),
                else_: Box::new(dest_info(self.context(), else_)),
                merge_block: self.flow().merge_of(self.context(), block),
            }),
    {
        let then = Box::new(self.analyze_dest(then));
        let else_ = Box::new(self.analyze_dest(else_));

        let merge_block: Option<BasicBlockId> = self.merge_block(block);

        TerminatorInfo::If { cond, then, else_, merge_block }
    }

    /// Where the branches from `block` meet in the current place.
    pub(crate) fn merge_block(&self, block: BasicBlockId) -> (merge: Option<BasicBlockId>)
        requires
            self.wf(),
            self.pd_tree.has_block(block),
        ensures
            merge == self.flow().merge_of(self.context(), block),
    {
        match self.pd_tree.post_idom(block) {
            PostIDom::Block(block) => {
                let lp: Option<LoopId> = match &self.scope {
                    Some(scope) => scope.loop_recursive(),
                    None => None,
                };
                match lp {
                    Some(lp) => if self.loop_tree.is_block_in_loop(block, lp) {
                        Some(block)
                    } else {
                        None
                    },
                    None => Some(block),
                }
            },
            _ => None,
        }
    }

    /// What an unconditional jump to `dest` becomes in the current place.
    pub fn analyze_jump(&self, dest: BasicBlockId) -> (info: TerminatorInfo)
        ensures
            info == dest_info(self.context(), dest),
    {
        self.analyze_dest(dest)
    }

    /// What a jump to `dest` amounts to in the current place.
    pub fn analyze_dest(&self, dest: BasicBlockId) -> (info: TerminatorInfo)
        ensures
            info == dest_info(self.context(), dest),
    {
        match &self.scope {
            Some(scope) => {
                if Some(dest) == scope.loop_header_recursive() {
                    TerminatorInfo::Continue
                } else if Some(dest) == scope.loop_exit_recursive() {
                    TerminatorInfo::Break
                } else if Some(dest) == scope.if_merge_block() {
                    TerminatorInfo::ToMergeBlock
                } else {
                    TerminatorInfo::FallThrough(dest)
                }
            },
            None => TerminatorInfo::FallThrough(dest),
        }
    }
}

} // verus!
