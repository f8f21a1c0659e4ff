//! What the tables of a function say, entry by entry.

use vstd::prelude::*;

use crate::analysis::{ControlFlowGraph, DFSet, LoopId, LoopTree, PostDomTree};
use crate::flow::{FunctionFlow, TerminatorInfo};
use crate::ir::{
    is_place, BasicBlockId, BodyDataStore, BodyOrder, BranchInfo, FunctionBody, InstId, InstKind,
};
use crate::scope::{context_of, entered, left, Context, EnclosingLoop, Scope, ScopeKind};
use crate::serializer::InstSerializer;
use crate::steps::{steps_of, Step, StructuralInst};
use crate::walk::Place;

verus! {

/// What an instruction does is what is stored for it.
pub proof fn law_instruction_is_stored(store: BodyDataStore, inst: InstId)
    ensures
        store.kind(inst) == store.insts@[inst.0 as int],
        store.has(inst) <==> inst.0 < store.insts@.len(),
{
}

/// A block is ended by the instructions that say where control goes, and those
/// say so themselves: a branch goes to its own `then` and its own `else_`.
pub proof fn law_instruction_says_where(kind: InstKind)
    ensures
        match kind {
            InstKind::Nop => !kind.ends_block() && kind.targets() == BranchInfo::NotBranch,
            InstKind::Plain => !kind.ends_block() && kind.targets() == BranchInfo::NotBranch,
            InstKind::Jump { dest } => kind.ends_block() && kind.targets() == BranchInfo::Jump(
                dest,
            ),
            InstKind::Branch { cond, then, else_ } => kind.ends_block() && kind.targets()
                == BranchInfo::Branch(cond, then, else_),
            InstKind::Return => kind.ends_block() && kind.targets() == BranchInfo::NotBranch,
        },
{
}

/// The instructions of a block are those that stand in it, in that order.
pub proof fn law_block_is_stored(order: BodyOrder, block: BasicBlockId)
    ensures
        order.has_block(block) <==> block.0 < order.blocks@.len(),
        order.insts_of(block) == order.blocks@[block.0 as int]@,
{
}

/// A block is ended by its last instruction, if that says where control goes.
pub proof fn law_last_instruction_ends(body: FunctionBody, block: BasicBlockId)
    ensures
        match body.terminator_of(block) {
            Some(end) => {
                &&& block.0 < body.order.blocks@.len()
                &&& body.order.blocks@[block.0 as int]@.len() > 0
                &&& end == body.order.blocks@[block.0 as int]@.last()
                &&& !(body.store.insts@[end.0 as int] is Nop)
                &&& !(body.store.insts@[end.0 as int] is Plain)
            },
            None => {
                ||| block.0 >= body.order.blocks@.len()
                ||| body.order.blocks@[block.0 as int]@.len() == 0
                ||| body.store.insts@[body.order.blocks@[block.0 as int]@.last().0 as int] is Nop
                ||| body.store.insts@[body.order.blocks@[block.0 as int]@.last().0 as int] is Plain
            },
        },
{
}

/// A body is well formed just if every instruction that stands in a block is
/// stored, and its block is noted.
pub proof fn law_well_formed_body(body: FunctionBody)
    ensures
        body.wf() <==> {
            &&& body.order.inst_blocks@.len() == body.store.insts@.len()
            &&& forall|b: int, k: int|
                0 <= b < body.order.blocks@.len() && 0 <= k < body.order.blocks@[b]@.len() ==> {
                    let inst = #[trigger] body.order.blocks@[b]@[k];
                    &&& inst.0 < body.store.insts@.len()
                    &&& body.order.inst_blocks@[inst.0 as int] == Some(BasicBlockId(b as usize))
                }
        },
{
    if body.wf() {
        assert forall|b: int, k: int|
            0 <= b < body.order.blocks@.len() && 0 <= k < body.order.blocks@[b]@.len() implies {
            let inst = #[trigger] body.order.blocks@[b]@[k];
            &&& inst.0 < body.store.insts@.len()
            &&& body.order.inst_blocks@[inst.0 as int] == Some(BasicBlockId(b as usize))
        } by {
            assert(is_place(body.order.blocks@, b, k));
        }
    }
}

/// The successors of a block are its edges in the graph.
pub proof fn law_graph_is_stored(cfg: ControlFlowGraph, block: BasicBlockId)
    ensures
        cfg.has_block(block) <==> block.0 < cfg.succs@.len(),
        cfg.succs_of(block) == cfg.succs@[block.0 as int]@,
{
}

/// The loops are those of the tree, each with its own header and blocks.
pub proof fn law_loops_are_stored(tree: LoopTree, lp: LoopId, block: BasicBlockId)
    ensures
        tree.has_loop(lp) <==> lp.0 < tree.loops@.len(),
        tree.header_of(lp) == tree.loops@[lp.0 as int].header,
        tree.blocks_of(lp) == tree.loops@[lp.0 as int].blocks@,
        tree.innermost(block) == (if block.0 < tree.block_to_loop@.len() {
            tree.block_to_loop@[block.0 as int]
        } else {
            None
        }),
        tree.wf() <==> forall|b: int|
            0 <= b < tree.block_to_loop@.len() ==> match #[trigger] tree.block_to_loop@[b] {
                Some(l) => l.0 < tree.loops@.len(),
                None => true,
            },
{
    if tree.wf() {
        assert forall|b: int| 0 <= b < tree.block_to_loop@.len() implies match (
        #[trigger] tree.block_to_loop@[b]) {
            Some(l) => l.0 < tree.loops@.len(),
            None => true,
        } by {
            if let Some(l) = tree.block_to_loop@[b] {
                assert(tree.has_loop(l));
            }
        }
    }
}

/// The dominance frontier of a block is the one in the table, if there is one.
pub proof fn law_frontiers_are_stored(df: DFSet, block: BasicBlockId)
    ensures
        match df.frontiers_of(block) {
            Some(list) => block.0 < df.frontiers@.len() && (
            df.frontiers@[block.0 as int] matches Some(stored) && stored@ == list),
            None => block.0 < df.frontiers@.len() ==> df.frontiers@[block.0 as int] is None,
        },
{
}

/// A post dominator is known of just the blocks in the table.
pub proof fn law_post_idoms_are_stored(pd_tree: PostDomTree, block: BasicBlockId)
    ensures
        pd_tree.has_block(block) <==> block.0 < pd_tree.post_idoms@.len(),
{
}

/// A serializer lists the function that it holds, from where that starts and
/// outside of every construct.
pub proof fn law_serializer_holds(serializer: InstSerializer)
    ensures
        serializer.flow().body == *serializer.body,
        serializer.flow().cfg == serializer.cfg,
        serializer.flow().loop_tree == serializer.loop_tree,
        serializer.flow().df == serializer.df,
        serializer.flow().pd_tree == serializer.pd_tree,
        serializer.context() == context_of(serializer.scope),
        serializer.wf() <==> {
            &&& serializer.body.wf()
            &&& serializer.loop_tree.wf()
            &&& serializer.context().enclosing matches Some(l) ==> l.lp.0
                < serializer.loop_tree.loops@.len()
        },
{
}

/// Listing a function is listing the block where it starts, outside of every construct.
pub proof fn law_starts_at_entry(flow: FunctionFlow)
    ensures
        flow.wf() <==> flow.body.wf() && flow.loop_tree.wf(),
        flow.serializable() <==> flow.ends(
            Place {
                context: Context { merge: None, header: None, enclosing: None },
                block: flow.cfg.entry,
            },
        ),
        flow.serialized() == flow.steps_at(
            Place {
                context: Context { merge: None, header: None, enclosing: None },
                block: flow.cfg.entry,
            },
        ),
{
}

/// What counts of the constructs around a place: where the branches of the
/// innermost one meet or at what header it starts, and the innermost loop, which
/// is looked for through the conditionals around.
pub proof fn law_innermost_counts(scope: Scope)
    ensures
        context_of(None) == (Context { merge: None, header: None, enclosing: None }),
        match scope.kind {
            ScopeKind::Loop { lp, header, exit } => {
                &&& scope.enclosing() == Some(EnclosingLoop { lp, header, exit })
                &&& context_of(Some(scope)) == (Context {
                    merge: None,
                    header: Some(header),
                    enclosing: Some(EnclosingLoop { lp, header, exit }),
                })
            },
            ScopeKind::If { merge_block } => {
                &&& scope.enclosing() == (match scope.parent {
                    Some(outer) => outer.enclosing(),
                    None => None,
                })
                &&& context_of(Some(scope)) == (Context {
                    merge: merge_block,
                    header: None,
                    enclosing: scope.enclosing(),
                })
            },
        },
        scope.context() == context_of(Some(scope)),
{
}

/// The constructs around a place that is inside of one more.
pub proof fn law_one_more_construct(scope: Option<Scope>, kind: ScopeKind)
    ensures
        entered(scope, kind) matches Some(inner) && inner.kind == kind && (match inner.parent {
            Some(outer) => scope == Some(*outer),
            None => scope is None,
        }) && left(inner) == scope,
{
}

/// A list of structured code stands for one step for each of its items, in order,
/// and an item for the step of its own name, with its own instruction, condition
/// and lists.
pub proof fn law_code_stands_for_steps(code: Seq<StructuralInst>, i: int)
    ensures
        steps_of(code).len() == code.len(),
        0 <= i < code.len() ==> steps_of(code)[i] == code[i]@ && match code[i] {
            StructuralInst::Inst(inst) => code[i]@ == Step::Inst(inst),
            StructuralInst::If { cond, then, else_ } => code[i]@ == (Step::If {
                cond,
                then: steps_of(then@),
                else_: steps_of(else_@),
            }),
            StructuralInst::For { body } => code[i]@ == (Step::For { body: steps_of(body@) }),
            StructuralInst::Break => code[i]@ == Step::Break,
            StructuralInst::Continue => code[i]@ == Step::Continue,
        },
    decreases code.len(),
{
    if code.len() > 0 {
        law_code_stands_for_steps(code.drop_last(), i);
        if 0 <= i < code.len() - 1 {
            assert(code.drop_last()[i] == code[i]);
        }
    }
}

/// What a jump can amount to is not a conditional, nor an instruction.
pub proof fn law_kinds_of_jump(info: TerminatorInfo)
    ensures
        info.is_dest() <==> match info {
            TerminatorInfo::If { .. } | TerminatorInfo::NormalInst(_) => false,
            _ => true,
        },
{
}

} // verus!
