//! Structured code.

use vstd::prelude::*;

use crate::ir::{InstId, ValueId};

verus! {

/// A piece of structured code.
#[derive(Debug, PartialEq, Eq)]
pub enum StructuralInst {
    Inst(InstId),
    If { cond: ValueId, then: Vec<StructuralInst>, else_: Vec<StructuralInst> },
    For { body: Vec<StructuralInst> },
    Break,
    Continue,
}

/// What a [`StructuralInst`] stands for.
pub enum Step {
    /// Runs one instruction.
    Inst(InstId),
    /// Runs `then` if `cond` holds, else `else_`.
    If { cond: ValueId, then: Seq<Step>, else_: Seq<Step> },
    /// Runs `body` over and over, until a `Break` in it.
    For { body: Seq<Step> },
    /// Leaves the innermost loop.
    Break,
    /// Starts the innermost loop's body anew.
    Continue,
}

impl StructuralInst {
    pub open spec fn view(self) -> Step
        decreases self,
    {
        match self {
            StructuralInst::Inst(inst) => Step::Inst(inst),
            StructuralInst::If { cond, then, else_ } => Step::If {
                cond,
                then: steps_of(then@),
                else_: steps_of(else_@),
            },
            StructuralInst::For { body } => Step::For { body: steps_of(body@) },
            StructuralInst::Break => Step::Break,
            StructuralInst::Continue => Step::Continue,
        }
    }
}

/// What a list of [`StructuralInst`]s stands for, one by one.
pub open spec fn steps_of(list: Seq<StructuralInst>) -> Seq<Step>
    decreases list,
{
    if list.len() == 0 {
        Seq::empty()
    } else {
        steps_of(list.drop_last()).push(list.last().view())
    }
}

/// A list with one more item stands for one more step.
pub proof fn lemma_steps_push(list: Seq<StructuralInst>, inst: StructuralInst)
    ensures
        steps_of(list.push(inst)) == steps_of(list).push(inst.view()),
{
    assert(list.push(inst).drop_last() =~= list);
}

} // verus!
