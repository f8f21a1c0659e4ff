//! The constructs that enclose the code being ordered.

use vstd::prelude::*;

use crate::analysis::LoopId;
use crate::ir::BasicBlockId;

verus! {

/// A chain of enclosing constructs, innermost first.
#[derive(Debug)]
pub struct Scope {
    pub kind: ScopeKind,
    pub parent: Option<Box<Scope>>,
}

/// One enclosing construct.
#[derive(Debug, Clone, Copy)]
pub enum ScopeKind {
    Loop { lp: LoopId, header: BasicBlockId, exit: Option<BasicBlockId> },
    If { merge_block: Option<BasicBlockId> },
}

/// A loop that encloses the code being ordered.
#[derive(Debug, Clone, Copy, PartialEq, Eq, Structural)]
pub struct EnclosingLoop {
    pub lp: LoopId,
    pub header: BasicBlockId,
    pub exit: Option<BasicBlockId>,
}

/// What the order of the code at some place depends on.
#[derive(Debug, Clone, Copy, PartialEq, Eq, Structural)]
pub struct Context {
    /// Where the innermost construct's branches meet, if it is a conditional.
    pub merge: Option<BasicBlockId>,
    /// The innermost construct's header, if it is a loop.
    pub header: Option<BasicBlockId>,
    /// The innermost loop.
    pub enclosing: Option<EnclosingLoop>,
}

impl Context {
    /// Outside of every construct.
    pub open spec fn outermost() -> Context {
        Context { merge: None, header: None, enclosing: None }
    }

    /// Inside a loop, whatever is around it.
    pub open spec fn in_loop(lp: EnclosingLoop) -> Context {
        Context { merge: None, header: Some(lp.header), enclosing: Some(lp) }
    }

    /// Inside a conditional whose branches meet at `merge`.
    pub open spec fn in_if(self, merge: Option<BasicBlockId>) -> Context {
        Context { merge, header: None, enclosing: self.enclosing }
    }
}

impl Scope {
    /// The innermost loop of the chain.
    pub open spec fn enclosing(self) -> Option<EnclosingLoop>
        decreases self,
    {
        match self.kind {
            ScopeKind::Loop { lp, header, exit } => Some(EnclosingLoop { lp, header, exit }),
            ScopeKind::If { .. } => match self.parent {
                Some(parent) => parent.enclosing(),
                None => None,
            },
        }
    }

    pub open spec fn context(self) -> Context {
        match self.kind {
            ScopeKind::Loop { lp, header, exit } => Context::in_loop(
                EnclosingLoop { lp, header, exit },
            ),
            ScopeKind::If { merge_block } => Context {
                merge: merge_block,
                header: None,
                enclosing: self.enclosing(),
            },
        }
    }

    /// The innermost loop of the chain, by its id.
    pub fn loop_recursive(&self) -> (lp: Option<LoopId>)
        ensures
            lp == (match self.enclosing() {
                Some(l) => Some(l.lp),
                None => None,
            }),
        decreases self,
    {
        match self.kind {
            ScopeKind::Loop { lp, .. } => Some(lp),
            _ => match &self.parent {
                Some(parent) => parent.loop_recursive(),
                None => None,
            },
        }
    }

    /// The header of the innermost construct, if that is a loop.
    pub fn loop_header(&self) -> (header: Option<BasicBlockId>)
        ensures
            header == self.context().header,
            header == (match self.kind {
                ScopeKind::Loop { header, .. } => Some(header),
                ScopeKind::If { .. } => None,
            }),
    {
        match self.kind {
            ScopeKind::Loop { header, .. } => Some(header),
            _ => None,
        }
    }

    /// The header of the innermost loop of the chain.
    pub fn loop_header_recursive(&self) -> (header: Option<BasicBlockId>)
        ensures
            header == (match self.enclosing() {
                Some(l) => Some(l.header),
                None => None,
            }),
        decreases self,
    {
        match self.kind {
            ScopeKind::Loop { header, .. } => Some(header),
            _ => match &self.parent {
                Some(parent) => parent.loop_header_recursive(),
                None => None,
            },
        }
    }

    /// The exit of the innermost loop of the chain, if that loop has one.
    pub fn loop_exit_recursive(&self) -> (exit: Option<BasicBlockId>)
        ensures
            exit == (match self.enclosing() {
                Some(l) => l.exit,
                None => None,
            }),
        decreases self,
    {
        match self.kind {
            ScopeKind::Loop { exit, .. } => exit,
            _ => match &self.parent {
                Some(parent) => parent.loop_exit_recursive(),
                None => None,
            },
        }
    }

    /// Where the branches of the innermost construct meet, if that is a conditional.
    pub fn if_merge_block(&self) -> (merge: Option<BasicBlockId>)
        ensures
            merge == self.context().merge,
            merge == (match self.kind {
                ScopeKind::Loop { .. } => None,
                ScopeKind::If { merge_block } => merge_block,
            }),
    {
        match self.kind {
            ScopeKind::If { merge_block } => merge_block,
            _ => None,
        }
    }
}

/// The context that an optional chain stands for.
pub open spec fn context_of(scope: Option<Scope>) -> Context {
    match scope {
        Some(s) => s.context(),
        None => Context::outermost(),
    }
}

/// The chain with one more construct inside.
pub open spec fn entered(scope: Option<Scope>, kind: ScopeKind) -> Option<Scope> {
    Some(
        Scope {
            kind,
            parent: match scope {
                Some(s) => Some(Box::new(s)),
                None => None,
            },
        },
    )
}

/// The chain without its innermost construct.
pub open spec fn left(scope: Scope) -> Option<Scope> {
    match scope.parent {
        Some(parent) => Some(*parent),
        None => None,
    }
}

/// Leaving a construct undoes entering it.
pub proof fn law_leave_undoes_enter(scope: Option<Scope>, kind: ScopeKind)
    ensures
        entered(scope, kind) matches Some(inner) && left(inner) == scope,
{
}

/// What the order depends on inside a construct follows from what it depends on outside.
pub proof fn law_context_entered(scope: Option<Scope>, kind: ScopeKind)
    ensures
        context_of(entered(scope, kind)) == (match kind {
            ScopeKind::Loop { lp, header, exit } => Context::in_loop(
                EnclosingLoop { lp, header, exit },
            ),
            ScopeKind::If { merge_block } => context_of(scope).in_if(merge_block),
        }),
{
}

} // verus!
