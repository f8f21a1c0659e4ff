//! What is known of a body's control flow.

use vstd::prelude::*;

use crate::ir::BasicBlockId;

verus! {

/// Names a loop by its index in the loop tree.
#[derive(Debug, Clone, Copy, PartialEq, Eq, Structural)]
pub struct LoopId(pub usize);

/// The blocks of a body with the edges between them.
#[derive(Debug)]
pub struct ControlFlowGraph {
    pub entry: BasicBlockId,
    pub succs: Vec<Vec<BasicBlockId>>,
}

impl ControlFlowGraph {
    pub open spec fn has_block(&self, block: BasicBlockId) -> bool {
        block.0 < self.succs@.len()
    }

    pub open spec fn succs_of(&self, block: BasicBlockId) -> Seq<BasicBlockId> {
        self.succs@[block.0 as int]@
    }

    /// The block at which the function starts.
    pub fn entry(&self) -> (entry: BasicBlockId)
        ensures
            entry == self.entry,
    {
        self.entry
    }

    /// The blocks to which control can go from `block`.
    pub fn succs(&self, block: BasicBlockId) -> (succs: &Vec<BasicBlockId>)
        requires
            self.has_block(block),
        ensures
            succs@ == self.succs_of(block),
            *succs == self.succs@[block.0 as int],
    {
        &self.succs[block.0]
    }
}

/// A natural loop: its header, and all of its blocks in post order.
#[derive(Debug)]
pub struct Loop {
    pub header: BasicBlockId,
    pub blocks: Vec<BasicBlockId>,
}

/// The loops of a body, and the innermost one around each block.
#[derive(Debug)]
pub struct LoopTree {
    pub loops: Vec<Loop>,
    pub block_to_loop: Vec<Option<LoopId>>,
}

impl LoopTree {
    pub open spec fn has_loop(&self, lp: LoopId) -> bool {
        lp.0 < self.loops@.len()
    }

    /// Every block is mapped to a loop of the tree, if to any.
    pub open spec fn wf(&self) -> bool {
        forall|b: int|
            0 <= b < self.block_to_loop@.len() ==> (#[trigger] self.block_to_loop@[b] matches Some(
                lp,
            ) ==> self.has_loop(lp))
    }

    pub open spec fn innermost(&self, block: BasicBlockId) -> Option<LoopId> {
        if block.0 < self.block_to_loop@.len() {
            self.block_to_loop@[block.0 as int]
        } else {
            None
        }
    }

    pub open spec fn header_of(&self, lp: LoopId) -> BasicBlockId {
        self.loops@[lp.0 as int].header
    }

    pub open spec fn blocks_of(&self, lp: LoopId) -> Seq<BasicBlockId> {
        self.loops@[lp.0 as int].blocks@
    }

    /// Makes a loop tree, unless a block is mapped to a loop that is not there.
    pub fn new(loops: Vec<Loop>, block_to_loop: Vec<Option<LoopId>>) -> (tree: Option<LoopTree>)
        ensures
            tree is Some <==> (LoopTree { loops, block_to_loop }).wf(),
            tree is Some <==> forall|b: int|
                0 <= b < block_to_loop@.len() ==> match #[trigger] block_to_loop@[b] {
                    Some(lp) => lp.0 < loops@.len(),
                    None => true,
                },
            tree matches Some(t) ==> t == (LoopTree { loops, block_to_loop }),
    {
        let tree = LoopTree { loops, block_to_loop };
        let mut b: usize = 0;
        while b < tree.block_to_loop.len()
            invariant
                b <= tree.block_to_loop@.len(),
                tree == (LoopTree { loops, block_to_loop }),
                forall|c: int|
                    0 <= c < b ==> (#[trigger] tree.block_to_loop@[c] matches Some(lp)
                        ==> tree.has_loop(lp)),
            decreases tree.block_to_loop@.len() - b,
        {
            if let Some(lp) = tree.block_to_loop[b] {
                if lp.0 >= tree.loops.len() {
                    assert(tree.block_to_loop@[b as int] is Some);
                    return None;
                }
            }
            b += 1;
        }
        Some(tree)
    }

    /// The innermost loop around `block`.
    pub fn loop_of_block(&self, block: BasicBlockId) -> (lp: Option<LoopId>)
        requires
            self.wf(),
        ensures
            lp == self.innermost(block),
            lp == (if block.0 < self.block_to_loop@.len() {
                self.block_to_loop@[block.0 as int]
            } else {
                None
            }),
            lp matches Some(l) ==> self.has_loop(l),
    {
        if block.0 < self.block_to_loop.len() {
            self.block_to_loop[block.0]
        } else {
            None
        }
    }

    pub fn loop_header(&self, lp: LoopId) -> (header: BasicBlockId)
        requires
            self.has_loop(lp),
        ensures
            header == self.header_of(lp),
            header == self.loops@[lp.0 as int].header,
    {
        self.loops[lp.0].header
    }

    /// The blocks of `lp`, those of the loops inside it among them, in post order.
    pub fn blocks_post_order(&self, lp: LoopId) -> (blocks: &Vec<BasicBlockId>)
        requires
            self.has_loop(lp),
        ensures
            blocks@ == self.blocks_of(lp),
            *blocks == self.loops@[lp.0 as int].blocks,
    {
        &self.loops[lp.0].blocks
    }

    pub fn is_block_in_loop(&self, block: BasicBlockId, lp: LoopId) -> (yes: bool)
        requires
            self.has_loop(lp),
        ensures
            yes == self.blocks_of(lp).contains(block),
            yes == self.loops@[lp.0 as int].blocks@.contains(block),
    {
        let blocks = self.blocks_post_order(lp);
        let mut k: usize = 0;
        while k < blocks.len()
            invariant
                k <= blocks@.len(),
                blocks@ == self.blocks_of(lp),
                forall|j: int| 0 <= j < k ==> blocks@[j] != block,
            decreases blocks@.len() - k,
        {
            if blocks[k] == block {
                return true;
            }
            k += 1;
        }
        false
    }
}

/// The dominance frontiers of the blocks.
#[derive(Debug)]
pub struct DFSet {
    pub frontiers: Vec<Option<Vec<BasicBlockId>>>,
}

impl DFSet {
    pub open spec fn frontiers_of(&self, block: BasicBlockId) -> Option<Seq<BasicBlockId>> {
        if block.0 < self.frontiers@.len() {
            match self.frontiers@[block.0 as int] {
                Some(list) => Some(list@),
                None => None,
            }
        } else {
            None
        }
    }

    /// The dominance frontier of `block`, if it has one.
    pub fn frontiers(&self, block: BasicBlockId) -> (list: Option<&Vec<BasicBlockId>>)
        ensures
            match list {
                Some(l) => self.frontiers_of(block) == Some(l@),
                None => self.frontiers_of(block) is None,
            },
            match list {
                Some(l) => block.0 < self.frontiers@.len() && self.frontiers@[block.0 as int]
                    == Some(*l),
                None => block.0 < self.frontiers@.len() ==> self.frontiers@[block.0 as int] is None,
            },
    {
        if block.0 < self.frontiers.len() {
            self.frontiers[block.0].as_ref()
        } else {
            None
        }
    }
}

/// The immediate post dominator of a block.
#[derive(Debug, Clone, Copy)]
pub enum PostIDom {
    /// None of the body's blocks.
    Dummy,
    Block(BasicBlockId),
}

/// The immediate post dominators of the blocks.
#[derive(Debug)]
pub struct PostDomTree {
    pub post_idoms: Vec<PostIDom>,
}

impl PostDomTree {
    pub open spec fn has_block(&self, block: BasicBlockId) -> bool {
        block.0 < self.post_idoms@.len()
    }

    pub fn post_idom(&self, block: BasicBlockId) -> (idom: PostIDom)
        requires
            self.has_block(block),
        ensures
            idom == self.post_idoms@[block.0 as int],
    {
        self.post_idoms[block.0]
    }
}

} // verus!
