//! The part of a function body that ordering its instructions needs.

use vstd::prelude::*;

verus! {

/// Names a basic block by its index in the body.
#[derive(Debug, Clone, Copy, PartialEq, Eq, Structural)]
pub struct BasicBlockId(pub usize);

/// Names an instruction by its index in the body's store.
#[derive(Debug, Clone, Copy, PartialEq, Eq, Structural)]
pub struct InstId(pub usize);

/// Names a value, such as the condition of a branch.
#[derive(Debug, Clone, Copy, PartialEq, Eq, Structural)]
pub struct ValueId(pub usize);

/// What an instruction does to the flow of control.
#[derive(Debug, Clone, Copy)]
pub enum InstKind {
    /// Does nothing at all.
    Nop,
    /// Computes something; control goes on to the next instruction.
    Plain,
    /// Ends its block; control goes on at `dest`.
    Jump { dest: BasicBlockId },
    /// Ends its block; control goes on at `then` if `cond` holds, else at `else_`.
    Branch { cond: ValueId, then: BasicBlockId, else_: BasicBlockId },
    /// Ends its block; control leaves the function.
    Return,
}

/// Where control goes after an instruction that ends a block.
#[derive(Debug, Clone, Copy)]
pub enum BranchInfo {
    NotBranch,
    Jump(BasicBlockId),
    Branch(ValueId, BasicBlockId, BasicBlockId),
}

impl InstKind {
    /// The instruction ends its block.
    pub open spec fn ends_block(self) -> bool {
        self is Jump || self is Branch || self is Return
    }

    /// Where control goes after the instruction.
    pub open spec fn targets(self) -> BranchInfo {
        match self {
            InstKind::Jump { dest } => BranchInfo::Jump(dest),
            InstKind::Branch { cond, then, else_ } => BranchInfo::Branch(cond, then, else_),
            _ => BranchInfo::NotBranch,
        }
    }
}

/// The instructions of a body, by id.
#[derive(Debug)]
pub struct BodyDataStore {
    pub insts: Vec<InstKind>,
}

impl BodyDataStore {
    pub open spec fn kind(&self, inst: InstId) -> InstKind {
        self.insts@[inst.0 as int]
    }

    pub open spec fn has(&self, inst: InstId) -> bool {
        inst.0 < self.insts@.len()
    }

    pub fn inst_data(&self, inst: InstId) -> (kind: InstKind)
        requires
            self.has(inst),
        ensures
            kind == self.kind(inst),
            kind == self.insts@[inst.0 as int],
    {
        self.insts[inst.0]
    }

    pub fn is_terminator(&self, inst: InstId) -> (yes: bool)
        requires
            self.has(inst),
        ensures
            yes == self.kind(inst).ends_block(),
            yes == match self.insts@[inst.0 as int] {
                InstKind::Nop | InstKind::Plain => false,
                InstKind::Jump { .. } | InstKind::Branch { .. } | InstKind::Return => true,
            },
    {
        match self.insts[inst.0] {
            InstKind::Jump { .. } | InstKind::Branch { .. } | InstKind::Return => true,
            _ => false,
        }
    }

    pub fn is_nop(&self, inst: InstId) -> (yes: bool)
        requires
            self.has(inst),
        ensures
            yes == (self.kind(inst) is Nop),
            yes == (self.insts@[inst.0 as int] is Nop),
    {
        match self.insts[inst.0] {
            InstKind::Nop => true,
            _ => false,
        }
    }

    pub fn branch_info(&self, inst: InstId) -> (info: BranchInfo)
        requires
            self.has(inst),
        ensures
            info == self.kind(inst).targets(),
            info == (match self.insts@[inst.0 as int] {
                InstKind::Jump { dest } => BranchInfo::Jump(dest),
                InstKind::Branch { cond, then, else_ } => BranchInfo::Branch(cond, then, else_),
                _ => BranchInfo::NotBranch,
            }),
    {
        match self.insts[inst.0] {
            InstKind::Jump { dest } => BranchInfo::Jump(dest),
            InstKind::Branch { cond, then, else_ } => BranchInfo::Branch(cond, then, else_),
            _ => BranchInfo::NotBranch,
        }
    }
}

/// Which instructions stand in which block, and in what order.
#[derive(Debug)]
pub struct BodyOrder {
    pub blocks: Vec<Vec<InstId>>,
    pub inst_blocks: Vec<Option<BasicBlockId>>,
}

impl BodyOrder {
    pub open spec fn has_block(&self, block: BasicBlockId) -> bool {
        block.0 < self.blocks@.len()
    }

    /// The instructions of `block`, first to last.
    pub open spec fn insts_of(&self, block: BasicBlockId) -> Seq<InstId> {
        self.blocks@[block.0 as int]@
    }

    pub fn insts(&self, block: BasicBlockId) -> (insts: &Vec<InstId>)
        requires
            self.has_block(block),
        ensures
            insts@ == self.insts_of(block),
            *insts == self.blocks@[block.0 as int],
    {
        &self.blocks[block.0]
    }

    /// The block in which `inst` stands.
    pub fn inst_block(&self, inst: InstId) -> (block: BasicBlockId)
        requires
            inst.0 < self.inst_blocks@.len(),
            self.inst_blocks@[inst.0 as int] is Some,
        ensures
            self.inst_blocks@[inst.0 as int] == Some(block),
    {
        self.inst_blocks[inst.0].unwrap()
    }
}

/// A function body.
#[derive(Debug)]
pub struct FunctionBody {
    pub store: BodyDataStore,
    pub order: BodyOrder,
}

/// Position `k` of block `b` is a position of `blocks`.
pub open spec fn is_place(blocks: Seq<Vec<InstId>>, b: int, k: int) -> bool {
    0 <= b < blocks.len() && 0 <= k < blocks[b]@.len()
}

/// Every position holds one of the first `count` instructions, and no two hold the same one.
pub open spec fn places_valid(count: nat, blocks: Seq<Vec<InstId>>) -> bool {
    &&& forall|b: int, k: int| #[trigger]
        is_place(blocks, b, k) ==> blocks[b]@[k].0 < count
    &&& forall|b: int, k: int, c: int, l: int|
        #![trigger is_place(blocks, b, k), is_place(blocks, c, l)]
        is_place(blocks, b, k) && is_place(blocks, c, l) && blocks[b]@[k] == blocks[c]@[l] ==> b
            == c && k == l
}

/// The positions are valid just if each holds a stored instruction, and no two the same one.
pub proof fn lemma_places_valid(count: nat, blocks: Seq<Vec<InstId>>)
    ensures
        places_valid(count, blocks) <==> {
            &&& forall|b: int, k: int|
                0 <= b < blocks.len() && 0 <= k < blocks[b]@.len() ==> (
                #[trigger] blocks[b]@[k]).0 < count
            &&& forall|b: int, k: int, c: int, l: int|
                0 <= b < blocks.len() && 0 <= k < blocks[b]@.len() && 0 <= c < blocks.len()
                    && 0 <= l < blocks[c]@.len() && (b != c || k != l)
                    ==> #[trigger] blocks[b]@[k] != #[trigger] blocks[c]@[l]
        },
{
    assert forall|b: int, k: int|
        0 <= b < blocks.len() && 0 <= k < blocks[b]@.len() implies #[trigger] is_place(
        blocks,
        b,
        k,
    ) by {}
    if places_valid(count, blocks) {
        assert forall|b: int, k: int|
            0 <= b < blocks.len() && 0 <= k < blocks[b]@.len() implies (
        #[trigger] blocks[b]@[k]).0 < count by {
            assert(is_place(blocks, b, k));
        }
        assert forall|b: int, k: int, c: int, l: int|
            0 <= b < blocks.len() && 0 <= k < blocks[b]@.len() && 0 <= c < blocks.len() && 0 <= l
                < blocks[c]@.len() && (b != c || k != l) implies #[trigger] blocks[b]@[k]
            != #[trigger] blocks[c]@[l] by {
            assert(is_place(blocks, b, k));
            assert(is_place(blocks, c, l));
        }
    }
}

/// Position `k` of block `b` comes before position `l` of block `c`.
spec fn earlier(b: int, k: int, c: int, l: int) -> bool {
    b < c || (b == c && k < l)
}

/// `inst_blocks` tells the block of just those instructions that stand before
/// position `l` of block `c`, and no two of those places hold the same one.
spec fn placed(
    inst_blocks: Seq<Option<BasicBlockId>>,
    blocks: Seq<Vec<InstId>>,
    c: int,
    l: int,
) -> bool {
    &&& forall|b: int, k: int| #[trigger]
        is_place(blocks, b, k) && earlier(b, k, c, l) ==> {
            &&& blocks[b]@[k].0 < inst_blocks.len()
            &&& inst_blocks[blocks[b]@[k].0 as int] == Some(BasicBlockId(b as usize))
        }
    &&& forall|i: int|
        0 <= i < inst_blocks.len() && #[trigger] inst_blocks[i] is Some ==> exists|b: int, k: int|
            #[trigger]
            is_place(blocks, b, k) && earlier(b, k, c, l) && blocks[b]@[k].0 == i
    &&& forall|b: int, k: int, d: int, m: int|
        #![trigger is_place(blocks, b, k), is_place(blocks, d, m)]
        is_place(blocks, b, k) && earlier(b, k, c, l) && is_place(blocks, d, m) && earlier(
            d,
            m,
            c,
            l,
        ) && blocks[b]@[k] == blocks[d]@[m] ==> b == d && k == m
}

impl FunctionBody {
    /// Every instruction that stands in a block is in the store and knows its block.
    pub open spec fn wf(&self) -> bool {
        &&& self.order.inst_blocks@.len() == self.store.insts@.len()
        &&& forall|b: int, k: int| #[trigger]
            is_place(self.order.blocks@, b, k) ==> {
                let inst = self.order.blocks@[b]@[k];
                &&& self.store.has(inst)
                &&& self.order.inst_blocks@[inst.0 as int] == Some(BasicBlockId(b as usize))
            }
    }

    /// Makes a body out of its instructions and the places where they stand, unless
    /// a place holds an instruction that is not there, or two hold the same one.
    pub fn new(insts: Vec<InstKind>, blocks: Vec<Vec<InstId>>) -> (body: Option<FunctionBody>)
        ensures
            body is Some <==> places_valid(insts@.len(), blocks@),
            body is Some <==> {
                &&& forall|b: int, k: int|
                    0 <= b < blocks@.len() && 0 <= k < blocks@[b]@.len() ==> (
                    #[trigger] blocks@[b]@[k]).0 < insts@.len()
                &&& forall|b: int, k: int, c: int, l: int|
                    0 <= b < blocks@.len() && 0 <= k < blocks@[b]@.len() && 0 <= c < blocks@.len()
                        && 0 <= l < blocks@[c]@.len() && (b != c || k != l)
                        ==> #[trigger] blocks@[b]@[k] != #[trigger] blocks@[c]@[l]
            },
            body matches Some(b) ==> {
                &&& b.wf()
                &&& b.store.insts == insts
                &&& b.order.blocks == blocks
                &&& b.order.inst_blocks@.len() == insts@.len()
                &&& forall|c: int, k: int|
                    0 <= c < blocks@.len() && 0 <= k < blocks@[c]@.len()
                        ==> b.order.inst_blocks@[(#[trigger] blocks@[c]@[k]).0 as int] == Some(
                        BasicBlockId(c as usize),
                    )
                &&& forall|i: int|
                    0 <= i < insts@.len() ==> (#[trigger] b.order.inst_blocks@[i] is Some
                        <==> exists|c: int, k: int| #[trigger]
                        is_place(blocks@, c, k) && blocks@[c]@[k].0 == i)
            },
    {
        proof {
            lemma_places_valid(insts@.len(), blocks@);
        }
        let mut inst_blocks: Vec<Option<BasicBlockId>> = Vec::new();
        let mut i: usize = 0;
        while i < insts.len()
            invariant
                i <= insts@.len(),
                inst_blocks@.len() == i,
                forall|j: int| 0 <= j < i ==> #[trigger] inst_blocks@[j] is None,
            decreases insts@.len() - i,
        {
            inst_blocks.push(None);
            i += 1;
        }
        let mut b: usize = 0;
        while b < blocks.len()
            invariant
                b <= blocks@.len(),
                inst_blocks@.len() == insts@.len(),
                placed(inst_blocks@, blocks@, b as int, 0),
            decreases blocks@.len() - b,
        {
            let mut k: usize = 0;
            while k < blocks[b].len()
                invariant
                    b < blocks@.len(),
                    k <= blocks@[b as int]@.len(),
                    inst_blocks@.len() == insts@.len(),
                    placed(inst_blocks@, blocks@, b as int, k as int),
                decreases blocks@[b as int]@.len() - k,
            {
                let inst: InstId = blocks[b][k];
                assert(is_place(blocks@, b as int, k as int));
                if inst.0 >= insts.len() {
                    return None;
                }
                if inst_blocks[inst.0].is_some() {
                    return None;
                }
                inst_blocks[inst.0] = Some(BasicBlockId(b));
                k += 1;
            }
            b += 1;
        }
        assert forall|c: int, k: int|
            0 <= c < blocks@.len() && 0 <= k < blocks@[c]@.len() implies inst_blocks@[(
        #[trigger] blocks@[c]@[k]).0 as int] == Some(BasicBlockId(c as usize)) by {
            assert(is_place(blocks@, c, k));
        }
        let store = BodyDataStore { insts };
        let order = BodyOrder { blocks, inst_blocks };
        Some(FunctionBody { store, order })
    }

    /// The instruction that ends `block`: its last one, if that ends a block.
    pub open spec fn terminator_of(&self, block: BasicBlockId) -> Option<InstId> {
        if self.order.has_block(block) && self.order.insts_of(block).len() > 0
            && self.store.kind(self.order.insts_of(block).last()).ends_block() {
            Some(self.order.insts_of(block).last())
        } else {
            None
        }
    }

    pub fn terminator(&self, block: BasicBlockId) -> (inst: Option<InstId>)
        requires
            self.wf(),
        ensures
            inst == self.terminator_of(block),
            inst is Some <==> {
                &&& block.0 < self.order.blocks@.len()
                &&& self.order.blocks@[block.0 as int]@.len() > 0
                &&& match self.store.insts@[self.order.blocks@[block.0 as int]@.last().0 as int] {
                    InstKind::Nop | InstKind::Plain => false,
                    InstKind::Jump { .. } | InstKind::Branch { .. } | InstKind::Return => true,
                }
            },
            inst matches Some(i) ==> i == self.order.blocks@[block.0 as int]@.last(),
            inst matches Some(i) ==> self.store.has(i)
                && self.order.inst_blocks@[i.0 as int] == Some(block),
    {
        if block.0 >= self.order.blocks.len() {
            return None;
        }
        let insts = self.order.insts(block);
        if insts.len() == 0 {
            return None;
        }
        let last: InstId = insts[insts.len() - 1];
        assert(is_place(self.order.blocks@, block.0 as int, insts@.len() - 1));
        if self.store.is_terminator(last) {
            Some(last)
        } else {
            None
        }
    }
}

} // verus!
