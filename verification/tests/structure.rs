//! Small functions and the structured code that they become.

use inst_order::analysis::{ControlFlowGraph, DFSet, Loop, LoopId, LoopTree, PostDomTree, PostIDom};
use inst_order::ir::{BasicBlockId, FunctionBody, InstId, InstKind, ValueId};
use inst_order::serializer::InstSerializer;
use inst_order::steps::StructuralInst;

/// Builds a body block by block. The first block is there from the start.
struct BodyBuilder {
    insts: Vec<InstKind>,
    blocks: Vec<Vec<InstId>>,
    current: usize,
}

fn body_builder() -> BodyBuilder {
    BodyBuilder {
        insts: vec![],
        blocks: vec![vec![]],
        current: 0,
    }
}

impl BodyBuilder {
    fn make_block(&mut self) -> BasicBlockId {
        self.blocks.push(vec![]);
        BasicBlockId(self.blocks.len() - 1)
    }

    fn move_to_block(&mut self, block: BasicBlockId) {
        self.current = block.0;
    }

    fn inst(&mut self, kind: InstKind) {
        self.blocks[self.current].push(InstId(self.insts.len()));
        self.insts.push(kind);
    }

    fn jump(&mut self, dest: BasicBlockId) {
        self.inst(InstKind::Jump { dest });
    }

    fn branch(&mut self, cond: ValueId, then: BasicBlockId, else_: BasicBlockId) {
        self.inst(InstKind::Branch { cond, then, else_ });
    }

    fn ret(&mut self) {
        self.inst(InstKind::Return);
    }

    fn build(self) -> FunctionBody {
        FunctionBody::new(self.insts, self.blocks).unwrap()
    }
}

/// What is known of the control flow of a body, block by block.
struct Tables {
    succs: Vec<Vec<usize>>,
    /// The header of each loop, and its blocks in post order.
    loops: Vec<(usize, Vec<usize>)>,
    /// The innermost loop of each block.
    block_to_loop: Vec<Option<usize>>,
    df: Vec<Option<Vec<usize>>>,
    /// The immediate post dominator of each block that is one.
    post_idoms: Vec<Option<usize>>,
}

fn ids(blocks: &[usize]) -> Vec<BasicBlockId> {
    blocks.iter().map(|&b| BasicBlockId(b)).collect()
}

fn serialize_func_body(func: &FunctionBody, tables: Tables) -> impl Iterator<Item = StructuralInst> {
    let cfg = ControlFlowGraph {
        entry: BasicBlockId(0),
        succs: tables.succs.iter().map(|s| ids(s)).collect(),
    };
    let loops = tables
        .loops
        .iter()
        .map(|(header, blocks)| Loop {
            header: BasicBlockId(*header),
            blocks: ids(blocks),
        })
        .collect();
    let block_to_loop = tables.block_to_loop.iter().map(|l| l.map(LoopId)).collect();
    let loop_tree = LoopTree::new(loops, block_to_loop).unwrap();
    let df = DFSet {
        frontiers: tables.df.iter().map(|f| f.as_ref().map(|f| ids(f))).collect(),
    };
    let pd_tree = PostDomTree {
        post_idoms: tables
            .post_idoms
            .iter()
            .map(|p| match p {
                Some(b) => PostIDom::Block(BasicBlockId(*b)),
                None => PostIDom::Dummy,
            })
            .collect(),
    };
    InstSerializer::new(func, cfg, loop_tree, df, pd_tree)
        .serialize()
        .into_iter()
}

fn expect_if(
    inst: StructuralInst,
) -> (
    impl Iterator<Item = StructuralInst>,
    impl Iterator<Item = StructuralInst>,
) {
    match inst {
        StructuralInst::If { then, else_, .. } => (then.into_iter(), else_.into_iter()),
        _ => panic!("expect if inst"),
    }
}

fn expect_for(inst: StructuralInst) -> impl Iterator<Item = StructuralInst> {
    match inst {
        StructuralInst::For { body } => body.into_iter(),
        _ => panic!("expect for inst"),
    }
}

fn expect_break(inst: StructuralInst) {
    assert!(matches!(inst, StructuralInst::Break))
}

fn expect_continue(inst: StructuralInst) {
    assert!(matches!(inst, StructuralInst::Continue))
}

fn expect_return(func: &FunctionBody, inst: &StructuralInst) {
    match inst {
        StructuralInst::Inst(inst) => {
            assert!(matches!(func.store.inst_data(*inst), InstKind::Return))
        }
        _ => panic!("expect return"),
    }
}

#[test]
fn if_non_merge() {
    // +------+     +-------+
    // | then | <-- |  bb0  |
    // +------+     +-------+
    //                |
    //                |
    //                v
    //              +-------+
    //              | else_ |
    //              +-------+
    let mut builder = body_builder();

    let then = builder.make_block();
    let else_ = builder.make_block();

    let v0 = ValueId(0);

    builder.branch(v0, then, else_);

    builder.move_to_block(then);
    builder.ret();

    builder.move_to_block(else_);
    builder.ret();

    let func = builder.build();
    let mut order = serialize_func_body(
        &func,
        Tables {
            succs: vec![vec![1, 2], vec![], vec![]],
            loops: vec![],
            block_to_loop: vec![None, None, None],
            df: vec![None, None, None],
            post_idoms: vec![None, None, None],
        },
    );

    let (mut then, mut else_) = expect_if(order.next().unwrap());
    expect_return(&func, &then.next().unwrap());
    assert!(then.next().is_none());
    expect_return(&func, &else_.next().unwrap());
    assert!(else_.next().is_none());

    assert!(order.next().is_none());
}

#[test]
fn if_merge() {
    // +------+     +-------+
    // | then | <-- |  bb0  |
    // +------+     +-------+
    //   |            |
    //   |            |
    //   |            v
    //   |          +-------+
    //   |          | else_ |
    //   |          +-------+
    //   |            |
    //   |            |
    //   |            v
    //   |          +-------+
    //   +--------> | merge |
    //              +-------+
    let mut builder = body_builder();

    let then = builder.make_block();
    let else_ = builder.make_block();
    let merge = builder.make_block();

    let v0 = ValueId(0);

    builder.branch(v0, then, else_);

    builder.move_to_block(then);
    builder.jump(merge);

    builder.move_to_block(else_);
    builder.jump(merge);

    builder.move_to_block(merge);
    builder.ret();

    let func = builder.build();
    let mut order = serialize_func_body(
        &func,
        Tables {
            succs: vec![vec![1, 2], vec![3], vec![3], vec![]],
            loops: vec![],
            block_to_loop: vec![None, None, None, None],
            df: vec![None, Some(vec![3]), Some(vec![3]), None],
            post_idoms: vec![Some(3), Some(3), Some(3), None],
        },
    );

    let (mut then, mut else_) = expect_if(order.next().unwrap());
    assert!(then.next().is_none());
    assert!(else_.next().is_none());

    expect_return(&func, &order.next().unwrap());
    assert!(order.next().is_none());
}

#[test]
fn simple_loop() {
    //    +--------+
    //    |  bb0   | -+
    //    +--------+  |
    //      |         |
    //      |         |
    //      v         |
    //    +--------+  |
    // +> | header |  |
    // |  +--------+  |
    // |    |         |
    // |    |         |
    // |    v         |
    // |  +--------+  |
    // +- | latch  |  |
    //    +--------+  |
    //      |         |
    //      |         |
    //      v         |
    //    +--------+  |
    //    |  exit  | <+
    //    +--------+
    let mut builder = body_builder();

    let header = builder.make_block();
    let latch = builder.make_block();
    let exit = builder.make_block();

    let v0 = ValueId(0);

    builder.branch(v0, header, exit);

    builder.move_to_block(header);
    builder.jump(latch);

    builder.move_to_block(latch);
    builder.branch(v0, header, exit);

    builder.move_to_block(exit);
    builder.ret();

    let func = builder.build();
    let mut order = serialize_func_body(
        &func,
        Tables {
            succs: vec![vec![1, 3], vec![2], vec![1, 3], vec![]],
            loops: vec![(1, vec![2, 1])],
            block_to_loop: vec![None, Some(0), Some(0), None],
            df: vec![None, Some(vec![1, 3]), Some(vec![1, 3]), None],
            post_idoms: vec![Some(3), Some(2), Some(3), None],
        },
    );

    let (mut lp, mut empty) = expect_if(order.next().unwrap());

    let mut body = expect_for(lp.next().unwrap());
    let (mut continue_, mut break_) = expect_if(body.next().unwrap());
    assert!(body.next().is_none());

    expect_continue(continue_.next().unwrap());
    assert!(continue_.next().is_none());

    expect_break(break_.next().unwrap());
    assert!(break_.next().is_none());

    assert!(empty.next().is_none());

    expect_return(&func, &order.next().unwrap());
    assert!(order.next().is_none());
}

#[test]
fn loop_with_continue() {
    //    +-----+
    // +- | bb0 |
    // |  +-----+
    // |    |
    // |    |
    // |    v
    // |  +---------------+     +-----+
    // |  |      bb1      | --> | bb3 |
    // |  +---------------+     +-----+
    // |    |      ^    ^         |
    // |    |      |    +---------+
    // |    v      |
    // |  +-----+  |
    // |  | bb4 | -+
    // |  +-----+
    // |    |
    // |    |
    // |    v
    // |  +-----+
    // +> | bb2 |
    //    +-----+
    let mut builder = body_builder();

    let bb1 = builder.make_block();
    let bb2 = builder.make_block();
    let bb3 = builder.make_block();
    let bb4 = builder.make_block();

    let v0 = ValueId(0);

    builder.branch(v0, bb1, bb2);

    builder.move_to_block(bb1);
    builder.branch(v0, bb3, bb4);

    builder.move_to_block(bb3);
    builder.jump(bb1);

    builder.move_to_block(bb4);
    builder.branch(v0, bb1, bb2);

    builder.move_to_block(bb2);
    builder.ret();

    let func = builder.build();
    let mut order = serialize_func_body(
        &func,
        Tables {
            succs: vec![vec![1, 2], vec![3, 4], vec![], vec![1], vec![1, 2]],
            loops: vec![(1, vec![3, 4, 1])],
            block_to_loop: vec![None, Some(0), None, Some(0), Some(0)],
            df: vec![
                None,
                Some(vec![1, 2]),
                None,
                Some(vec![1]),
                Some(vec![1, 2]),
            ],
            post_idoms: vec![Some(2), Some(4), None, Some(1), Some(2)],
        },
    );

    let (mut lp, mut empty) = expect_if(order.next().unwrap());
    assert!(empty.next().is_none());

    let mut body = expect_for(lp.next().unwrap());

    let (mut continue_, mut empty) = expect_if(body.next().unwrap());
    expect_continue(continue_.next().unwrap());
    assert!(continue_.next().is_none());
    assert!(empty.next().is_none());

    let (mut continue_, mut break_) = expect_if(body.next().unwrap());
    expect_continue(continue_.next().unwrap());
    assert!(continue_.next().is_none());
    expect_break(break_.next().unwrap());
    assert!(break_.next().is_none());

    assert!(body.next().is_none());
    assert!(lp.next().is_none());

    expect_return(&func, &order.next().unwrap());
    assert!(order.next().is_none());
}

#[test]
fn loop_with_break() {
    //    +-----+
    // +- | bb0 |
    // |  +-----+
    // |    |
    // |    |           +---------+
    // |    v           v         |
    // |  +---------------+     +-----+
    // |  |      bb1      | --> | bb4 |
    // |  +---------------+     +-----+
    // |    |                     |
    // |    |                     |
    // |    v                     |
    // |  +-----+                 |
    // |  | bb3 |                 |
    // |  +-----+                 |
    // |    |                     |
    // |    |                     |
    // |    v                     |
    // |  +-----+                 |
    // +> | bb2 | <---------------+
    //    +-----+
    let mut builder = body_builder();

    let bb1 = builder.make_block();
    let bb2 = builder.make_block();
    let bb3 = builder.make_block();
    let bb4 = builder.make_block();

    let v0 = ValueId(0);

    builder.branch(v0, bb1, bb2);

    builder.move_to_block(bb1);
    builder.branch(v0, bb3, bb4);

    builder.move_to_block(bb3);
    builder.jump(bb2);

    builder.move_to_block(bb4);
    builder.branch(v0, bb1, bb2);

    builder.move_to_block(bb2);
    builder.ret();

    let func = builder.build();
    let mut order = serialize_func_body(
        &func,
        Tables {
            succs: vec![vec![1, 2], vec![3, 4], vec![], vec![2], vec![1, 2]],
            loops: vec![(1, vec![4, 1])],
            block_to_loop: vec![None, Some(0), None, None, Some(0)],
            df: vec![
                None,
                Some(vec![1, 2]),
                None,
                Some(vec![2]),
                Some(vec![1, 2]),
            ],
            post_idoms: vec![Some(2), Some(2), None, Some(2), Some(2)],
        },
    );

    let (mut lp, mut empty) = expect_if(order.next().unwrap());
    assert!(empty.next().is_none());

    let mut body = expect_for(lp.next().unwrap());

    let (mut break_, mut latch) = expect_if(body.next().unwrap());
    expect_break(break_.next().unwrap());
    assert!(break_.next().is_none());

    let (mut continue_, mut break_) = expect_if(latch.next().unwrap());
    assert!(latch.next().is_none());
    expect_continue(continue_.next().unwrap());
    assert!(continue_.next().is_none());
    expect_break(break_.next().unwrap());
    assert!(break_.next().is_none());

    assert!(body.next().is_none());
    assert!(lp.next().is_none());

    expect_return(&func, &order.next().unwrap());
    assert!(order.next().is_none());
}

#[test]
fn loop_no_guard() {
    // +-----+
    // | bb0 |
    // +-----+
    //   |
    //   |
    //   v
    // +-----+
    // | bb1 | <+
    // +-----+  |
    //   |      |
    //   |      |
    //   v      |
    // +-----+  |
    // | bb2 | -+
    // +-----+
    //   |
    //   |
    //   v
    // +-----+
    // | bb3 |
    // +-----+
    let mut builder = body_builder();

    let bb1 = builder.make_block();
    let bb2 = builder.make_block();
    let bb3 = builder.make_block();

    let v0 = ValueId(0);

    builder.jump(bb1);

    builder.move_to_block(bb1);
    builder.jump(bb2);

    builder.move_to_block(bb2);
    builder.branch(v0, bb1, bb3);

    builder.move_to_block(bb3);
    builder.ret();

    let func = builder.build();
    let mut order = serialize_func_body(
        &func,
        Tables {
            succs: vec![vec![1], vec![2], vec![1, 3], vec![]],
            loops: vec![(1, vec![2, 1])],
            block_to_loop: vec![None, Some(0), Some(0), None],
            df: vec![None, Some(vec![1]), Some(vec![1]), None],
            post_idoms: vec![Some(1), Some(2), Some(3), None],
        },
    );

    let mut body = expect_for(order.next().unwrap());
    let (mut continue_, mut break_) = expect_if(body.next().unwrap());
    assert!(body.next().is_none());

    expect_continue(continue_.next().unwrap());
    assert!(continue_.next().is_none());

    expect_break(break_.next().unwrap());
    assert!(break_.next().is_none());

    expect_return(&func, &order.next().unwrap());
    assert!(order.next().is_none());
}

#[test]
fn infinite_loop() {
    // +-----+
    // | bb0 |
    // +-----+
    //   |
    //   |
    //   v
    // +-----+
    // | bb1 | <+
    // +-----+  |
    //   |      |
    //   |      |
    //   v      |
    // +-----+  |
    // | bb2 | -+
    // +-----+
    let mut builder = body_builder();

    let bb1 = builder.make_block();
    let bb2 = builder.make_block();

    builder.jump(bb1);

    builder.move_to_block(bb1);
    builder.jump(bb2);

    builder.move_to_block(bb2);
    builder.jump(bb1);

    let func = builder.build();
    let mut order = serialize_func_body(
        &func,
        Tables {
            succs: vec![vec![1], vec![2], vec![1]],
            loops: vec![(1, vec![2, 1])],
            block_to_loop: vec![None, Some(0), Some(0)],
            df: vec![None, Some(vec![1]), Some(vec![1])],
            post_idoms: vec![None, None, None],
        },
    );

    let mut body = expect_for(order.next().unwrap());
    expect_continue(body.next().unwrap());
    assert!(body.next().is_none());

    assert!(order.next().is_none());
}
