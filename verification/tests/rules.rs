//! The rules by which functions become structured code, one by one.

use inst_order::analysis::{ControlFlowGraph, DFSet, Loop, LoopId, LoopTree, PostDomTree, PostIDom};
use inst_order::flow::TerminatorInfo;
use inst_order::ir::{BasicBlockId, FunctionBody, InstId, InstKind, ValueId};
use inst_order::scope::{Scope, ScopeKind};
use inst_order::serializer::InstSerializer;
use inst_order::steps::StructuralInst;

const NOP: InstKind = InstKind::Nop;
const PLAIN: InstKind = InstKind::Plain;
const RET: InstKind = InstKind::Return;

fn jump(dest: usize) -> InstKind {
    InstKind::Jump {
        dest: BasicBlockId(dest),
    }
}

fn branch(cond: usize, then: usize, else_: usize) -> InstKind {
    InstKind::Branch {
        cond: ValueId(cond),
        then: BasicBlockId(then),
        else_: BasicBlockId(else_),
    }
}

fn inst(index: usize) -> StructuralInst {
    StructuralInst::Inst(InstId(index))
}

fn if_(cond: usize, then: Vec<StructuralInst>, else_: Vec<StructuralInst>) -> StructuralInst {
    StructuralInst::If {
        cond: ValueId(cond),
        then,
        else_,
    }
}

fn for_(body: Vec<StructuralInst>) -> StructuralInst {
    StructuralInst::For { body }
}

fn ids(blocks: &[usize]) -> Vec<BasicBlockId> {
    blocks.iter().map(|&b| BasicBlockId(b)).collect()
}

/// A body with these blocks, whose instructions are numbered as they stand.
fn body(blocks: &[&[InstKind]]) -> FunctionBody {
    let mut insts = vec![];
    let mut order = vec![];
    for block in blocks {
        let mut list = vec![];
        for kind in block.iter() {
            list.push(InstId(insts.len()));
            insts.push(*kind);
        }
        order.push(list);
    }
    FunctionBody::new(insts, order).unwrap()
}

/// What is known of a function, with nothing that is not given.
#[derive(Default)]
struct Known {
    loops: Vec<(usize, Vec<usize>)>,
    block_to_loop: Vec<Option<usize>>,
    df: Vec<Option<Vec<usize>>>,
    post_idoms: Vec<Option<usize>>,
}

/// The edges of a body, as its blocks end.
fn edges(body: &FunctionBody) -> Vec<Vec<BasicBlockId>> {
    (0..body.order.blocks.len())
        .map(|b| match body.terminator(BasicBlockId(b)) {
            Some(end) => match body.store.inst_data(end) {
                InstKind::Jump { dest } => vec![dest],
                InstKind::Branch { then, else_, .. } => vec![then, else_],
                _ => vec![],
            },
            None => vec![],
        })
        .collect()
}

fn serializer(body: &FunctionBody, known: Known) -> InstSerializer<'_> {
    let cfg = ControlFlowGraph {
        entry: BasicBlockId(0),
        succs: edges(body),
    };
    let loops = known
        .loops
        .iter()
        .map(|(header, blocks)| Loop {
            header: BasicBlockId(*header),
            blocks: ids(blocks),
        })
        .collect();
    let block_to_loop = known.block_to_loop.iter().map(|l| l.map(LoopId)).collect();
    let df = DFSet {
        frontiers: known.df.iter().map(|f| f.as_ref().map(|f| ids(f))).collect(),
    };
    let pd_tree = PostDomTree {
        post_idoms: known
            .post_idoms
            .iter()
            .map(|p| match p {
                Some(b) => PostIDom::Block(BasicBlockId(*b)),
                None => PostIDom::Dummy,
            })
            .collect(),
    };
    let loop_tree = LoopTree::new(loops, block_to_loop).unwrap();
    InstSerializer::new(body, cfg, loop_tree, df, pd_tree)
}

fn listed(body: &FunctionBody, known: Known) -> Vec<StructuralInst> {
    let mut serializer = serializer(body, known);
    assert!(serializer.is_serializable());
    let order = serializer.serialize();
    // Listing it once more gives the same.
    assert_eq!(order, serializer.serialize());
    order
}

fn is_listed(body: &FunctionBody, known: Known) -> bool {
    serializer(body, known).is_serializable()
}

#[test]
fn nops_are_left_out() {
    let func = body(&[&[PLAIN, NOP, PLAIN, RET]]);
    assert_eq!(
        listed(&func, Known::default()),
        vec![inst(0), inst(2), inst(3)]
    );
}

#[test]
fn jumps_are_left_out() {
    let func = body(&[&[PLAIN, jump(2)], &[RET], &[NOP, PLAIN, jump(1)]]);
    assert_eq!(
        listed(&func, Known::default()),
        vec![inst(0), inst(4), inst(2)]
    );
}

#[test]
fn code_stops_at_the_first_end() {
    let func = body(&[&[PLAIN, RET, PLAIN, RET]]);
    assert_eq!(listed(&func, Known::default()), vec![inst(0), inst(3)]);
}

#[test]
fn conditional_keeps_its_condition() {
    let func = body(&[&[branch(7, 1, 2)], &[PLAIN, jump(3)], &[jump(3)], &[RET]]);
    assert_eq!(
        listed(
            &func,
            Known {
                post_idoms: vec![Some(3), Some(3), Some(3), None],
                ..Known::default()
            }
        ),
        vec![if_(7, vec![inst(1)], vec![]), inst(4)]
    );
}

#[test]
fn inner_conditional_with_the_same_merge_lists_it_twice() {
    let func = body(&[
        &[branch(0, 1, 3)],
        &[branch(1, 2, 3)],
        &[PLAIN, jump(3)],
        &[RET],
    ]);
    assert_eq!(
        listed(
            &func,
            Known {
                post_idoms: vec![Some(3), Some(3), Some(3), None],
                ..Known::default()
            }
        ),
        vec![
            if_(0, vec![if_(1, vec![inst(2)], vec![]), inst(4)], vec![]),
            inst(4)
        ]
    );
}

#[test]
fn crossing_merge_goes_astray() {
    // With these post dominators the branch to block 2 from block 1 ends up at block 3.
    let func = body(&[&[branch(0, 1, 2)], &[branch(1, 2, 3)], &[RET], &[RET]]);
    let order = listed(
        &func,
        Known {
            post_idoms: vec![Some(2), Some(3), None, None],
            ..Known::default()
        },
    );
    assert_eq!(
        order,
        vec![if_(0, vec![if_(1, vec![], vec![]), inst(3)], vec![]), inst(2)]
    );
    let taken = [true, true];
    assert_ne!(
        run_blocks(&func, &taken, usize::MAX),
        run_code(&func, &order, &taken, usize::MAX)
    );
}

/// A loop whose blocks leave it as `leaving` says, and blocks outside with
/// these dominance frontiers.
fn exit_of(leaving: &[usize], df: Vec<Option<Vec<usize>>>) -> (bool, Option<usize>) {
    let block: &[InstKind] = &[RET];
    let func = body(&[block; 8]);
    let mut serializer = serializer(
        &func,
        Known {
            loops: vec![(0, vec![0])],
            block_to_loop: vec![Some(0)],
            df,
            ..Known::default()
        },
    );
    serializer.cfg.succs[0] = ids(leaving);
    if serializer.is_exit_determined(LoopId(0)) {
        (true, serializer.find_loop_exit(LoopId(0)).map(|b| b.0))
    } else {
        (false, None)
    }
}

#[test]
fn loop_that_is_not_left_has_no_exit() {
    assert_eq!(exit_of(&[0], vec![]), (true, None));
}

#[test]
fn single_candidate_is_the_exit() {
    assert_eq!(exit_of(&[0, 3], vec![]), (true, Some(3)));
}

#[test]
fn single_candidate_stands_for_its_frontier() {
    let df = vec![None, None, None, Some(vec![5])];
    assert_eq!(exit_of(&[0, 3], df), (true, Some(5)));
}

#[test]
fn single_candidate_with_two_frontier_blocks() {
    let df = vec![None, None, None, Some(vec![5, 6])];
    assert_eq!(exit_of(&[0, 3], df), (false, None));
}

#[test]
fn candidates_meet_at_one_of_them() {
    let df = vec![None, None, None, Some(vec![4, 6]), None, Some(vec![7, 4])];
    assert_eq!(exit_of(&[3, 4, 5], df), (true, Some(4)));
}

#[test]
fn first_candidate_at_which_all_meet_wins() {
    assert_eq!(exit_of(&[5, 3], vec![]), (true, Some(5)));
}

#[test]
fn candidate_in_the_frontier_of_all_others_wins() {
    // Block 3 comes first, but block 2 is in its frontier and has none itself.
    let func = body(&[
        &[jump(1)],
        &[branch(0, 4, 2)],
        &[RET],
        &[jump(2)],
        &[branch(0, 3, 1)],
    ]);
    let serializer = serializer(
        &func,
        Known {
            loops: vec![(1, vec![4, 1])],
            block_to_loop: vec![None, Some(0), None, None, Some(0)],
            df: vec![
                None,
                Some(vec![1]),
                None,
                Some(vec![2]),
                Some(vec![1, 2]),
            ],
            post_idoms: vec![Some(1), Some(2), None, Some(2), None],
        },
    );
    assert!(serializer.is_exit_determined(LoopId(0)));
    assert_eq!(serializer.find_loop_exit(LoopId(0)), Some(BasicBlockId(2)));
    let df = vec![None, None, None, Some(vec![4]), None];
    assert_eq!(exit_of(&[3, 4], df), (true, Some(4)));
}

#[test]
fn candidates_have_a_common_frontier() {
    let df = vec![None, None, None, Some(vec![6]), Some(vec![6])];
    assert_eq!(exit_of(&[3, 4], df), (true, Some(6)));
}

#[test]
fn last_candidate_decides() {
    let df = vec![None, None, None, Some(vec![6]), Some(vec![7, 7])];
    assert_eq!(exit_of(&[3, 4], df), (true, Some(7)));
}

#[test]
fn last_candidate_with_two_frontier_blocks() {
    let df = vec![None, None, None, Some(vec![6]), Some(vec![6, 7])];
    assert_eq!(exit_of(&[3, 4], df), (false, None));
}

#[test]
fn last_candidate_with_an_empty_frontier() {
    let df = vec![None, None, None, Some(vec![6]), Some(vec![])];
    assert_eq!(exit_of(&[3, 4], df), (true, None));
}

#[test]
fn earlier_candidate_without_frontier() {
    // The two that have a frontier do not meet at a candidate.
    let df = vec![None, None, None, None, Some(vec![6]), Some(vec![6])];
    assert_eq!(exit_of(&[3, 4, 5], df), (false, None));
}

#[test]
fn loop_with_a_block_that_is_not_in_the_graph() {
    let func = body(&[&[jump(0)]]);
    let serializer = serializer(
        &func,
        Known {
            loops: vec![(0, vec![9, 0])],
            block_to_loop: vec![Some(0)],
            ..Known::default()
        },
    );
    assert!(!serializer.is_exit_determined(LoopId(0)));
}

#[test]
fn destinations_in_a_loop() {
    let func = body(&[&[RET]]);
    let mut s = serializer(&func, Known::default());
    assert!(matches!(
        s.analyze_dest(BasicBlockId(1)),
        TerminatorInfo::FallThrough(BasicBlockId(1))
    ));
    s.enter_loop_scope(LoopId(0), BasicBlockId(1), Some(BasicBlockId(2)));
    s.enter_if_scope(Some(BasicBlockId(3)));
    assert!(matches!(
        s.analyze_dest(BasicBlockId(1)),
        TerminatorInfo::Continue
    ));
    assert!(matches!(
        s.analyze_jump(BasicBlockId(2)),
        TerminatorInfo::Break
    ));
    assert!(matches!(
        s.analyze_dest(BasicBlockId(3)),
        TerminatorInfo::ToMergeBlock
    ));
    assert!(matches!(
        s.analyze_dest(BasicBlockId(4)),
        TerminatorInfo::FallThrough(BasicBlockId(4))
    ));
    // Only the innermost conditional counts, but the innermost loop at any depth.
    s.enter_if_scope(None);
    assert!(matches!(
        s.analyze_dest(BasicBlockId(3)),
        TerminatorInfo::FallThrough(BasicBlockId(3))
    ));
    assert!(matches!(
        s.analyze_dest(BasicBlockId(2)),
        TerminatorInfo::Break
    ));
}

#[test]
fn branches_meet_inside_the_innermost_loop() {
    let func = body(&[&[branch(4, 1, 2)], &[RET], &[RET]]);
    let known = || Known {
        loops: vec![(5, vec![5, 0]), (6, vec![6, 0, 2])],
        post_idoms: vec![Some(2)],
        ..Known::default()
    };
    let merge = |s: &InstSerializer| match s.analyze_terminator(InstId(0)) {
        TerminatorInfo::If {
            cond, merge_block, ..
        } => {
            assert_eq!(cond, ValueId(4));
            merge_block
        }
        _ => panic!("expect if"),
    };
    let mut s = serializer(&func, known());
    assert_eq!(merge(&s), Some(BasicBlockId(2)));
    s.enter_loop_scope(LoopId(0), BasicBlockId(5), None);
    assert_eq!(merge(&s), None);
    s.enter_loop_scope(LoopId(1), BasicBlockId(6), None);
    assert_eq!(merge(&s), Some(BasicBlockId(2)));
    match s.analyze_branch(BasicBlockId(0), ValueId(4), BasicBlockId(6), BasicBlockId(1)) {
        TerminatorInfo::If { then, else_, .. } => {
            assert!(matches!(*then, TerminatorInfo::Continue));
            assert!(matches!(
                *else_,
                TerminatorInfo::FallThrough(BasicBlockId(1))
            ));
        }
        _ => panic!("expect if"),
    }
    assert!(matches!(
        s.analyze_terminator(InstId(1)),
        TerminatorInfo::NormalInst(InstId(1))
    ));
}

#[test]
fn leaving_a_scope_undoes_entering_it() {
    let func = body(&[&[RET]]);
    let mut s = serializer(&func, Known::default());
    s.enter_loop_scope(LoopId(3), BasicBlockId(4), Some(BasicBlockId(5)));
    s.enter_if_scope(None);
    s.exit_scope();
    match &s.scope {
        Some(scope) => {
            assert_eq!(scope.loop_header(), Some(BasicBlockId(4)));
            assert!(scope.parent.is_none());
        }
        None => panic!("expect a loop"),
    }
    s.exit_scope();
    assert!(s.scope.is_none());
}

#[test]
fn scopes_look_through_conditionals() {
    let lp = Scope {
        kind: ScopeKind::Loop {
            lp: LoopId(1),
            header: BasicBlockId(2),
            exit: Some(BasicBlockId(3)),
        },
        parent: None,
    };
    let scope = Scope {
        kind: ScopeKind::If {
            merge_block: Some(BasicBlockId(4)),
        },
        parent: Some(Box::new(lp)),
    };
    assert_eq!(scope.loop_recursive(), Some(LoopId(1)));
    assert_eq!(scope.loop_header(), None);
    assert_eq!(scope.loop_header_recursive(), Some(BasicBlockId(2)));
    assert_eq!(scope.loop_exit_recursive(), Some(BasicBlockId(3)));
    assert_eq!(scope.if_merge_block(), Some(BasicBlockId(4)));
    let lp = *scope.parent.unwrap();
    assert_eq!(lp.loop_header(), Some(BasicBlockId(2)));
    assert_eq!(lp.if_merge_block(), None);

    let alone = Scope {
        kind: ScopeKind::If { merge_block: None },
        parent: None,
    };
    assert_eq!(alone.loop_recursive(), None);
    assert_eq!(alone.loop_header_recursive(), None);
    assert_eq!(alone.loop_exit_recursive(), None);
    assert_eq!(alone.if_merge_block(), None);
}

#[test]
fn block_without_end_cannot_be_listed() {
    assert!(!is_listed(&body(&[&[PLAIN]]), Known::default()));
    assert!(!is_listed(&body(&[&[]]), Known::default()));
    assert!(!is_listed(&body(&[&[RET, PLAIN]]), Known::default()));
    assert!(is_listed(&body(&[&[RET]]), Known::default()));
    // A block that is not reached does not matter.
    assert!(is_listed(&body(&[&[RET], &[PLAIN]]), Known::default()));
}

#[test]
fn missing_block_cannot_be_listed() {
    assert!(!is_listed(&body(&[&[jump(1)]]), Known::default()));
    // Nor can one at which branches are said to meet.
    let known = Known {
        post_idoms: vec![Some(9), None, None],
        ..Known::default()
    };
    assert!(!is_listed(
        &body(&[&[branch(0, 1, 2)], &[RET], &[RET]]),
        known
    ));
}

#[test]
fn branch_without_post_dominator_cannot_be_listed() {
    let func = body(&[&[branch(0, 1, 2)], &[RET], &[RET]]);
    assert!(!is_listed(&func, Known::default()));
    let known = Known {
        post_idoms: vec![None],
        ..Known::default()
    };
    assert!(is_listed(&func, known));
}

#[test]
fn circle_that_is_no_loop_cannot_be_listed() {
    let func = body(&[&[jump(1)], &[jump(0)]]);
    assert!(!is_listed(&func, Known::default()));
    let known = Known {
        loops: vec![(0, vec![1, 0])],
        block_to_loop: vec![Some(0), Some(0)],
        ..Known::default()
    };
    assert_eq!(
        listed(&func, known),
        vec![for_(vec![StructuralInst::Continue])]
    );
}

#[test]
fn loop_without_a_determined_exit_cannot_be_listed() {
    let func = body(&[&[branch(0, 0, 1)], &[RET]]);
    let known = |frontier: Vec<usize>| Known {
        loops: vec![(0, vec![0])],
        block_to_loop: vec![Some(0)],
        df: vec![None, Some(frontier)],
        post_idoms: vec![Some(1), None],
    };
    assert!(!is_listed(&func, known(vec![0, 1])));
    assert!(is_listed(&func, known(vec![1])));
}

#[test]
fn loop_that_goes_on_at_the_outer_header_cannot_be_listed() {
    // The outer loop has header 1, the inner one header 2. The only way out of
    // the inner one is block 4, whose dominance frontier is the outer header.
    let func = body(&[
        &[jump(1)],
        &[branch(0, 2, 5)],
        &[branch(1, 3, 4)],
        &[jump(2)],
        &[jump(1)],
        &[RET],
    ]);
    let known = Known {
        loops: vec![(1, vec![3, 4, 2, 1]), (2, vec![3, 2])],
        block_to_loop: vec![None, Some(0), Some(1), Some(1), Some(0), None],
        df: vec![
            None,
            Some(vec![1]),
            Some(vec![1, 2]),
            Some(vec![2]),
            Some(vec![1]),
            None,
        ],
        post_idoms: vec![Some(1), Some(5), Some(4), Some(2), Some(1), None],
    };
    assert!(!is_listed(&func, known));
}

#[test]
fn loop_is_followed_by_its_exit() {
    let func = body(&[&[branch(0, 0, 1)], &[PLAIN, RET]]);
    let known = Known {
        loops: vec![(0, vec![0])],
        block_to_loop: vec![Some(0), None],
        post_idoms: vec![Some(1), None],
        ..Known::default()
    };
    assert_eq!(
        listed(&func, known),
        vec![
            for_(vec![if_(
                0,
                vec![StructuralInst::Continue],
                vec![StructuralInst::Break]
            )]),
            inst(1),
            inst(2)
        ]
    );
}

#[test]
fn body_with_misplaced_instructions() {
    let kinds = || vec![PLAIN, RET];
    assert!(FunctionBody::new(kinds(), vec![vec![InstId(0), InstId(2)]]).is_none());
    assert!(FunctionBody::new(kinds(), vec![vec![InstId(1)], vec![InstId(1)]]).is_none());
    assert!(FunctionBody::new(kinds(), vec![vec![InstId(0), InstId(0)]]).is_none());
    let func = FunctionBody::new(kinds(), vec![vec![], vec![InstId(1)]]).unwrap();
    assert_eq!(func.order.inst_block(InstId(1)), BasicBlockId(1));
    assert_eq!(func.order.inst_blocks[0], None);
    assert_eq!(func.terminator(BasicBlockId(0)), None);
    assert_eq!(func.terminator(BasicBlockId(1)), Some(InstId(1)));
    assert_eq!(func.terminator(BasicBlockId(2)), None);
}

#[test]
fn loop_tree_with_an_unknown_loop() {
    let loops = || {
        vec![Loop {
            header: BasicBlockId(1),
            blocks: ids(&[2, 1]),
        }]
    };
    assert!(LoopTree::new(loops(), vec![None, Some(LoopId(1))]).is_none());
    let tree = LoopTree::new(loops(), vec![None, Some(LoopId(0))]).unwrap();
    assert_eq!(tree.loop_of_block(BasicBlockId(0)), None);
    assert_eq!(tree.loop_of_block(BasicBlockId(1)), Some(LoopId(0)));
    assert_eq!(tree.loop_of_block(BasicBlockId(7)), None);
    assert_eq!(tree.loop_header(LoopId(0)), BasicBlockId(1));
    assert!(tree.is_block_in_loop(BasicBlockId(2), LoopId(0)));
    assert!(!tree.is_block_in_loop(BasicBlockId(3), LoopId(0)));
}

/// What happens in a run.
#[derive(Debug, Clone, Copy, PartialEq)]
enum Event {
    Run(usize),
    Test(usize, bool),
}

/// Runs a function block by block, until it is left, the outcomes run out, or
/// this many events have happened.
fn run_blocks(body: &FunctionBody, outcomes: &[bool], events: usize) -> Vec<Event> {
    let mut trace = vec![];
    let mut left = outcomes.iter();
    let mut block = BasicBlockId(0);
    loop {
        for &inst in body.order.insts(block) {
            if trace.len() >= events {
                return trace;
            }
            match body.store.inst_data(inst) {
                InstKind::Nop => {}
                InstKind::Plain => trace.push(Event::Run(inst.0)),
                InstKind::Return => {
                    trace.push(Event::Run(inst.0));
                    return trace;
                }
                InstKind::Jump { dest } => block = dest,
                InstKind::Branch { cond, then, else_ } => match left.next() {
                    Some(&outcome) => {
                        trace.push(Event::Test(cond.0, outcome));
                        block = if outcome { then } else { else_ };
                    }
                    None => return trace,
                },
            }
        }
    }
}

#[derive(PartialEq)]
enum Ending {
    Done,
    Break,
    Continue,
    Stopped,
}

/// Runs structured code until it is left, the outcomes run out, or this many
/// events have happened.
fn run_list(
    body: &FunctionBody,
    code: &[StructuralInst],
    left: &mut std::slice::Iter<bool>,
    events: usize,
    trace: &mut Vec<Event>,
) -> Ending {
    for step in code {
        if trace.len() >= events {
            return Ending::Stopped;
        }
        let ending = match step {
            StructuralInst::Inst(inst) => {
                trace.push(Event::Run(inst.0));
                match body.store.inst_data(*inst) {
                    InstKind::Return => Ending::Stopped,
                    _ => Ending::Done,
                }
            }
            StructuralInst::If { cond, then, else_ } => match left.next() {
                Some(&outcome) => {
                    trace.push(Event::Test(cond.0, outcome));
                    run_list(body, if outcome { then } else { else_ }, left, events, trace)
                }
                None => Ending::Stopped,
            },
            StructuralInst::For { body: round } => loop {
                match run_list(body, round, left, events, trace) {
                    Ending::Break => break Ending::Done,
                    Ending::Stopped => break Ending::Stopped,
                    _ => {}
                }
            },
            StructuralInst::Break => Ending::Break,
            StructuralInst::Continue => Ending::Continue,
        };
        if ending != Ending::Done {
            return ending;
        }
    }
    Ending::Done
}

fn run_code(
    body: &FunctionBody,
    code: &[StructuralInst],
    outcomes: &[bool],
    events: usize,
) -> Vec<Event> {
    let mut trace = vec![];
    let ending = run_list(body, code, &mut outcomes.iter(), events, &mut trace);
    assert!(ending == Ending::Stopped || trace.len() >= events);
    trace
}

/// Every instruction does something, every jump has a loop around it, and
/// nothing follows a jump.
fn check_shape(body: &FunctionBody, code: &[StructuralInst], in_loop: bool) {
    for (i, step) in code.iter().enumerate() {
        let leaves = match step {
            StructuralInst::Inst(inst) => matches!(body.store.inst_data(*inst), InstKind::Return),
            StructuralInst::Break | StructuralInst::Continue => true,
            _ => false,
        };
        assert!(!leaves || i == code.len() - 1);
        match step {
            StructuralInst::Inst(inst) => assert!(matches!(
                body.store.inst_data(*inst),
                InstKind::Plain | InstKind::Return
            )),
            StructuralInst::If { then, else_, .. } => {
                check_shape(body, then, in_loop);
                check_shape(body, else_, in_loop);
            }
            StructuralInst::For { body: round } => check_shape(body, round, true),
            StructuralInst::Break | StructuralInst::Continue => assert!(in_loop),
        }
    }
}

/// Adds the instructions that are listed.
fn listed_insts(code: &[StructuralInst], insts: &mut Vec<usize>) {
    for step in code {
        match step {
            StructuralInst::Inst(inst) => insts.push(inst.0),
            StructuralInst::If { then, else_, .. } => {
                listed_insts(then, insts);
                listed_insts(else_, insts);
            }
            StructuralInst::For { body } => listed_insts(body, insts),
            _ => {}
        }
    }
}

/// The instructions of blocks to which control can get that do something and do
/// not go to another block.
fn reached_insts(body: &FunctionBody) -> Vec<usize> {
    let succs = edges(body);
    let mut reached = vec![BasicBlockId(0)];
    let mut insts = vec![];
    let mut i = 0;
    while i < reached.len() {
        for &inst in body.order.insts(reached[i]) {
            if matches!(
                body.store.inst_data(inst),
                InstKind::Plain | InstKind::Return
            ) {
                insts.push(inst.0);
            }
        }
        for &succ in &succs[reached[i].0] {
            if !reached.contains(&succ) {
                reached.push(succ);
            }
        }
        i += 1;
    }
    insts.sort();
    insts
}

/// Runs a function and its structured code with all outcomes up to some length.
fn check_runs(blocks: &[&[InstKind]], known: Known) {
    let func = body(blocks);
    let order = listed(&func, known);
    check_shape(&func, &order, false);
    let mut insts = vec![];
    listed_insts(&order, &mut insts);
    insts.sort();
    insts.dedup();
    assert_eq!(insts, reached_insts(&func));
    for count in 0..9 {
        for bits in 0..(1usize << count) {
            let outcomes: Vec<bool> = (0..count).map(|i| bits >> i & 1 == 1).collect();
            for events in [0, 1, 2, 3, 5, 8, 13, usize::MAX] {
                assert_eq!(
                    run_blocks(&func, &outcomes, events),
                    run_code(&func, &order, &outcomes, events)
                );
            }
        }
    }
}

#[test]
fn conditionals_run_the_same() {
    check_runs(
        &[
            &[PLAIN, branch(0, 1, 4)],
            &[PLAIN, branch(1, 2, 3)],
            &[PLAIN, jump(4)],
            &[NOP, PLAIN, RET],
            &[PLAIN, branch(2, 5, 6)],
            &[PLAIN, jump(6)],
            &[PLAIN, RET],
        ],
        Known {
            post_idoms: vec![None, None, Some(4), None, Some(6), Some(6), None],
            ..Known::default()
        },
    );
}

#[test]
fn guarded_loop_runs_the_same() {
    check_runs(
        &[
            &[PLAIN, branch(0, 1, 3)],
            &[PLAIN, NOP, jump(2)],
            &[PLAIN, branch(1, 1, 3)],
            &[PLAIN, RET],
        ],
        Known {
            loops: vec![(1, vec![2, 1])],
            block_to_loop: vec![None, Some(0), Some(0), None],
            df: vec![None, Some(vec![1, 3]), Some(vec![1, 3]), None],
            post_idoms: vec![Some(3), Some(2), Some(3), None],
        },
    );
}

#[test]
fn loop_with_break_and_continue_runs_the_same() {
    check_runs(
        &[
            &[PLAIN, jump(1)],
            &[PLAIN, branch(0, 2, 6)],
            &[PLAIN, branch(1, 3, 4)],
            &[PLAIN, jump(1)],
            &[PLAIN, branch(2, 5, 1)],
            &[PLAIN, jump(6)],
            &[PLAIN, RET],
        ],
        Known {
            loops: vec![(1, vec![3, 4, 2, 1])],
            block_to_loop: vec![None, Some(0), Some(0), Some(0), Some(0), None, None],
            df: vec![
                None,
                Some(vec![1]),
                Some(vec![1, 6]),
                Some(vec![1]),
                Some(vec![1, 6]),
                Some(vec![6]),
                None,
            ],
            post_idoms: vec![Some(1), Some(6), None, Some(1), None, Some(6), None],
        },
    );
}

#[test]
fn loops_one_after_the_other_run_the_same() {
    check_runs(
        &[
            &[jump(1)],
            &[PLAIN, branch(0, 1, 2)],
            &[PLAIN, branch(1, 2, 3)],
            &[PLAIN, RET],
        ],
        Known {
            loops: vec![(1, vec![1]), (2, vec![2])],
            block_to_loop: vec![None, Some(0), Some(1), None],
            df: vec![None, None, None, None],
            post_idoms: vec![Some(1), Some(2), Some(3), None],
        },
    );
}

#[test]
fn loop_that_never_ends_runs_the_same() {
    let func = body(&[&[PLAIN, jump(1)], &[PLAIN, NOP, PLAIN, jump(1)], &[PLAIN, RET]]);
    let order = listed(
        &func,
        Known {
            loops: vec![(1, vec![1])],
            block_to_loop: vec![None, Some(0), None],
            ..Known::default()
        },
    );
    assert_eq!(
        order,
        vec![
            inst(0),
            for_(vec![inst(2), inst(4), StructuralInst::Continue])
        ]
    );
    for events in 0..20 {
        let trace = run_blocks(&func, &[], events);
        assert_eq!(trace.len(), events);
        assert_eq!(trace, run_code(&func, &order, &[], events));
    }
    // Control does not get to block 2.
    assert_eq!(reached_insts(&func), vec![0, 2, 4]);
}

#[test]
fn nops_make_no_difference() {
    let kinds = || vec![PLAIN, NOP, PLAIN, NOP, branch(0, 1, 2), NOP, RET, NOP, RET];
    let insts = |list: &[usize]| -> Vec<InstId> { list.iter().map(|&i| InstId(i)).collect() };
    let known = || Known {
        post_idoms: vec![None, None, None],
        ..Known::default()
    };
    let with = FunctionBody::new(
        kinds(),
        vec![insts(&[0, 1, 2, 3, 4]), insts(&[5, 6]), insts(&[7, 8])],
    )
    .unwrap();
    let without = FunctionBody::new(
        kinds(),
        vec![insts(&[0, 2, 3, 4]), insts(&[6]), insts(&[7, 8])],
    )
    .unwrap();
    let order = listed(&with, known());
    assert_eq!(
        order,
        vec![inst(0), inst(2), if_(0, vec![inst(6)], vec![inst(8)])]
    );
    assert_eq!(listed(&without, known()), order);
}

#[test]
fn blocks_are_appended() {
    let func = body(&[
        &[jump(1)],
        &[branch(0, 1, 2)],
        &[PLAIN, jump(3)],
        &[RET],
    ]);
    let mut s = serializer(
        &func,
        Known {
            loops: vec![(1, vec![1])],
            block_to_loop: vec![None, Some(0), None, None],
            post_idoms: vec![Some(1), Some(2), Some(3), None],
            ..Known::default()
        },
    );
    s.enter_if_scope(Some(BasicBlockId(3)));
    let mut order = vec![StructuralInst::Continue];
    s.serialize_block(BasicBlockId(1), &mut order);
    // The loop, then its exit up to where the branches around meet.
    assert_eq!(
        order,
        vec![
            StructuralInst::Continue,
            for_(vec![if_(
                0,
                vec![StructuralInst::Continue],
                vec![StructuralInst::Break]
            )]),
            inst(2)
        ]
    );
    // Where the exit is listed anyway, it is not listed here.
    s.exit_scope();
    s.enter_if_scope(Some(BasicBlockId(2)));
    let mut order = vec![];
    s.serialize_block(BasicBlockId(1), &mut order);
    assert_eq!(order.len(), 1);
    assert!(s.scope.is_some());
    s.exit_scope();
    assert!(s.scope.is_none());
}

#[test]
fn conditionals_are_appended() {
    let func = body(&[&[PLAIN, jump(1)], &[PLAIN, RET]]);
    let mut s = serializer(&func, Known::default());
    let to = |block: usize| TerminatorInfo::FallThrough(BasicBlockId(block));
    let merge = Some(BasicBlockId(1));
    let mut order = vec![inst(9)];
    s.serialize_if_terminator(ValueId(5), to(0), to(1), merge, &mut order);
    assert_eq!(
        order,
        vec![inst(9), if_(5, vec![inst(0)], vec![]), inst(2), inst(3)]
    );
    // Exchanging the branches exchanges the two lists and nothing else.
    let mut order = vec![inst(9)];
    s.serialize_if_terminator(ValueId(5), to(1), to(0), merge, &mut order);
    assert_eq!(
        order,
        vec![inst(9), if_(5, vec![], vec![inst(0)]), inst(2), inst(3)]
    );
    let mut order = vec![];
    s.serialize_if_terminator(
        ValueId(6),
        TerminatorInfo::Break,
        TerminatorInfo::Continue,
        None,
        &mut order,
    );
    assert_eq!(
        order,
        vec![if_(
            6,
            vec![StructuralInst::Break],
            vec![StructuralInst::Continue]
        )]
    );
    let mut order = vec![];
    s.serialize_if_terminator(
        ValueId(6),
        TerminatorInfo::ToMergeBlock,
        to(1),
        None,
        &mut order,
    );
    assert_eq!(order, vec![if_(6, vec![], vec![inst(2), inst(3)])]);
    assert!(s.scope.is_none());
}
