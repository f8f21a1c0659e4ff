//! What happens when a function runs, instruction by stored instruction, and
//! when a list of structured code runs, item by item.

use vstd::prelude::*;

use crate::coverage::{
    law_lists_reached, law_reached_blocks_end, lemma_line_has, lists, lists_in,
};
use crate::dominance::{connects, goes_to, is_hop, is_reached, lemma_reached_next};
use crate::flow::{straight_line, FunctionFlow};
use crate::ir::{BasicBlockId, BodyDataStore, BranchInfo, FunctionBody, InstId, InstKind};
use crate::nesting::{law_true_tables_nest, tables_true};
use crate::reading::law_code_stands_for_steps;
use crate::run::{
    after, block_runs, inst_events, run_block, run_loop, run_step, run_steps, steps_run,
    Ending, Event, Run, Supply,
};
use crate::shape::ends_function;
use crate::simulation::{law_same_runs, merges_nest};
use crate::steps::{steps_of, StructuralInst};

verus! {

/// The run from position `k` of `block` on, where `insts` says what each
/// instruction does and `blocks` where each stands. An instruction that does
/// nothing is passed over, one that computes something is run. At the first
/// that ends a block, the last one of the block takes effect. `None` if the run
/// takes more than `fuel` instructions, or comes to the end of a block without
/// one that ends it.
pub open spec fn machine_run(
    insts: Seq<InstKind>,
    blocks: Seq<Vec<InstId>>,
    block: BasicBlockId,
    k: int,
    supply: Supply,
    fuel: nat,
) -> Option<Run>
    decreases fuel,
{
    if fuel == 0 {
        None
    } else if supply.events == 0 {
        Some(Run { trace: seq![], left: supply })
    } else if block.0 >= blocks.len() || k < 0 || k >= blocks[block.0 as int]@.len() {
        None
    } else {
        let less = (fuel - 1) as nat;
        let inst = blocks[block.0 as int]@[k];
        let last = blocks[block.0 as int]@[blocks[block.0 as int]@.len() - 1];
        let spent = Supply { outcomes: supply.outcomes, events: (supply.events - 1) as nat };
        match insts[inst.0 as int] {
            InstKind::Nop => machine_run(insts, blocks, block, k + 1, supply, less),
            InstKind::Plain => match machine_run(insts, blocks, block, k + 1, spent, less) {
                Some(r) => Some(Run { trace: seq![Event::Run(inst)] + r.trace, left: r.left }),
                None => None,
            },
            _ => match insts[last.0 as int] {
                InstKind::Return => Some(Run { trace: seq![Event::Run(last)], left: spent }),
                InstKind::Jump { dest } => machine_run(insts, blocks, dest, 0, supply, less),
                InstKind::Branch { cond, then, else_ } => if supply.outcomes.len() == 0 {
                    Some(Run { trace: seq![], left: supply })
                } else {
                    let tested = Supply {
                        outcomes: supply.outcomes.drop_first(),
                        events: (supply.events - 1) as nat,
                    };
                    match if supply.outcomes[0] {
                        machine_run(insts, blocks, then, 0, tested, less)
                    } else {
                        machine_run(insts, blocks, else_, 0, tested, less)
                    } {
                        Some(r) => Some(
                            Run {
                                trace: seq![Event::Test(cond, supply.outcomes[0])] + r.trace,
                                left: r.left,
                            },
                        ),
                        None => None,
                    }
                },
                _ => None,
            },
        }
    }
}

/// The run of one item of structured code: `None` if a loop in it takes more
/// than `fuel` rounds.
pub open spec fn item_run(
    insts: Seq<InstKind>,
    item: StructuralInst,
    supply: Supply,
    fuel: nat,
) -> Option<(Run, Ending)>
    decreases fuel, item,
{
    let spent = if supply.events > 0 {
        (supply.events - 1) as nat
    } else {
        0
    };
    match item {
        StructuralInst::Inst(inst) => Some(
            (
                Run {
                    trace: seq![Event::Run(inst)],
                    left: Supply { outcomes: supply.outcomes, events: spent },
                },
                if insts[inst.0 as int] is Return || spent == 0 {
                    Ending::Stopped
                } else {
                    Ending::Done
                },
            ),
        ),
        StructuralInst::If { cond, then, else_ } => if supply.outcomes.len() == 0 {
            Some((Run { trace: seq![], left: supply }, Ending::Stopped))
        } else {
            let tested = Supply { outcomes: supply.outcomes.drop_first(), events: spent };
            match if supply.outcomes[0] {
                code_run(insts, then@, tested, fuel)
            } else {
                code_run(insts, else_@, tested, fuel)
            } {
                Some((r, ending)) => Some(
                    (
                        Run {
                            trace: seq![Event::Test(cond, supply.outcomes[0])] + r.trace,
                            left: r.left,
                        },
                        ending,
                    ),
                ),
                None => None,
            }
        },
        StructuralInst::For { body } => rounds_run(insts, body@, supply, fuel),
        StructuralInst::Break => Some((Run { trace: seq![], left: supply }, Ending::Break)),
        StructuralInst::Continue => Some((Run { trace: seq![], left: supply }, Ending::Continue)),
    }
}

/// The run of a list of structured code: item by item, until one does not come
/// to its end.
pub open spec fn code_run(
    insts: Seq<InstKind>,
    code: Seq<StructuralInst>,
    supply: Supply,
    fuel: nat,
) -> Option<(Run, Ending)>
    decreases fuel, code,
{
    if supply.events == 0 {
        Some((Run { trace: seq![], left: supply }, Ending::Stopped))
    } else if code.len() == 0 {
        Some((Run { trace: seq![], left: supply }, Ending::Done))
    } else {
        match item_run(insts, code[0], supply, fuel) {
            Some((r, Ending::Done)) => match code_run(insts, code.drop_first(), r.left, fuel) {
                Some((s, ending)) => Some(
                    (Run { trace: r.trace + s.trace, left: s.left }, ending),
                ),
                None => None,
            },
            other => other,
        }
    }
}

/// The run of a loop: round by round, until there is a `Break`, or no going on.
pub open spec fn rounds_run(
    insts: Seq<InstKind>,
    body: Seq<StructuralInst>,
    supply: Supply,
    fuel: nat,
) -> Option<(Run, Ending)>
    decreases fuel, body,
{
    if fuel == 0 {
        None
    } else {
        match code_run(insts, body, supply, (fuel - 1) as nat) {
            Some((r, Ending::Stopped)) => Some((r, Ending::Stopped)),
            Some((r, Ending::Break)) => Some((r, Ending::Done)),
            Some((r, _)) => match rounds_run(insts, body, r.left, (fuel - 1) as nat) {
                Some((s, ending)) => Some(
                    (Run { trace: r.trace + s.trace, left: s.left }, ending),
                ),
                None => None,
            },
            None => None,
        }
    }
}

/// A run of the function from the start of `block` ends as `run`.
pub open spec fn machine_runs(
    insts: Seq<InstKind>,
    blocks: Seq<Vec<InstId>>,
    block: BasicBlockId,
    supply: Supply,
    run: Run,
) -> bool {
    exists|fuel: nat| #[trigger] machine_run(insts, blocks, block, 0, supply, fuel) == Some(run)
}

/// A run of the code ends as `run`, inside of the code.
pub open spec fn code_runs(
    insts: Seq<InstKind>,
    code: Seq<StructuralInst>,
    supply: Supply,
    run: Run,
) -> bool {
    exists|fuel: nat| #[trigger]
        code_run(insts, code, supply, fuel) == Some((run, Ending::Stopped))
}

proof fn lemma_item_run(store: BodyDataStore, item: StructuralInst, supply: Supply, fuel: nat)
    ensures
        item_run(store.insts@, item, supply, fuel) == run_step(store, item@, supply, fuel),
    decreases fuel, item,
{
    let spent = if supply.events > 0 {
        (supply.events - 1) as nat
    } else {
        0
    };
    assert(supply.spent(1) == (Supply { outcomes: supply.outcomes, events: spent }));
    match item {
        StructuralInst::Inst(inst) => {},
        StructuralInst::If { cond, then, else_ } => {
            if supply.outcomes.len() > 0 {
                let tested = Supply { outcomes: supply.outcomes.drop_first(), events: spent };
                assert(supply.tested() == tested);
                if supply.outcomes[0] {
                    lemma_code_run(store, then@, tested, fuel);
                } else {
                    lemma_code_run(store, else_@, tested, fuel);
                }
            }
        },
        StructuralInst::For { body } => {
            lemma_rounds_run(store, body@, supply, fuel);
        },
        _ => {},
    }
}

proof fn lemma_code_run(
    store: BodyDataStore,
    code: Seq<StructuralInst>,
    supply: Supply,
    fuel: nat,
)
    ensures
        code_run(store.insts@, code, supply, fuel) == run_steps(
            store,
            steps_of(code),
            supply,
            fuel,
        ),
    decreases fuel, code,
{
    law_code_stands_for_steps(code, 0);
    if supply.events > 0 && code.len() > 0 {
        let steps = steps_of(code);
        let rest = code.drop_first();
        assert(steps.drop_first() =~= steps_of(rest)) by {
            law_code_stands_for_steps(rest, 0);
            assert forall|i: int| 0 <= i < rest.len() implies steps.drop_first()[i] == steps_of(
                rest,
            )[i] by {
                law_code_stands_for_steps(rest, i);
                law_code_stands_for_steps(code, i + 1);
                assert(rest[i] == code[i + 1]);
            }
        }
        lemma_item_run(store, code[0], supply, fuel);
        if let Some((r, Ending::Done)) = item_run(store.insts@, code[0], supply, fuel) {
            lemma_code_run(store, rest, r.left, fuel);
        }
    }
}

proof fn lemma_rounds_run(
    store: BodyDataStore,
    body: Seq<StructuralInst>,
    supply: Supply,
    fuel: nat,
)
    ensures
        rounds_run(store.insts@, body, supply, fuel) == run_loop(
            store,
            steps_of(body),
            supply,
            fuel,
        ),
    decreases fuel, body,
{
    if fuel > 0 {
        let less = (fuel - 1) as nat;
        lemma_code_run(store, body, supply, less);
        match code_run(store.insts@, body, supply, less) {
            Some((r, Ending::Done)) | Some((r, Ending::Continue)) => {
                lemma_rounds_run(store, body, r.left, less);
            },
            _ => {},
        }
    }
}

/// Position `end` is the first in the block that holds an instruction that ends a block.
spec fn is_first_end(body: FunctionBody, block: BasicBlockId, end: int) -> bool {
    let insts = body.order.blocks@[block.0 as int]@;
    &&& block.0 < body.order.blocks@.len()
    &&& 0 <= end < insts.len()
    &&& body.store.kind(insts[end]).ends_block()
    &&& forall|j: int| 0 <= j < end ==> !body.store.kind(#[trigger] insts[j]).ends_block()
}

proof fn lemma_first_end(body: FunctionBody, block: BasicBlockId, k: int) -> (end: int)
    requires
        block.0 < body.order.blocks@.len(),
        0 <= k < body.order.blocks@[block.0 as int]@.len(),
        body.store.kind(body.order.blocks@[block.0 as int]@[k]).ends_block(),
    ensures
        is_first_end(body, block, end),
    decreases k,
{
    let insts = body.order.blocks@[block.0 as int]@;
    if exists|j: int| 0 <= j < k && body.store.kind(#[trigger] insts[j]).ends_block() {
        let j = choose|j: int| 0 <= j < k && body.store.kind(#[trigger] insts[j]).ends_block();
        lemma_first_end(body, block, j)
    } else {
        k
    }
}

/// From position `k` on a block runs the instructions up to its end.
proof fn lemma_machine_line(
    body: FunctionBody,
    block: BasicBlockId,
    end: int,
    k: int,
    supply: Supply,
    fuel: nat,
)
    requires
        is_first_end(body, block, end),
        0 <= k <= end,
        fuel > 0,
    ensures
        ({
            let insts = body.store.insts@;
            let blocks = body.order.blocks@;
            let line = straight_line(body.store, blocks[block.0 as int]@.skip(k));
            machine_run(insts, blocks, block, k, supply, (fuel + (end - k)) as nat) == (
            if supply.events <= line.len() {
                Some(
                    Run {
                        trace: inst_events(line).take(supply.events as int),
                        left: supply.spent(line.len()),
                    },
                )
            } else {
                after(
                    inst_events(line),
                    machine_run(insts, blocks, block, end, supply.spent(line.len()), fuel),
                )
            })
        }),
    decreases end - k,
{
    let insts = body.store.insts@;
    let blocks = body.order.blocks@;
    let here = blocks[block.0 as int]@;
    let rest = here.skip(k);
    let line = straight_line(body.store, rest);
    let all = (fuel + (end - k)) as nat;
    if supply.events == 0 {
        assert(inst_events(line).take(0) =~= seq![]);
        assert(supply.spent(line.len()) == supply);
    } else if k == end {
        assert(rest[0] == here[end]);
        assert(line =~= Seq::<InstId>::empty());
        assert(supply.spent(0) == supply);
        assert(inst_events(line) =~= seq![]);
        if let Some(r) = machine_run(insts, blocks, block, end, supply, fuel) {
            assert(Seq::<Event>::empty() + r.trace =~= r.trace);
        }
    } else {
        assert(rest[0] == here[k]);
        assert(rest.drop_first() =~= here.skip(k + 1));
        assert(!body.store.kind(here[k]).ends_block());
        let next = straight_line(body.store, here.skip(k + 1));
        if body.store.kind(here[k]) is Nop {
            lemma_machine_line(body, block, end, k + 1, supply, fuel);
            assert((all - 1) as nat == (fuel + (end - (k + 1))) as nat);
        } else {
            let spent = Supply { outcomes: supply.outcomes, events: (supply.events - 1) as nat };
            lemma_machine_line(body, block, end, k + 1, spent, fuel);
            assert((all - 1) as nat == (fuel + (end - (k + 1))) as nat);
            let one = seq![Event::Run(here[k])];
            assert(line =~= seq![here[k]] + next);
            assert(inst_events(line) =~= one + inst_events(next));
            assert(spent.spent(next.len()) == supply.spent(line.len()));
            if supply.events <= line.len() {
                assert(one + inst_events(next).take(spent.events as int) =~= inst_events(
                    line,
                ).take(supply.events as int));
            } else {
                let left = supply.spent(line.len());
                if let Some(r) = machine_run(insts, blocks, block, end, left, fuel) {
                    assert(one + (inst_events(next) + r.trace) =~= inst_events(line) + r.trace);
                }
            }
        }
    }
}

/// Before it is at the end of a block a run has not ended, unless it was stopped.
proof fn lemma_machine_short(
    body: FunctionBody,
    block: BasicBlockId,
    end: int,
    k: int,
    supply: Supply,
    fuel: nat,
)
    requires
        is_first_end(body, block, end),
        0 <= k <= end,
        fuel <= end - k,
        supply.events > straight_line(
            body.store,
            body.order.blocks@[block.0 as int]@.skip(k),
        ).len(),
    ensures
        machine_run(body.store.insts@, body.order.blocks@, block, k, supply, fuel) is None,
    decreases fuel,
{
    if fuel > 0 {
        let here = body.order.blocks@[block.0 as int]@;
        let rest = here.skip(k);
        assert(rest[0] == here[k]);
        assert(rest.drop_first() =~= here.skip(k + 1));
        assert(!body.store.kind(here[k]).ends_block());
        let less = (fuel - 1) as nat;
        if body.store.kind(here[k]) is Nop {
            lemma_machine_short(body, block, end, k + 1, supply, less);
        } else {
            let spent = Supply { outcomes: supply.outcomes, events: (supply.events - 1) as nat };
            lemma_machine_short(body, block, end, k + 1, spent, less);
        }
    }
}

/// What blocks do, their instructions do one by one.
proof fn lemma_machine_does(
    body: FunctionBody,
    block: BasicBlockId,
    supply: Supply,
    fuel: nat,
    run: Run,
) -> (enough: nat)
    requires
        run_block(body, block, supply, fuel) == Some(run),
    ensures
        machine_run(body.store.insts@, body.order.blocks@, block, 0, supply, enough) == Some(run),
    decreases fuel,
{
    let insts = body.store.insts@;
    let blocks = body.order.blocks@;
    if supply.events == 0 {
        1
    } else {
        let here = blocks[block.0 as int]@;
        let last = here.last();
        let end = lemma_first_end(body, block, here.len() - 1);
        assert(here.skip(0) =~= here);
        let line = straight_line(body.store, here);
        let left = supply.spent(line.len());
        let less = (fuel - 1) as nat;
        if supply.events <= line.len() {
            lemma_machine_line(body, block, end, 0, supply, 1);
            (1 + end) as nat
        } else {
            match body.store.kind(last).targets() {
                BranchInfo::NotBranch => {
                    lemma_machine_line(body, block, end, 0, supply, 1);
                    assert(left.spent(1) == (Supply {
                        outcomes: left.outcomes,
                        events: (left.events - 1) as nat,
                    }));
                    assert(inst_events(line).push(Event::Run(last)) =~= inst_events(line) + seq![
                        Event::Run(last),
                    ]);
                    (1 + end) as nat
                },
                BranchInfo::Jump(dest) => {
                    let rest = run_block(body, dest, left, less)->0;
                    let f = lemma_machine_does(body, dest, left, less, rest);
                    lemma_machine_line(body, block, end, 0, supply, f + 1);
                    (f + 1 + end) as nat
                },
                BranchInfo::Branch(cond, then, else_) => {
                    if left.outcomes.len() == 0 {
                        lemma_machine_line(body, block, end, 0, supply, 1);
                        assert(inst_events(line) + Seq::<Event>::empty() =~= inst_events(line));
                        (1 + end) as nat
                    } else {
                        let dest = if left.outcomes[0] {
                            then
                        } else {
                            else_
                        };
                        let test = Event::Test(cond, left.outcomes[0]);
                        let rest = run_block(body, dest, left.tested(), less)->0;
                        let f = lemma_machine_does(body, dest, left.tested(), less, rest);
                        lemma_machine_line(body, block, end, 0, supply, f + 1);
                        assert(left.tested() == (Supply {
                            outcomes: left.outcomes.drop_first(),
                            events: (left.events - 1) as nat,
                        }));
                        assert(inst_events(line) + (seq![test] + rest.trace) =~= inst_events(
                            line,
                        ).push(test) + rest.trace);
                        (f + 1 + end) as nat
                    }
                },
            }
        }
    }
}

/// What instructions do one by one, their blocks do.
proof fn lemma_blocks_do(
    flow: FunctionFlow,
    block: BasicBlockId,
    supply: Supply,
    fuel: nat,
    run: Run,
)
    requires
        flow.wf(),
        flow.serializable(),
        is_reached(flow, block),
        machine_run(flow.body.store.insts@, flow.body.order.blocks@, block, 0, supply, fuel)
            == Some(run),
    ensures
        block_runs(flow.body, block, supply, run),
    decreases fuel,
{
    let body = flow.body;
    let insts = body.store.insts@;
    let blocks = body.order.blocks@;
    if supply.events == 0 {
        assert(run_block(body, block, supply, 1) == Some(run));
    } else {
        law_reached_blocks_end(flow, block);
        let here = blocks[block.0 as int]@;
        let last = here.last();
        let end = lemma_first_end(body, block, here.len() - 1);
        assert(here.skip(0) =~= here);
        let line = straight_line(body.store, here);
        let left = supply.spent(line.len());
        if supply.events <= line.len() {
            lemma_machine_line(body, block, end, 0, supply, fuel);
            lemma_machine_more(insts, blocks, block, 0, supply, fuel, (fuel + end) as nat);
            assert(run_block(body, block, supply, 1) == Some(run));
        } else if fuel <= end {
            lemma_machine_short(body, block, end, 0, supply, fuel);
        } else {
            let f = (fuel - end) as nat;
            let less = (f - 1) as nat;
            lemma_machine_line(body, block, end, 0, supply, f);
            match body.store.kind(last).targets() {
                BranchInfo::NotBranch => {
                    assert(left.spent(1) == (Supply {
                        outcomes: left.outcomes,
                        events: (left.events - 1) as nat,
                    }));
                    assert(inst_events(line).push(Event::Run(last)) =~= inst_events(line) + seq![
                        Event::Run(last),
                    ]);
                    assert(run_block(body, block, supply, 1) == Some(run));
                },
                BranchInfo::Jump(dest) => {
                    let rest = machine_run(insts, blocks, dest, 0, left, less)->0;
                    assert(goes_to(body, block, dest));
                    lemma_reached_next(flow, block, dest);
                    lemma_blocks_do(flow, dest, left, less, rest);
                    let g = choose|g: nat| #[trigger] run_block(body, dest, left, g) == Some(rest);
                    assert(run_block(body, block, supply, g + 1) == Some(run));
                },
                BranchInfo::Branch(cond, then, else_) => {
                    if left.outcomes.len() == 0 {
                        assert(inst_events(line) + Seq::<Event>::empty() =~= inst_events(line));
                        assert(run_block(body, block, supply, 1) == Some(run));
                    } else {
                        let dest = if left.outcomes[0] {
                            then
                        } else {
                            else_
                        };
                        let test = Event::Test(cond, left.outcomes[0]);
                        assert(left.tested() == (Supply {
                            outcomes: left.outcomes.drop_first(),
                            events: (left.events - 1) as nat,
                        }));
                        let rest = machine_run(insts, blocks, dest, 0, left.tested(), less)->0;
                        assert(goes_to(body, block, dest));
                        lemma_reached_next(flow, block, dest);
                        lemma_blocks_do(flow, dest, left.tested(), less, rest);
                        let g = choose|g: nat| #[trigger]
                            run_block(body, dest, left.tested(), g) == Some(rest);
                        assert(inst_events(line) + (seq![test] + rest.trace) =~= inst_events(
                            line,
                        ).push(test) + rest.trace);
                        assert(run_block(body, block, supply, g + 1) == Some(run));
                    }
                },
            }
        }
    }
}

/// More fuel does not change a run that ends.
proof fn lemma_machine_more(
    insts: Seq<InstKind>,
    blocks: Seq<Vec<InstId>>,
    block: BasicBlockId,
    k: int,
    supply: Supply,
    fuel: nat,
    more: nat,
)
    requires
        machine_run(insts, blocks, block, k, supply, fuel) is Some,
        fuel <= more,
    ensures
        machine_run(insts, blocks, block, k, supply, more) == machine_run(
            insts,
            blocks,
            block,
            k,
            supply,
            fuel,
        ),
    decreases fuel,
{
    if supply.events > 0 {
        let f = (fuel - 1) as nat;
        let m = (more - 1) as nat;
        let here = blocks[block.0 as int]@;
        let spent = Supply { outcomes: supply.outcomes, events: (supply.events - 1) as nat };
        match insts[here[k].0 as int] {
            InstKind::Nop => {
                lemma_machine_more(insts, blocks, block, k + 1, supply, f, m);
            },
            InstKind::Plain => {
                lemma_machine_more(insts, blocks, block, k + 1, spent, f, m);
            },
            _ => match insts[here[here.len() - 1].0 as int] {
                InstKind::Jump { dest } => {
                    lemma_machine_more(insts, blocks, dest, 0, supply, f, m);
                },
                InstKind::Branch { cond, then, else_ } => {
                    if supply.outcomes.len() > 0 {
                        let tested = Supply {
                            outcomes: supply.outcomes.drop_first(),
                            events: (supply.events - 1) as nat,
                        };
                        if supply.outcomes[0] {
                            lemma_machine_more(insts, blocks, then, 0, tested, f, m);
                        } else {
                            lemma_machine_more(insts, blocks, else_, 0, tested, f, m);
                        }
                    }
                },
                _ => {},
            },
        }
    }
}

/// The structured code of a function, run item by item, does what the stored
/// instructions of the function do, run one by one: whatever the conditions come
/// out as and after whatever number of events one looks, the same instructions
/// were run and the same conditions tested, in the same order, with the same
/// outcomes. So it is if no branch goes to where the conditional around it has
/// its branches meet while its own meet elsewhere.
pub proof fn law_code_does_the_same(
    flow: FunctionFlow,
    code: Seq<StructuralInst>,
    supply: Supply,
    run: Run,
)
    requires
        flow.wf(),
        flow.serializable(),
        merges_nest(flow, flow.start()),
        steps_of(code) == flow.serialized(),
    ensures
        machine_runs(
            flow.body.store.insts@,
            flow.body.order.blocks@,
            flow.cfg.entry,
            supply,
            run,
        ) <==> code_runs(flow.body.store.insts@, code, supply, run),
{
    let insts = flow.body.store.insts@;
    let blocks = flow.body.order.blocks@;
    let entry = flow.cfg.entry;
    law_same_runs(flow, supply, run);
    if machine_runs(insts, blocks, entry, supply, run) {
        let fuel = choose|fuel: nat| #[trigger]
            machine_run(insts, blocks, entry, 0, supply, fuel) == Some(run);
        assert(connects(flow.body, entry, entry, seq![entry]));
        lemma_blocks_do(flow, entry, supply, fuel, run);
    }
    if block_runs(flow.body, entry, supply, run) {
        let fuel = choose|fuel: nat| #[trigger]
            run_block(flow.body, entry, supply, fuel) == Some(run);
        let enough = lemma_machine_does(flow.body, entry, supply, fuel, run);
    }
    if code_runs(insts, code, supply, run) {
        let fuel = choose|fuel: nat| #[trigger]
            code_run(insts, code, supply, fuel) == Some((run, Ending::Stopped));
        lemma_code_run(flow.body.store, code, supply, fuel);
        assert(run_steps(flow.body.store, flow.serialized(), supply, fuel) == Some(
            (run, Ending::Stopped),
        ));
    }
    if steps_run(flow.body.store, flow.serialized(), supply, run, Ending::Stopped) {
        let fuel = choose|fuel: nat| #[trigger]
            run_steps(flow.body.store, flow.serialized(), supply, fuel) == Some(
                (run, Ending::Stopped),
            );
        lemma_code_run(flow.body.store, code, supply, fuel);
        assert(code_run(insts, code, supply, fuel) == Some((run, Ending::Stopped)));
    }
}

/// The same, of every function of whose control flow what is known is true.
pub proof fn law_true_tables_code_does_the_same(
    flow: FunctionFlow,
    rank: spec_fn(BasicBlockId) -> nat,
    code: Seq<StructuralInst>,
    supply: Supply,
    run: Run,
)
    requires
        flow.serializable(),
        tables_true(flow, rank),
        steps_of(code) == flow.serialized(),
    ensures
        machine_runs(
            flow.body.store.insts@,
            flow.body.order.blocks@,
            flow.cfg.entry,
            supply,
            run,
        ) <==> code_runs(flow.body.store.insts@, code, supply, run),
{
    law_true_tables_nest(flow, rank);
    law_code_does_the_same(flow, code, supply, run);
}

/// The code holds the instruction somewhere, however deep inside of an item.
pub open spec fn holds(code: Seq<StructuralInst>, inst: InstId) -> bool
    decreases code,
{
    exists|i: int| 0 <= i < code.len() && holds_in(#[trigger] code[i], inst)
}

/// The item is the instruction, or has it inside.
pub open spec fn holds_in(item: StructuralInst, inst: InstId) -> bool
    decreases item,
{
    match item {
        StructuralInst::Inst(other) => other == inst,
        StructuralInst::If { cond, then, else_ } => holds(then@, inst) || holds(else_@, inst),
        StructuralInst::For { body } => holds(body@, inst),
        _ => false,
    }
}

proof fn lemma_holds(code: Seq<StructuralInst>, inst: InstId)
    ensures
        holds(code, inst) <==> lists(steps_of(code), inst),
    decreases code,
{
    let steps = steps_of(code);
    law_code_stands_for_steps(code, 0);
    if holds(code, inst) {
        let i = choose|i: int| 0 <= i < code.len() && holds_in(#[trigger] code[i], inst);
        law_code_stands_for_steps(code, i);
        lemma_holds_in(code[i], inst);
        assert(lists_in(steps[i], inst));
    }
    if lists(steps, inst) {
        let i = choose|i: int| 0 <= i < steps.len() && lists_in(#[trigger] steps[i], inst);
        law_code_stands_for_steps(code, i);
        lemma_holds_in(code[i], inst);
        assert(holds_in(code[i], inst));
    }
}

proof fn lemma_holds_in(item: StructuralInst, inst: InstId)
    ensures
        holds_in(item, inst) <==> lists_in(item@, inst),
    decreases item,
{
    match item {
        StructuralInst::If { cond, then, else_ } => {
            lemma_holds(then@, inst);
            lemma_holds(else_@, inst);
        },
        StructuralInst::For { body } => {
            lemma_holds(body@, inst);
        },
        _ => {},
    }
}

/// The last instruction of the block with index `i` on the route goes to the next one.
pub open spec fn stored_hop(
    insts: Seq<InstKind>,
    blocks: Seq<Vec<InstId>>,
    route: Seq<BasicBlockId>,
    i: int,
) -> bool {
    let here = blocks[route[i].0 as int]@;
    &&& route[i].0 < blocks.len()
    &&& here.len() > 0
    &&& match insts[here[here.len() - 1].0 as int] {
        InstKind::Jump { dest } => dest == route[i + 1],
        InstKind::Branch { cond, then, else_ } => then == route[i + 1] || else_ == route[i + 1],
        _ => false,
    }
}

/// Control gets along the route from the start of a function to a block.
spec fn is_stored_route(flow: FunctionFlow, route: Seq<BasicBlockId>) -> bool {
    &&& route.len() > 0
    &&& route[0] == flow.cfg.entry
    &&& forall|i: int|
        0 <= i < route.len() - 1 ==> #[trigger] stored_hop(
            flow.body.store.insts@,
            flow.body.order.blocks@,
            route,
            i,
        )
}

proof fn lemma_stored_route(flow: FunctionFlow, route: Seq<BasicBlockId>)
    requires
        is_stored_route(flow, route),
    ensures
        is_reached(flow, route.last()),
{
    assert forall|i: int| 0 <= i < route.len() - 1 implies #[trigger] is_hop(
        flow.body,
        route,
        i,
    ) by {
        assert(stored_hop(flow.body.store.insts@, flow.body.order.blocks@, route, i));
    }
    assert(connects(flow.body, flow.cfg.entry, route.last(), route));
}

/// The structured code of a function holds every instruction that is stored as
/// one that computes something and that stands, before any that ends a block, in
/// a block to which control can get; and every one that leaves the function at
/// the end of such a block.
pub proof fn law_code_holds_reached(
    flow: FunctionFlow,
    code: Seq<StructuralInst>,
    route: Seq<BasicBlockId>,
    k: int,
)
    requires
        flow.wf(),
        flow.serializable(),
        steps_of(code) == flow.serialized(),
        route.len() > 0,
        route[0] == flow.cfg.entry,
        forall|i: int|
            0 <= i < route.len() - 1 ==> #[trigger] stored_hop(
                flow.body.store.insts@,
                flow.body.order.blocks@,
                route,
                i,
            ),
        0 <= k < flow.body.order.blocks@[route.last().0 as int]@.len(),
        forall|j: int|
            0 <= j < k ==> {
                let inst = #[trigger] flow.body.order.blocks@[route.last().0 as int]@[j];
                flow.body.store.insts@[inst.0 as int] is Nop
                    || flow.body.store.insts@[inst.0 as int] is Plain
            },
    ensures
        ({
            let here = flow.body.order.blocks@[route.last().0 as int]@;
            &&& flow.body.store.insts@[here[k].0 as int] is Plain ==> holds(code, here[k])
            &&& flow.body.store.insts@[here[here.len() - 1].0 as int] is Return ==> holds(
                code,
                here[here.len() - 1],
            )
        }),
{
    let block = route.last();
    let store = flow.body.store;
    lemma_stored_route(flow, route);
    law_reached_blocks_end(flow, block);
    let here = flow.body.order.blocks@[block.0 as int]@;
    assert(here == flow.body.order.insts_of(block));
    let last = here[here.len() - 1];
    if store.insts@[here[k].0 as int] is Plain {
        assert forall|i: int| 0 <= i < k implies !store.kind(#[trigger] here[i]).ends_block() by {}
        lemma_line_has(store, here, k);
        law_lists_reached(flow, block, here[k]);
        lemma_holds(code, here[k]);
    }
    if store.insts@[last.0 as int] is Return {
        assert(ends_function(flow.body, block, last));
        law_lists_reached(flow, block, last);
        lemma_holds(code, last);
    }
}

} // verus!
