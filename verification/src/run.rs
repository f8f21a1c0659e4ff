//! What happens when a function runs: block by block, or as structured code.
//!
//! A run is driven by the outcomes of the conditions that it tests. It goes on
//! until it leaves the function, or until it has to test a condition and there
//! is no outcome left. So that a run that never ends can be looked at, a run is
//! stopped after a given number of events.

use vstd::prelude::*;

use crate::flow::{inst_steps, straight_line};
use crate::ir::{BasicBlockId, BodyDataStore, BranchInfo, FunctionBody, InstId, ValueId};
use crate::steps::Step;

verus! {

/// Something that happens in a run.
pub enum Event {
    /// An instruction is run.
    Run(InstId),
    /// A condition is tested and comes out true or false.
    Test(ValueId, bool),
}

/// What a run has to go by: the outcomes of the conditions that it tests, one
/// after the other, and the number of events after which it is stopped.
pub struct Supply {
    pub outcomes: Seq<bool>,
    pub events: nat,
}

impl Supply {
    /// What is left after some events.
    pub open spec fn spent(self, count: nat) -> Supply {
        Supply {
            outcomes: self.outcomes,
            events: if count <= self.events {
                (self.events - count) as nat
            } else {
                0
            },
        }
    }

    /// What is left after a test.
    pub open spec fn tested(self) -> Supply {
        Supply { outcomes: self.outcomes.drop_first(), events: self.spent(1).events }
    }
}

/// What happened in a run, and what it has not used.
pub struct Run {
    pub trace: Seq<Event>,
    pub left: Supply,
}

/// How a run of structured code ended.
pub enum Ending {
    /// It came to the end of the code.
    Done,
    /// It came to a `Break` out of the loop around the code.
    Break,
    /// It came to a `Continue` of the loop around the code.
    Continue,
    /// It left the function, or had no outcome left, or was stopped.
    Stopped,
}

/// The events of running some instructions.
pub open spec fn inst_events(insts: Seq<InstId>) -> Seq<Event> {
    insts.map_values(|inst: InstId| Event::Run(inst))
}

/// `run` after some earlier events.
pub open spec fn after(earlier: Seq<Event>, run: Option<Run>) -> Option<Run> {
    match run {
        Some(r) => Some(Run { trace: earlier + r.trace, left: r.left }),
        None => None,
    }
}

/// The run from the start of `block`: `None` if it takes more than `fuel` blocks,
/// or comes to a block without an end.
pub open spec fn run_block(
    body: FunctionBody,
    block: BasicBlockId,
    supply: Supply,
    fuel: nat,
) -> Option<Run>
    decreases fuel,
{
    if fuel == 0 {
        None
    } else if supply.events == 0 {
        Some(Run { trace: seq![], left: supply })
    } else if let Some(end) = body.terminator_of(block) {
        let insts = straight_line(body.store, body.order.insts_of(block));
        let trace = inst_events(insts);
        let left = supply.spent(insts.len());
        if supply.events <= insts.len() {
            Some(Run { trace: trace.take(supply.events as int), left })
        } else {
            match body.store.kind(end).targets() {
                BranchInfo::NotBranch => Some(
                    Run { trace: trace.push(Event::Run(end)), left: left.spent(1) },
                ),
                BranchInfo::Jump(dest) => after(
                    trace,
                    run_block(body, dest, left, (fuel - 1) as nat),
                ),
                BranchInfo::Branch(cond, then, else_) => if left.outcomes.len() == 0 {
                    Some(Run { trace, left })
                } else {
                    after(
                        trace.push(Event::Test(cond, left.outcomes[0])),
                        run_block(
                            body,
                            if left.outcomes[0] {
                                then
                            } else {
                                else_
                            },
                            left.tested(),
                            (fuel - 1) as nat,
                        ),
                    )
                },
            }
        }
    } else {
        None
    }
}

/// A piece of structured code ran and ended, after some earlier events.
pub open spec fn ran_after(earlier: Seq<Event>, ran: Option<(Run, Ending)>) -> Option<
    (Run, Ending),
> {
    match ran {
        Some((r, ending)) => Some((Run { trace: earlier + r.trace, left: r.left }, ending)),
        None => None,
    }
}

/// The run of one step: `None` if a loop in it takes more than `fuel` rounds.
pub open spec fn run_step(
    store: BodyDataStore,
    step: Step,
    supply: Supply,
    fuel: nat,
) -> Option<(Run, Ending)>
    decreases fuel, step,
{
    match step {
        Step::Inst(inst) => Some(
            (
                Run { trace: seq![Event::Run(inst)], left: supply.spent(1) },
                if store.kind(inst) is Return || supply.spent(1).events == 0 {
                    Ending::Stopped
                } else {
                    Ending::Done
                },
            ),
        ),
        Step::If { cond, then, else_ } => if supply.outcomes.len() == 0 {
            Some((Run { trace: seq![], left: supply }, Ending::Stopped))
        } else {
            ran_after(
                seq![Event::Test(cond, supply.outcomes[0])],
                if supply.outcomes[0] {
                    run_steps(store, then, supply.tested(), fuel)
                } else {
                    run_steps(store, else_, supply.tested(), fuel)
                },
            )
        },
        Step::For { body } => run_loop(store, body, supply, fuel),
        Step::Break => Some((Run { trace: seq![], left: supply }, Ending::Break)),
        Step::Continue => Some((Run { trace: seq![], left: supply }, Ending::Continue)),
    }
}

/// The run of a list of steps.
pub open spec fn run_steps(
    store: BodyDataStore,
    steps: Seq<Step>,
    supply: Supply,
    fuel: nat,
) -> Option<(Run, Ending)>
    decreases fuel, steps,
{
    if supply.events == 0 {
        Some((Run { trace: seq![], left: supply }, Ending::Stopped))
    } else if steps.len() == 0 {
        Some((Run { trace: seq![], left: supply }, Ending::Done))
    } else {
        match run_step(store, steps[0], supply, fuel) {
            Some((r, Ending::Done)) => ran_after(
                r.trace,
                run_steps(store, steps.drop_first(), r.left, fuel),
            ),
            other => other,
        }
    }
}

/// The run of a loop whose body is `body`.
pub open spec fn run_loop(
    store: BodyDataStore,
    body: Seq<Step>,
    supply: Supply,
    fuel: nat,
) -> Option<(Run, Ending)>
    decreases fuel, body,
{
    if fuel == 0 {
        None
    } else {
        match run_steps(store, body, supply, (fuel - 1) as nat) {
            Some((r, Ending::Stopped)) => Some((r, Ending::Stopped)),
            Some((r, Ending::Break)) => Some((r, Ending::Done)),
            Some((r, _)) => ran_after(
                r.trace,
                run_loop(store, body, r.left, (fuel - 1) as nat),
            ),
            None => None,
        }
    }
}

/// A run from the start of `block` ends as `run`.
pub open spec fn block_runs(
    body: FunctionBody,
    block: BasicBlockId,
    supply: Supply,
    run: Run,
) -> bool {
    exists|fuel: nat| #[trigger] run_block(body, block, supply, fuel) == Some(run)
}

/// A run of `steps` ends as `run`, in the way that `ending` says.
pub open spec fn steps_run(
    store: BodyDataStore,
    steps: Seq<Step>,
    supply: Supply,
    run: Run,
    ending: Ending,
) -> bool {
    exists|fuel: nat| #[trigger] run_steps(store, steps, supply, fuel) == Some((run, ending))
}

/// More fuel does not change a run that ends.
pub proof fn lemma_block_fuel(
    body: FunctionBody,
    block: BasicBlockId,
    supply: Supply,
    fuel: nat,
    more: nat,
)
    requires
        run_block(body, block, supply, fuel) is Some,
        fuel <= more,
    ensures
        run_block(body, block, supply, more) == run_block(body, block, supply, fuel),
    decreases fuel,
{
    if let Some(end) = body.terminator_of(block) {
        let insts = straight_line(body.store, body.order.insts_of(block));
        let left = supply.spent(insts.len());
        if supply.events > insts.len() {
            match body.store.kind(end).targets() {
                BranchInfo::NotBranch => {},
                BranchInfo::Jump(dest) => {
                    lemma_block_fuel(body, dest, left, (fuel - 1) as nat, (more - 1) as nat);
                },
                BranchInfo::Branch(_, then, else_) => {
                    if left.outcomes.len() > 0 {
                        let dest = if left.outcomes[0] {
                            then
                        } else {
                            else_
                        };
                        lemma_block_fuel(
                            body,
                            dest,
                            left.tested(),
                            (fuel - 1) as nat,
                            (more - 1) as nat,
                        );
                    }
                },
            }
        }
    }
}

/// With the same supply a function runs in one way only.
pub proof fn law_one_block_run(
    body: FunctionBody,
    block: BasicBlockId,
    supply: Supply,
    run: Run,
    other: Run,
)
    requires
        block_runs(body, block, supply, run),
        block_runs(body, block, supply, other),
    ensures
        run == other,
{
    let f = choose|f: nat| #[trigger] run_block(body, block, supply, f) == Some(run);
    let g = choose|g: nat| #[trigger] run_block(body, block, supply, g) == Some(other);
    if f <= g {
        lemma_block_fuel(body, block, supply, f, g);
    } else {
        lemma_block_fuel(body, block, supply, g, f);
    }
}

/// More fuel does not change a run that ends.
pub proof fn lemma_step_fuel(
    store: BodyDataStore,
    step: Step,
    supply: Supply,
    fuel: nat,
    more: nat,
)
    requires
        run_step(store, step, supply, fuel) is Some,
        fuel <= more,
    ensures
        run_step(store, step, supply, more) == run_step(store, step, supply, fuel),
    decreases fuel, step,
{
    match step {
        Step::If { cond, then, else_ } => {
            if supply.outcomes.len() > 0 {
                if supply.outcomes[0] {
                    lemma_steps_fuel(store, then, supply.tested(), fuel, more);
                } else {
                    lemma_steps_fuel(store, else_, supply.tested(), fuel, more);
                }
            }
        },
        Step::For { body } => {
            lemma_loop_fuel(store, body, supply, fuel, more);
        },
        _ => {},
    }
}

/// More fuel does not change a run that ends.
pub proof fn lemma_steps_fuel(
    store: BodyDataStore,
    steps: Seq<Step>,
    supply: Supply,
    fuel: nat,
    more: nat,
)
    requires
        run_steps(store, steps, supply, fuel) is Some,
        fuel <= more,
    ensures
        run_steps(store, steps, supply, more) == run_steps(store, steps, supply, fuel),
    decreases fuel, steps,
{
    if supply.events > 0 && steps.len() > 0 {
        lemma_step_fuel(store, steps[0], supply, fuel, more);
        if let Some((r, Ending::Done)) = run_step(store, steps[0], supply, fuel) {
            lemma_steps_fuel(store, steps.drop_first(), r.left, fuel, more);
        }
    }
}

/// More fuel does not change a run that ends.
pub proof fn lemma_loop_fuel(
    store: BodyDataStore,
    body: Seq<Step>,
    supply: Supply,
    fuel: nat,
    more: nat,
)
    requires
        run_loop(store, body, supply, fuel) is Some,
        fuel <= more,
    ensures
        run_loop(store, body, supply, more) == run_loop(store, body, supply, fuel),
    decreases fuel, body,
{
    lemma_steps_fuel(store, body, supply, (fuel - 1) as nat, (more - 1) as nat);
    match run_steps(store, body, supply, (fuel - 1) as nat) {
        Some((r, Ending::Done)) | Some((r, Ending::Continue)) => {
            lemma_loop_fuel(store, body, r.left, (fuel - 1) as nat, (more - 1) as nat);
        },
        _ => {},
    }
}

/// With the same supply structured code runs and ends in one way only.
pub proof fn law_one_steps_run(
    store: BodyDataStore,
    steps: Seq<Step>,
    supply: Supply,
    run: Run,
    ending: Ending,
    other: Run,
    other_ending: Ending,
)
    requires
        steps_run(store, steps, supply, run, ending),
        steps_run(store, steps, supply, other, other_ending),
    ensures
        run == other,
        ending == other_ending,
{
    let f = choose|f: nat| #[trigger] run_steps(store, steps, supply, f) == Some((run, ending));
    let g = choose|g: nat| #[trigger]
        run_steps(store, steps, supply, g) == Some((other, other_ending));
    if f <= g {
        lemma_steps_fuel(store, steps, supply, f, g);
    } else {
        lemma_steps_fuel(store, steps, supply, g, f);
    }
}

/// A list of steps runs as its first part does, then, if that came to its end, as the rest does.
pub proof fn lemma_run_append(
    store: BodyDataStore,
    first: Seq<Step>,
    rest: Seq<Step>,
    supply: Supply,
    fuel: nat,
)
    ensures
        run_steps(store, first + rest, supply, fuel) == (match run_steps(
            store,
            first,
            supply,
            fuel,
        ) {
            Some((r, Ending::Done)) => ran_after(r.trace, run_steps(store, rest, r.left, fuel)),
            other => other,
        }),
    decreases first.len(),
{
    if supply.events == 0 {
    } else if first.len() == 0 {
        assert(first + rest =~= rest);
        if let Some((r, ending)) = run_steps(store, rest, supply, fuel) {
            assert(Seq::<Event>::empty() + r.trace =~= r.trace);
        }
    } else {
        assert((first + rest)[0] == first[0]);
        assert((first + rest).drop_first() =~= first.drop_first() + rest);
        if let Some((r, Ending::Done)) = run_step(store, first[0], supply, fuel) {
            lemma_run_append(store, first.drop_first(), rest, r.left, fuel);
            if let Some((s, Ending::Done)) = run_steps(store, first.drop_first(), r.left, fuel) {
                if let Some((t, ending)) = run_steps(store, rest, s.left, fuel) {
                    assert(r.trace + (s.trace + t.trace) =~= (r.trace + s.trace) + t.trace);
                }
            }
        }
    }
}

/// No instruction that is listed before the end of a block ends a block.
pub proof fn lemma_straight_line_plain(store: BodyDataStore, insts: Seq<InstId>)
    ensures
        forall|i: int|
            0 <= i < straight_line(store, insts).len() ==> !store.kind(
                #[trigger] straight_line(store, insts)[i],
            ).ends_block(),
    decreases insts.len(),
{
    if insts.len() > 0 {
        lemma_straight_line_plain(store, insts.drop_first());
    }
}

/// Instructions none of which ends a block run one after the other, until the
/// run is stopped.
pub proof fn lemma_run_insts(
    store: BodyDataStore,
    insts: Seq<InstId>,
    supply: Supply,
    fuel: nat,
)
    requires
        forall|i: int| 0 <= i < insts.len() ==> !store.kind(#[trigger] insts[i]).ends_block(),
    ensures
        run_steps(store, inst_steps(insts), supply, fuel) == Some(
            if supply.events <= insts.len() {
                (
                    Run {
                        trace: inst_events(insts).take(supply.events as int),
                        left: supply.spent(insts.len()),
                    },
                    Ending::Stopped,
                )
            } else {
                (
                    Run { trace: inst_events(insts), left: supply.spent(insts.len()) },
                    Ending::Done,
                )
            },
        ),
    decreases insts.len(),
{
    let trace = inst_events(insts);
    if supply.events == 0 {
        assert(trace.take(0) =~= seq![]);
        assert(supply.spent(insts.len()) == supply);
    } else if insts.len() == 0 {
        assert(trace =~= seq![]);
        assert(supply.spent(0) == supply);
    } else {
        let rest = insts.drop_first();
        let left = supply.spent(1);
        assert(inst_steps(insts).drop_first() =~= inst_steps(rest));
        assert forall|i: int| 0 <= i < rest.len() implies !store.kind(
            #[trigger] rest[i],
        ).ends_block() by {
            assert(rest[i] == insts[i + 1]);
        }
        lemma_run_insts(store, rest, left, fuel);
        assert(trace =~= seq![Event::Run(insts[0])] + inst_events(rest));
        assert(!store.kind(insts[0]).ends_block());
        assert(inst_steps(insts)[0] == Step::Inst(insts[0]));
        assert(left.spent(rest.len()) == supply.spent(insts.len()));
        let first = Run { trace: seq![Event::Run(insts[0])], left };
        let ending = if left.events == 0 {
            Ending::Stopped
        } else {
            Ending::Done
        };
        assert(run_step(store, inst_steps(insts)[0], supply, fuel) == Some((first, ending)));
        if supply.events == 1 {
            assert(trace.take(1) =~= seq![Event::Run(insts[0])]);
            assert(supply.spent(1) == supply.spent(insts.len()));
        } else if supply.events <= insts.len() {
            assert(trace.take(supply.events as int) =~= seq![Event::Run(insts[0])] + inst_events(
                rest,
            ).take(left.events as int));
        }
    }
}

/// Code that was not stopped has events left.
pub proof fn lemma_steps_left(
    store: BodyDataStore,
    steps: Seq<Step>,
    supply: Supply,
    fuel: nat,
)
    ensures
        run_steps(store, steps, supply, fuel) matches Some((run, ending)) ==> ending is Stopped
            || run.left.events > 0,
    decreases fuel, steps,
{
    if supply.events > 0 && steps.len() > 0 {
        lemma_step_left(store, steps[0], supply, fuel);
        if let Some((r, Ending::Done)) = run_step(store, steps[0], supply, fuel) {
            lemma_steps_left(store, steps.drop_first(), r.left, fuel);
        }
    }
}

/// A step that was not stopped has events left.
pub proof fn lemma_step_left(store: BodyDataStore, step: Step, supply: Supply, fuel: nat)
    requires
        supply.events > 0,
    ensures
        run_step(store, step, supply, fuel) matches Some((run, ending)) ==> ending is Stopped
            || run.left.events > 0,
    decreases fuel, step,
{
    match step {
        Step::If { cond, then, else_ } => {
            if supply.outcomes.len() > 0 {
                if supply.outcomes[0] {
                    lemma_steps_left(store, then, supply.tested(), fuel);
                } else {
                    lemma_steps_left(store, else_, supply.tested(), fuel);
                }
            }
        },
        Step::For { body } => {
            lemma_loop_left(store, body, supply, fuel);
        },
        _ => {},
    }
}

/// A loop that was not stopped has events left.
pub proof fn lemma_loop_left(
    store: BodyDataStore,
    body: Seq<Step>,
    supply: Supply,
    fuel: nat,
)
    ensures
        run_loop(store, body, supply, fuel) matches Some((run, ending)) ==> ending is Stopped
            || run.left.events > 0,
    decreases fuel, body,
{
    if fuel > 0 {
        lemma_steps_left(store, body, supply, (fuel - 1) as nat);
        match run_steps(store, body, supply, (fuel - 1) as nat) {
            Some((r, Ending::Done)) | Some((r, Ending::Continue)) => {
                lemma_loop_left(store, body, r.left, (fuel - 1) as nat);
            },
            _ => {},
        }
    }
}

} // verus!
