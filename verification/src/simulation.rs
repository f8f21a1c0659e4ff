//! The structured code of a function runs as the function does.

use vstd::prelude::*;

use crate::analysis::LoopId;
use crate::flow::{
    after_loop, dest_info, straight_line, unless_merge, FunctionFlow, TerminatorInfo,
};
use crate::ir::{BasicBlockId, BodyDataStore, BranchInfo, FunctionBody, ValueId};
use crate::run::{
    after, block_runs, inst_events, lemma_loop_fuel, lemma_loop_left, lemma_run_append,
    lemma_run_insts, lemma_step_left, lemma_steps_fuel, lemma_steps_left,
    lemma_straight_line_plain, run_block, run_loop, run_step, run_steps, steps_run, Ending, Event,
    Run, Supply,
};
use crate::scope::{Context, EnclosingLoop};
use crate::steps::Step;
use crate::walk::{
    dest_places, is_walk, lemma_visits_branch, lemma_visits_jump, lemma_visits_loop,
    lemma_walk_prepend, Place,
};

verus! {

/// A branch at `place` goes to where the conditional around it has its branches
/// meet, while its own branches meet elsewhere.
pub open spec fn crosses_merge(flow: FunctionFlow, place: Place) -> bool {
    let context = place.context;
    &&& flow.opened_loop(context, place.block) is None
    &&& flow.body.terminator_of(place.block) matches Some(end)
    &&& flow.body.store.kind(end).targets() matches BranchInfo::Branch(_, then, else_)
    &&& flow.pd_tree.has_block(place.block)
    &&& dest_info(context, then) is ToMergeBlock || dest_info(context, else_) is ToMergeBlock
    &&& flow.merge_of(context, place.block) matches Some(merge)
    &&& context.merge != Some(merge)
}

/// No branch that the listing of `place` visits crosses a merge.
pub open spec fn merges_nest(flow: FunctionFlow, place: Place) -> bool {
    forall|places: Seq<Place>| #[trigger]
        is_walk(flow, places) && places[0] == place ==> !crosses_merge(flow, places.last())
}

/// Where control goes on after code that is listed in `context` ended.
pub open spec fn goes_on_at(context: Context, ending: Ending) -> Option<BasicBlockId> {
    match ending {
        Ending::Done => context.merge,
        Ending::Break => match context.enclosing {
            Some(l) => l.exit,
            None => None,
        },
        Ending::Continue => match context.enclosing {
            Some(l) => Some(l.header),
            None => None,
        },
        Ending::Stopped => None,
    }
}

proof fn lemma_merges_nest_next(flow: FunctionFlow, place: Place, next: Place)
    requires
        merges_nest(flow, place),
        flow.visits(place, next),
    ensures
        merges_nest(flow, next),
{
    assert forall|places: Seq<Place>| #[trigger]
        is_walk(flow, places) && places[0] == next implies !crosses_merge(
        flow,
        places.last(),
    ) by {
        lemma_walk_prepend(flow, place, places);
        assert(!crosses_merge(flow, (seq![place] + places).last()));
    }
}

proof fn lemma_no_cross(flow: FunctionFlow, place: Place)
    requires
        merges_nest(flow, place),
    ensures
        !crosses_merge(flow, place),
{
    assert(is_walk(flow, seq![place]));
    assert(seq![place].last() == place);
}

/// What a run of the structured code of some code has to do with the run of the
/// code itself, which takes `fuel` blocks: they are the same, or the latter goes
/// on, for fewer than `fuel` blocks, where the ending of the former says.
pub open spec fn matches_run(
    body: FunctionBody,
    context: Context,
    run: Run,
    fuel: nat,
    part: Run,
    ending: Ending,
) -> bool {
    if ending is Stopped {
        part == run
    } else {
        goes_on_at(context, ending) matches Some(next) && exists|less: nat|
            less < fuel && after(part.trace, #[trigger] run_block(body, next, part.left, less))
                == Some(run)
    }
}

/// Where a run goes on does not depend on what happened before.
proof fn lemma_matches_after(
    body: FunctionBody,
    context: Context,
    earlier: Seq<Event>,
    run: Run,
    less: nat,
    fuel: nat,
    part: Run,
    ending: Ending,
)
    requires
        matches_run(body, context, run, less, part, ending),
        less <= fuel,
    ensures
        matches_run(
            body,
            context,
            Run { trace: earlier + run.trace, left: run.left },
            fuel,
            Run { trace: earlier + part.trace, left: part.left },
            ending,
        ),
{
    if !(ending is Stopped) {
        let next = goes_on_at(context, ending)->0;
        let l = choose|l: nat|
            l < less && after(part.trace, #[trigger] run_block(body, next, part.left, l)) == Some(
                run,
            );
        let r = run_block(body, next, part.left, l)->0;
        assert(earlier + (part.trace + r.trace) =~= (earlier + part.trace) + r.trace);
        assert(after(earlier + part.trace, run_block(body, next, part.left, l)) == Some(
            Run { trace: earlier + run.trace, left: run.left },
        ));
    }
}

/// Code that came to its end, and then other code.
proof fn lemma_steps_run_then(
    store: BodyDataStore,
    first: Seq<Step>,
    rest: Seq<Step>,
    supply: Supply,
    run: Run,
    next: Run,
    ending: Ending,
)
    requires
        steps_run(store, first, supply, run, Ending::Done),
        steps_run(store, rest, run.left, next, ending),
    ensures
        steps_run(
            store,
            first + rest,
            supply,
            Run { trace: run.trace + next.trace, left: next.left },
            ending,
        ),
{
    let f = choose|f: nat| #[trigger]
        run_steps(store, first, supply, f) == Some((run, Ending::Done));
    let g = choose|g: nat| #[trigger] run_steps(store, rest, run.left, g) == Some((next, ending));
    let m = if f <= g {
        g
    } else {
        f
    };
    lemma_steps_fuel(store, first, supply, f, m);
    lemma_steps_fuel(store, rest, run.left, g, m);
    lemma_run_append(store, first, rest, supply, m);
}

/// Code that ended before it came to its end, and then other code.
proof fn lemma_steps_run_early(
    store: BodyDataStore,
    first: Seq<Step>,
    rest: Seq<Step>,
    supply: Supply,
    run: Run,
    ending: Ending,
)
    requires
        steps_run(store, first, supply, run, ending),
        !(ending is Done),
    ensures
        steps_run(store, first + rest, supply, run, ending),
{
    let f = choose|f: nat| #[trigger] run_steps(store, first, supply, f) == Some((run, ending));
    lemma_run_append(store, first, rest, supply, f);
}

/// A single step runs as a list of one.
proof fn lemma_step_alone(
    store: BodyDataStore,
    step: Step,
    supply: Supply,
    fuel: nat,
    run: Run,
    ending: Ending,
)
    requires
        supply.events > 0,
        run_step(store, step, supply, fuel) == Some((run, ending)),
    ensures
        steps_run(store, seq![step], supply, run, ending),
{
    lemma_run_one(store, step, supply, fuel);
    assert(run_steps(store, seq![step], supply, fuel) == Some((run, ending)));
}

/// A conditional runs as the branch that its condition picks.
proof fn lemma_if_runs(
    store: BodyDataStore,
    cond: ValueId,
    then: Seq<Step>,
    else_: Seq<Step>,
    supply: Supply,
    run: Run,
    ending: Ending,
)
    requires
        supply.events > 0,
        supply.outcomes.len() > 0,
        steps_run(
            store,
            if supply.outcomes[0] {
                then
            } else {
                else_
            },
            supply.tested(),
            run,
            ending,
        ),
    ensures
        steps_run(
            store,
            seq![Step::If { cond, then, else_ }],
            supply,
            Run { trace: seq![Event::Test(cond, supply.outcomes[0])] + run.trace, left: run.left },
            ending,
        ),
{
    let branch = if supply.outcomes[0] {
        then
    } else {
        else_
    };
    let f = choose|f: nat| #[trigger]
        run_steps(store, branch, supply.tested(), f) == Some((run, ending));
    lemma_step_alone(
        store,
        Step::If { cond, then, else_ },
        supply,
        f,
        Run { trace: seq![Event::Test(cond, supply.outcomes[0])] + run.trace, left: run.left },
        ending,
    );
}

/// The code of a block before its end runs as the block does.
proof fn lemma_code_runs(flow: FunctionFlow, block: BasicBlockId, supply: Supply)
    ensures
        ({
            let insts = straight_line(flow.body.store, flow.body.order.insts_of(block));
            let trace = inst_events(insts);
            let left = supply.spent(insts.len());
            if supply.events <= insts.len() {
                steps_run(
                    flow.body.store,
                    flow.block_code(block),
                    supply,
                    Run { trace: trace.take(supply.events as int), left },
                    Ending::Stopped,
                )
            } else {
                steps_run(
                    flow.body.store,
                    flow.block_code(block),
                    supply,
                    Run { trace, left },
                    Ending::Done,
                )
            }
        }),
{
    let insts = straight_line(flow.body.store, flow.body.order.insts_of(block));
    lemma_straight_line_plain(flow.body.store, flow.body.order.insts_of(block));
    lemma_run_insts(flow.body.store, insts, supply, 0);
    assert(run_steps(flow.body.store, flow.block_code(block), supply, 0) is Some);
}

/// The listing of a block that opens no loop starts with the block's code.
proof fn lemma_code_first(flow: FunctionFlow, place: Place, depth: nat) -> (rest: Seq<Step>)
    requires
        flow.listing_at(place, depth) is Some,
        flow.opened_loop(place.context, place.block) is None,
    ensures
        flow.listing_at(place, depth)->0 == flow.block_code(place.block) + rest,
{
    let context = place.context;
    let code = flow.block_code(place.block);
    let d = (depth - 1) as nat;
    let end = flow.body.terminator_of(place.block)->0;
    match flow.body.store.kind(end).targets() {
        BranchInfo::NotBranch => {
            assert(code.push(Step::Inst(end)) =~= code + seq![Step::Inst(end)]);
            seq![Step::Inst(end)]
        },
        BranchInfo::Jump(dest) => flow.dest_listing(context, dest_info(context, dest), None, d)->0,
        BranchInfo::Branch(cond, then, else_) => flow.if_listing(
            context,
            cond,
            dest_info(context, then),
            dest_info(context, else_),
            flow.merge_of(context, place.block),
            d,
        )->0,
    }
}

/// A run that has no event left has stopped.
proof fn lemma_stopped_at_once(
    store: BodyDataStore,
    steps: Seq<Step>,
    supply: Supply,
)
    requires
        supply.events == 0,
    ensures
        steps_run(store, steps, supply, Run { trace: seq![], left: supply }, Ending::Stopped),
{
    assert(run_steps(store, steps, supply, 0) == Some(
        (Run { trace: seq![], left: supply }, Ending::Stopped),
    ));
}

/// A loop runs as `run`, and ends as `ending` says.
pub open spec fn loop_runs(
    store: BodyDataStore,
    body: Seq<Step>,
    supply: Supply,
    run: Run,
    ending: Ending,
) -> bool {
    exists|fuel: nat| #[trigger] run_loop(store, body, supply, fuel) == Some((run, ending))
}

/// A loop whose body does not end it goes on.
proof fn lemma_loop_goes_on(
    store: BodyDataStore,
    body: Seq<Step>,
    supply: Supply,
    run: Run,
    round: Ending,
    next: Run,
    ending: Ending,
)
    requires
        round is Done || round is Continue,
        steps_run(store, body, supply, run, round),
        loop_runs(store, body, run.left, next, ending),
    ensures
        loop_runs(
            store,
            body,
            supply,
            Run { trace: run.trace + next.trace, left: next.left },
            ending,
        ),
{
    let f = choose|f: nat| #[trigger] run_steps(store, body, supply, f) == Some((run, round));
    let g = choose|g: nat| #[trigger] run_loop(store, body, run.left, g) == Some((next, ending));
    let m = if f <= g {
        g
    } else {
        f
    };
    lemma_steps_fuel(store, body, supply, f, m);
    lemma_loop_fuel(store, body, run.left, g, m);
    assert(run_loop(store, body, supply, m + 1) == Some(
        (Run { trace: run.trace + next.trace, left: next.left }, ending),
    ));
}

/// The structured code of a place does what the blocks from that place on do.
proof fn lemma_forward(
    flow: FunctionFlow,
    place: Place,
    depth: nat,
    supply: Supply,
    fuel: nat,
) -> (res: (Run, Ending))
    requires
        merges_nest(flow, place),
        flow.listing_at(place, depth) is Some,
        run_block(flow.body, place.block, supply, fuel) is Some,
    ensures
        steps_run(
            flow.body.store,
            flow.listing_at(place, depth)->0,
            supply,
            res.0,
            res.1,
        ),
        matches_run(
            flow.body,
            place.context,
            run_block(flow.body, place.block, supply, fuel)->0,
            fuel,
            res.0,
            res.1,
        ),
    decreases fuel, depth, 0nat,
{
    let body = flow.body;
    let store = flow.body.store;
    let context = place.context;
    let block = place.block;
    let d = (depth - 1) as nat;
    let run = run_block(body, block, supply, fuel)->0;
    if supply.events == 0 {
        lemma_stopped_at_once(store, flow.listing_at(place, depth)->0, supply);
        (run, Ending::Stopped)
    } else if let Some(lp) = flow.opened_loop(context, block) {
        let l = flow.around_body(lp);
        let inner = Place { context: Context::in_loop(l), block };
        let steps = flow.listing_at(inner, d)->0;
        let rest = flow.rest_listing(context, after_loop(context, l.exit), d)->0;
        lemma_visits_loop(flow, place, lp);
        lemma_merges_nest_next(flow, place, inner);
        let (part, ending) = lemma_forward_loop(flow, lp, block, d, supply, fuel);
        let f = choose|f: nat| #[trigger]
            run_loop(store, steps, supply, f) == Some((part, ending));
        lemma_step_alone(store, Step::For { body: steps }, supply, f, part, ending);
        if ending is Stopped {
            lemma_steps_run_early(store, seq![Step::For { body: steps }], rest, supply, part, ending);
            (part, ending)
        } else {
            let exit = l.exit->0;
            let less = choose|less: nat|
                less < fuel && after(part.trace, #[trigger] run_block(body, exit, part.left, less))
                    == Some(run);
            lemma_forward_rest(
                flow,
                place,
                seq![Step::For { body: steps }],
                unless_merge(context.merge, exit),
                exit,
                d,
                supply,
                part,
                less,
                fuel,
            )
        }
    } else {
        let end = body.terminator_of(block)->0;
        let insts = straight_line(store, body.order.insts_of(block));
        let code = flow.block_code(block);
        let trace = inst_events(insts);
        let left = supply.spent(insts.len());
        lemma_code_runs(flow, block, supply);
        if supply.events <= insts.len() {
            let rest = lemma_code_first(flow, place, depth);
            lemma_steps_run_early(store, code, rest, supply, run, Ending::Stopped);
            (run, Ending::Stopped)
        } else {
            match store.kind(end).targets() {
                BranchInfo::NotBranch => {
                    let last = Run { trace: seq![Event::Run(end)], left: left.spent(1) };
                    lemma_step_alone(store, Step::Inst(end), left, 0, last, Ending::Stopped);
                    lemma_steps_run_then(
                        store,
                        code,
                        seq![Step::Inst(end)],
                        supply,
                        Run { trace, left },
                        last,
                        Ending::Stopped,
                    );
                    assert(code + seq![Step::Inst(end)] =~= code.push(Step::Inst(end)));
                    assert(trace + seq![Event::Run(end)] =~= trace.push(Event::Run(end)));
                    (run, Ending::Stopped)
                },
                BranchInfo::Jump(dest) => {
                    let f = (fuel - 1) as nat;
                    let rest = run_block(body, dest, left, f)->0;
                    lemma_visits_jump(flow, place, dest);
                    let (part, ending) = lemma_forward_dest(
                        flow,
                        place,
                        context,
                        dest,
                        None,
                        d,
                        left,
                        f,
                    );
                    let steps = flow.dest_listing(context, dest_info(context, dest), None, d)->0;
                    lemma_steps_run_then(
                        store,
                        code,
                        steps,
                        supply,
                        Run { trace, left },
                        part,
                        ending,
                    );
                    lemma_matches_after(body, context, trace, rest, fuel, fuel, part, ending);
                    (Run { trace: trace + part.trace, left: part.left }, ending)
                },
                BranchInfo::Branch(cond, then, else_) => {
                    lemma_forward_branch(flow, place, cond, then, else_, d, supply, fuel)
                },
            }
        }
    }
}

/// The structured code of a branch does what the blocks from that branch on do.
proof fn lemma_forward_branch(
    flow: FunctionFlow,
    place: Place,
    cond: ValueId,
    then: BasicBlockId,
    else_: BasicBlockId,
    d: nat,
    supply: Supply,
    fuel: nat,
) -> (res: (Run, Ending))
    requires
        merges_nest(flow, place),
        flow.opened_loop(place.context, place.block) is None,
        flow.body.terminator_of(place.block) matches Some(end)
            && flow.body.store.kind(end).targets() == BranchInfo::Branch(cond, then, else_),
        flow.listing_at(place, d + 1) is Some,
        run_block(flow.body, place.block, supply, fuel) is Some,
        supply.events > straight_line(
            flow.body.store,
            flow.body.order.insts_of(place.block),
        ).len(),
    ensures
        steps_run(
            flow.body.store,
            flow.listing_at(place, d + 1)->0,
            supply,
            res.0,
            res.1,
        ),
        matches_run(
            flow.body,
            place.context,
            run_block(flow.body, place.block, supply, fuel)->0,
            fuel,
            res.0,
            res.1,
        ),
    decreases fuel, d, 2nat,
{
    let body = flow.body;
    let store = flow.body.store;
    let context = place.context;
    let block = place.block;
    let run = run_block(body, block, supply, fuel)->0;
    let code = flow.block_code(block);
    let insts = straight_line(store, body.order.insts_of(block));
    let trace = inst_events(insts);
    let left = supply.spent(insts.len());
    lemma_code_runs(flow, block, supply);
    let merge = flow.merge_of(context, block);
    let inner = context.in_if(merge);
    let t = dest_info(context, then);
    let e = dest_info(context, else_);
    assert(flow.if_listing(context, cond, t, e, merge, d) is Some);
    let then_steps = flow.dest_listing(inner, t, merge, d)->0;
    let else_steps = flow.dest_listing(inner, e, merge, d)->0;
    let rest_steps = flow.rest_listing(context, merge, d)->0;
    let step = Step::If { cond, then: then_steps, else_: else_steps };
    lemma_visits_branch(flow, place, cond, then, else_);
    let first = code + seq![step];
    let listed = flow.listing_at(place, d + 1)->0;
    assert(listed =~= first + rest_steps);
    if left.outcomes.len() == 0 {
        let none = Run { trace: seq![], left };
        lemma_step_alone(store, step, left, 0, none, Ending::Stopped);
        lemma_steps_run_then(
            store,
            code,
            seq![step],
            supply,
            Run { trace, left },
            none,
            Ending::Stopped,
        );
        assert(trace + none.trace =~= trace);
        lemma_steps_run_early(store, first, rest_steps, supply, run, Ending::Stopped);
        (run, Ending::Stopped)
    } else {
        let dest = if left.outcomes[0] {
            then
        } else {
            else_
        };
        let f = (fuel - 1) as nat;
        let test = seq![Event::Test(cond, left.outcomes[0])];
        let earlier = trace + test;
        assert(earlier =~= trace.push(Event::Test(cond, left.outcomes[0])));
        let branch = run_block(body, dest, left.tested(), f)->0;
        let (part, ending) = if left.tested().events == 0 {
            lemma_stopped_at_once(store, then_steps, left.tested());
            lemma_stopped_at_once(store, else_steps, left.tested());
            (branch, Ending::Stopped)
        } else {
            lemma_forward_dest(flow, place, inner, dest, merge, d, left.tested(), f)
        };
        lemma_if_runs(store, cond, then_steps, else_steps, left, part, ending);
        let whole = Run { trace: earlier + part.trace, left: part.left };
        assert(trace + (test + part.trace) =~= earlier + part.trace);
        lemma_steps_run_then(
            store,
            code,
            seq![step],
            supply,
            Run { trace, left },
            Run { trace: test + part.trace, left: part.left },
            ending,
        );
        assert(steps_run(store, first, supply, whole, ending));
        if !(ending is Done) {
            lemma_steps_run_early(store, first, rest_steps, supply, whole, ending);
            lemma_matches_after(body, inner, earlier, branch, fuel, fuel, part, ending);
            (whole, ending)
        } else if dest_info(context, dest) is ToMergeBlock {
            lemma_no_cross(flow, place);
            assert(whole.trace =~= earlier);
            lemma_forward_rest(
                flow,
                place,
                first,
                merge,
                dest,
                d,
                supply,
                whole,
                f,
                fuel,
            )
        } else {
            let next = inner.merge->0;
            lemma_matches_after(body, inner, earlier, branch, fuel, fuel, part, ending);
            let less = choose|less: nat|
                less < fuel && after(
                    whole.trace,
                    #[trigger] run_block(body, next, whole.left, less),
                ) == Some(run);
            lemma_forward_rest(
                flow,
                place,
                first,
                merge,
                next,
                d,
                supply,
                whole,
                less,
                fuel,
            )
        }
    }
}

/// Code that came to its end and goes on at `next`, which is listed right after
/// it unless the conditional around it has its branches meet there.
proof fn lemma_forward_rest(
    flow: FunctionFlow,
    place: Place,
    first: Seq<Step>,
    listed: Option<BasicBlockId>,
    next: BasicBlockId,
    depth: nat,
    supply: Supply,
    part: Run,
    less: nat,
    fuel: nat,
) -> (res: (Run, Ending))
    requires
        merges_nest(flow, place),
        less < fuel,
        steps_run(flow.body.store, first, supply, part, Ending::Done),
        flow.rest_listing(place.context, listed, depth) is Some,
        match listed {
            Some(b) => b == next && flow.visits(place, Place { context: place.context, block: b }),
            None => place.context.merge == Some(next),
        },
        run_block(flow.body, next, part.left, less) is Some,
    ensures
        steps_run(
            flow.body.store,
            first + flow.rest_listing(place.context, listed, depth)->0,
            supply,
            res.0,
            res.1,
        ),
        matches_run(
            flow.body,
            place.context,
            after(part.trace, run_block(flow.body, next, part.left, less))->0,
            fuel,
            res.0,
            res.1,
        ),
    decreases less, depth, 1nat,
{
    let body = flow.body;
    let context = place.context;
    match listed {
        Some(b) => {
            let at = Place { context, block: b };
            lemma_merges_nest_next(flow, place, at);
            let run = run_block(body, next, part.left, less)->0;
            let (rest, ending) = lemma_forward(flow, at, depth, part.left, less);
            lemma_steps_run_then(
                body.store,
                first,
                flow.listing_at(at, depth)->0,
                supply,
                part,
                rest,
                ending,
            );
            lemma_matches_after(body, context, part.trace, run, less, fuel, rest, ending);
            (Run { trace: part.trace + rest.trace, left: rest.left }, ending)
        },
        None => {
            assert(first + Seq::<Step>::empty() =~= first);
            (part, Ending::Done)
        },
    }
}

/// The structured code of a jump does what the blocks from its destination on do.
proof fn lemma_forward_dest(
    flow: FunctionFlow,
    place: Place,
    inner: Context,
    dest: BasicBlockId,
    merge: Option<BasicBlockId>,
    depth: nat,
    supply: Supply,
    fuel: nat,
) -> (res: (Run, Ending))
    requires
        merges_nest(flow, place),
        inner.enclosing == place.context.enclosing,
        merge is None || merge == inner.merge,
        forall|i: int|
            0 <= i < dest_places(inner, dest_info(place.context, dest), merge).len()
                ==> flow.visits(
                place,
                #[trigger] dest_places(inner, dest_info(place.context, dest), merge)[i],
            ),
        flow.dest_listing(inner, dest_info(place.context, dest), merge, depth) is Some,
        run_block(flow.body, dest, supply, fuel) is Some,
        supply.events > 0,
    ensures
        steps_run(
            flow.body.store,
            flow.dest_listing(inner, dest_info(place.context, dest), merge, depth)->0,
            supply,
            res.0,
            res.1,
        ),
        if dest_info(place.context, dest) is ToMergeBlock {
            &&& res.1 is Done
            &&& res.0 == (Run { trace: seq![], left: supply })
            &&& place.context.merge == Some(dest)
        } else {
            matches_run(
                flow.body,
                inner,
                run_block(flow.body, dest, supply, fuel)->0,
                fuel + 1,
                res.0,
                res.1,
            )
        },
    decreases fuel, depth, 1nat,
{
    let body = flow.body;
    let info = dest_info(place.context, dest);
    let run = run_block(body, dest, supply, fuel)->0;
    let none = Run { trace: seq![], left: supply };
    assert(none.trace + run.trace =~= run.trace);
    assert(after(none.trace, run_block(body, dest, none.left, fuel)) == Some(run));
    match info {
        TerminatorInfo::Break => {
            lemma_step_alone(body.store, Step::Break, supply, 0, none, Ending::Break);
            (none, Ending::Break)
        },
        TerminatorInfo::Continue => {
            lemma_step_alone(body.store, Step::Continue, supply, 0, none, Ending::Continue);
            (none, Ending::Continue)
        },
        TerminatorInfo::FallThrough(b) => {
            assert(flow.rest_listing(inner, unless_merge(merge, dest), depth) is Some);
            if merge == Some(dest) {
                assert(run_steps(body.store, seq![], supply, 0) == Some((none, Ending::Done)));
                (none, Ending::Done)
            } else {
                let at = Place { context: inner, block: dest };
                assert(dest_places(inner, info, merge)[0] == at);
                lemma_merges_nest_next(flow, place, at);
                let (part, ending) = lemma_forward(flow, at, depth, supply, fuel);
                lemma_matches_after(body, inner, seq![], run, fuel, fuel + 1, part, ending);
                assert(Seq::<Event>::empty() + part.trace =~= part.trace);
                (part, ending)
            }
        },
        _ => {
            assert(run_steps(body.store, seq![], supply, 0) == Some((none, Ending::Done)));
            (none, Ending::Done)
        },
    }
}

/// A loop does what the blocks from its header on do.
#[verifier::spinoff_prover]
proof fn lemma_forward_loop(
    flow: FunctionFlow,
    lp: LoopId,
    header: BasicBlockId,
    depth: nat,
    supply: Supply,
    fuel: nat,
) -> (res: (Run, Ending))
    requires
        header == flow.loop_tree.header_of(lp),
        merges_nest(
            flow,
            Place { context: Context::in_loop(flow.around_body(lp)), block: header },
        ),
        flow.listing(Context::in_loop(flow.around_body(lp)), header, depth) is Some,
        run_block(flow.body, header, supply, fuel) is Some,
    ensures
        loop_runs(
            flow.body.store,
            flow.listing(Context::in_loop(flow.around_body(lp)), header, depth)->0,
            supply,
            res.0,
            res.1,
        ),
        if res.1 is Stopped {
            run_block(flow.body, header, supply, fuel) == Some(res.0)
        } else {
            &&& res.1 is Done
            &&& flow.loop_exit(lp) matches Some(exit)
            &&& exists|less: nat|
                less < fuel && after(
                    res.0.trace,
                    #[trigger] run_block(flow.body, exit, res.0.left, less),
                ) == run_block(flow.body, header, supply, fuel)
        },
    decreases fuel, depth, 1nat,
{
    let body = flow.body;
    let l = flow.around_body(lp);
    let context = Context::in_loop(l);
    let place = Place { context, block: header };
    let steps = flow.listing_at(place, depth)->0;
    let run = run_block(body, header, supply, fuel)->0;
    let (part, ending) = lemma_forward(flow, place, depth, supply, fuel);
    let f = choose|f: nat| #[trigger]
        run_steps(body.store, steps, supply, f) == Some((part, ending));
    match ending {
        Ending::Continue => {
            let less = choose|less: nat|
                less < fuel && after(
                    part.trace,
                    #[trigger] run_block(body, header, part.left, less),
                ) == Some(run);
            let (next, last) = lemma_forward_loop(flow, lp, header, depth, part.left, less);
            lemma_loop_goes_on(body.store, steps, supply, part, ending, next, last);
            let whole = Run { trace: part.trace + next.trace, left: next.left };
            let onward = run_block(body, header, part.left, less);
            assert(after(part.trace, onward) == Some(run));
            if last is Stopped {
                assert(onward == Some(next));
                assert(whole == run);
            } else {
                let exit = l.exit->0;
                assert(flow.loop_exit(lp) == Some(exit));
                let least = choose|least: nat|
                    least < less && after(
                        next.trace,
                        #[trigger] run_block(body, exit, next.left, least),
                    ) == onward;
                let end = run_block(body, exit, next.left, least);
                assert(after(next.trace, end) == onward);
                let r = end->0;
                assert((part.trace + next.trace) + r.trace =~= part.trace + (next.trace
                    + r.trace));
                assert(least < fuel);
                assert(after(whole.trace, run_block(body, exit, whole.left, least)) == Some(run));
            }
            (whole, last)
        },
        Ending::Break => {
            assert(run_loop(body.store, steps, supply, f + 1) == Some((part, Ending::Done)));
            (part, Ending::Done)
        },
        Ending::Stopped => {
            assert(run_loop(body.store, steps, supply, f + 1) == Some((part, Ending::Stopped)));
            (part, Ending::Stopped)
        },
        Ending::Done => {
            assert(false);
            (part, ending)
        },
    }
}

/// Whatever run there is from `next` on, the run from `block` on is `trace` and then that.
pub open spec fn leads_to(
    body: FunctionBody,
    block: BasicBlockId,
    supply: Supply,
    trace: Seq<Event>,
    next: BasicBlockId,
    left: Supply,
) -> bool {
    forall|run: Run| #[trigger]
        block_runs(body, next, left, run) ==> block_runs(
            body,
            block,
            supply,
            Run { trace: trace + run.trace, left: run.left },
        )
}

/// What the run of a block has to do with a run of its structured code: they
/// are the same, or the former goes on where the ending of the latter says.
pub open spec fn resumes(
    body: FunctionBody,
    block: BasicBlockId,
    supply: Supply,
    context: Context,
    part: Run,
    ending: Ending,
) -> bool {
    if ending is Stopped {
        block_runs(body, block, supply, part)
    } else {
        goes_on_at(context, ending) matches Some(next) && leads_to(
            body,
            block,
            supply,
            part.trace,
            next,
            part.left,
        )
    }
}

proof fn lemma_resumes_after(
    body: FunctionBody,
    block: BasicBlockId,
    supply: Supply,
    earlier: Seq<Event>,
    next: BasicBlockId,
    left: Supply,
    context: Context,
    part: Run,
    ending: Ending,
)
    requires
        leads_to(body, block, supply, earlier, next, left),
        resumes(body, next, left, context, part, ending),
    ensures
        resumes(
            body,
            block,
            supply,
            context,
            Run { trace: earlier + part.trace, left: part.left },
            ending,
        ),
{
    if !(ending is Stopped) {
        let last = goes_on_at(context, ending)->0;
        assert forall|run: Run| #[trigger] block_runs(body, last, part.left, run) implies block_runs(
            body,
            block,
            supply,
            Run { trace: (earlier + part.trace) + run.trace, left: run.left },
        ) by {
            let r = Run { trace: part.trace + run.trace, left: run.left };
            assert(block_runs(body, next, left, r));
            assert(earlier + r.trace =~= (earlier + part.trace) + run.trace);
        }
    }
}

/// A block that ends in a jump leads to where that goes.
proof fn lemma_jump_leads(
    body: FunctionBody,
    block: BasicBlockId,
    supply: Supply,
    dest: BasicBlockId,
)
    requires
        body.terminator_of(block) matches Some(end) && body.store.kind(end).targets()
            == BranchInfo::Jump(dest),
        supply.events > straight_line(body.store, body.order.insts_of(block)).len(),
    ensures
        leads_to(
            body,
            block,
            supply,
            inst_events(straight_line(body.store, body.order.insts_of(block))),
            dest,
            supply.spent(straight_line(body.store, body.order.insts_of(block)).len()),
        ),
{
    let insts = straight_line(body.store, body.order.insts_of(block));
    let trace = inst_events(insts);
    let left = supply.spent(insts.len());
    assert forall|run: Run| #[trigger] block_runs(body, dest, left, run) implies block_runs(
        body,
        block,
        supply,
        Run { trace: trace + run.trace, left: run.left },
    ) by {
        let f = choose|f: nat| #[trigger] run_block(body, dest, left, f) == Some(run);
        assert(run_block(body, block, supply, f + 1) == after(
            trace,
            run_block(body, dest, left, f),
        ));
    }
}

/// A block that ends in a branch leads to where the outcome of its condition says.
proof fn lemma_branch_leads(
    body: FunctionBody,
    block: BasicBlockId,
    supply: Supply,
    cond: ValueId,
    then: BasicBlockId,
    else_: BasicBlockId,
)
    requires
        supply.outcomes.len() > 0,
        body.terminator_of(block) matches Some(end) && body.store.kind(end).targets()
            == BranchInfo::Branch(cond, then, else_),
        supply.events > straight_line(body.store, body.order.insts_of(block)).len(),
    ensures
        leads_to(
            body,
            block,
            supply,
            inst_events(straight_line(body.store, body.order.insts_of(block))).push(
                Event::Test(cond, supply.outcomes[0]),
            ),
            if supply.outcomes[0] {
                then
            } else {
                else_
            },
            supply.spent(straight_line(body.store, body.order.insts_of(block)).len()).tested(),
        ),
{
    let insts = straight_line(body.store, body.order.insts_of(block));
    let trace = inst_events(insts).push(Event::Test(cond, supply.outcomes[0]));
    let dest = if supply.outcomes[0] {
        then
    } else {
        else_
    };
    let left = supply.spent(insts.len()).tested();
    assert forall|run: Run| #[trigger] block_runs(body, dest, left, run) implies block_runs(
        body,
        block,
        supply,
        Run { trace: trace + run.trace, left: run.left },
    ) by {
        let f = choose|f: nat| #[trigger] run_block(body, dest, left, f) == Some(run);
        assert(run_block(body, block, supply, f + 1) == after(
            trace,
            run_block(body, dest, left, f),
        ));
    }
}

/// A list of one step runs as that step does.
proof fn lemma_run_one(store: BodyDataStore, step: Step, supply: Supply, fuel: nat)
    requires
        supply.events > 0,
    ensures
        run_steps(store, seq![step], supply, fuel) == run_step(store, step, supply, fuel),
{
    assert(seq![step].drop_first() =~= Seq::<Step>::empty());
    lemma_step_left(store, step, supply, fuel);
    if let Some((r, Ending::Done)) = run_step(store, step, supply, fuel) {
        assert(r.trace + Seq::<Event>::empty() =~= r.trace);
        assert(run_steps(store, Seq::<Step>::empty(), r.left, fuel) == Some(
            (Run { trace: seq![], left: r.left }, Ending::Done),
        ));
    }
}

/// The blocks from a place on do what the structured code of that place does.
proof fn lemma_backward(
    flow: FunctionFlow,
    place: Place,
    depth: nat,
    supply: Supply,
    fuel: nat,
    run: Run,
    ending: Ending,
)
    requires
        merges_nest(flow, place),
        flow.listing_at(place, depth) is Some,
        run_steps(flow.body.store, flow.listing_at(place, depth)->0, supply, fuel) == Some(
            (run, ending),
        ),
    ensures
        resumes(flow.body, place.block, supply, place.context, run, ending),
    decreases fuel, depth, 0nat,
{
    let body = flow.body;
    let store = flow.body.store;
    let context = place.context;
    let block = place.block;
    let d = (depth - 1) as nat;
    let steps = flow.listing_at(place, depth)->0;
    if supply.events == 0 {
        assert(run_block(body, block, supply, 1) == Some(run));
    } else if let Some(lp) = flow.opened_loop(context, block) {
        let l = flow.around_body(lp);
        let inner = Place { context: Context::in_loop(l), block };
        let round = flow.listing_at(inner, d)->0;
        let rest = flow.rest_listing(context, after_loop(context, l.exit), d)->0;
        lemma_visits_loop(flow, place, lp);
        lemma_merges_nest_next(flow, place, inner);
        lemma_run_append(store, seq![Step::For { body: round }], rest, supply, fuel);
        lemma_run_one(store, Step::For { body: round }, supply, fuel);
        let (part, end) = run_loop(store, round, supply, fuel)->0;
        lemma_backward_loop(flow, lp, block, d, supply, fuel, part, end);
        if end is Done {
            let exit = l.exit->0;
            let (last, e) = run_steps(store, rest, part.left, fuel)->0;
            lemma_loop_left(store, round, supply, fuel);
            lemma_backward_rest(
                flow,
                place,
                unless_merge(context.merge, exit),
                exit,
                d,
                part.left,
                fuel,
                last,
                e,
            );
            lemma_resumes_after(
                body,
                block,
                supply,
                part.trace,
                exit,
                part.left,
                context,
                last,
                e,
            );
        }
    } else {
        let end = body.terminator_of(block)->0;
        let insts = straight_line(store, body.order.insts_of(block));
        let code = flow.block_code(block);
        let trace = inst_events(insts);
        let left = supply.spent(insts.len());
        lemma_straight_line_plain(store, body.order.insts_of(block));
        lemma_run_insts(store, insts, supply, fuel);
        if supply.events <= insts.len() {
            let rest = lemma_code_first(flow, place, depth);
            lemma_run_append(store, code, rest, supply, fuel);
            assert(run_block(body, block, supply, 1) == Some(run));
        } else {
            match store.kind(end).targets() {
                BranchInfo::NotBranch => {
                    assert(code.push(Step::Inst(end)) =~= code + seq![Step::Inst(end)]);
                    lemma_run_append(store, code, seq![Step::Inst(end)], supply, fuel);
                    lemma_run_one(store, Step::Inst(end), left, fuel);
                    assert(trace + seq![Event::Run(end)] =~= trace.push(Event::Run(end)));
                    assert(run_block(body, block, supply, 1) == Some(run));
                },
                BranchInfo::Jump(dest) => {
                    let rest = flow.dest_listing(context, dest_info(context, dest), None, d)->0;
                    lemma_run_append(store, code, rest, supply, fuel);
                    let (part, e) = run_steps(store, rest, left, fuel)->0;
                    lemma_visits_jump(flow, place, dest);
                    lemma_backward_dest(flow, place, context, dest, None, d, left, fuel, part, e);
                    if dest_info(context, dest) is ToMergeBlock {
                        lemma_leads_to_self(body, dest, left);
                    }
                    lemma_jump_leads(body, block, supply, dest);
                    lemma_resumes_after(
                        body,
                        block,
                        supply,
                        trace,
                        dest,
                        left,
                        context,
                        part,
                        e,
                    );
                },
                BranchInfo::Branch(cond, then, else_) => {
                    lemma_backward_branch(
                        flow,
                        place,
                        cond,
                        then,
                        else_,
                        d,
                        supply,
                        fuel,
                        run,
                        ending,
                    );
                },
            }
        }
    }
}

/// The blocks from a branch on do what the structured code of the branch does.
proof fn lemma_backward_branch(
    flow: FunctionFlow,
    place: Place,
    cond: ValueId,
    then: BasicBlockId,
    else_: BasicBlockId,
    d: nat,
    supply: Supply,
    fuel: nat,
    run: Run,
    ending: Ending,
)
    requires
        merges_nest(flow, place),
        flow.opened_loop(place.context, place.block) is None,
        flow.body.terminator_of(place.block) matches Some(end)
            && flow.body.store.kind(end).targets() == BranchInfo::Branch(cond, then, else_),
        flow.listing_at(place, d + 1) is Some,
        run_steps(flow.body.store, flow.listing_at(place, d + 1)->0, supply, fuel) == Some(
            (run, ending),
        ),
        supply.events > straight_line(
            flow.body.store,
            flow.body.order.insts_of(place.block),
        ).len(),
    ensures
        resumes(flow.body, place.block, supply, place.context, run, ending),
    decreases fuel, d, 2nat,
{
    let body = flow.body;
    let store = flow.body.store;
    let context = place.context;
    let block = place.block;
    let insts = straight_line(store, body.order.insts_of(block));
    let code = flow.block_code(block);
    let trace = inst_events(insts);
    let after_code = supply.spent(insts.len());
    lemma_straight_line_plain(store, body.order.insts_of(block));
    lemma_run_insts(store, insts, supply, fuel);
    let merge = flow.merge_of(context, block);
    let inner = context.in_if(merge);
    let t = dest_info(context, then);
    let e = dest_info(context, else_);
    assert(flow.if_listing(context, cond, t, e, merge, d) is Some);
    let then_steps = flow.dest_listing(inner, t, merge, d)->0;
    let else_steps = flow.dest_listing(inner, e, merge, d)->0;
    let rest = flow.rest_listing(context, merge, d)->0;
    let step = Step::If { cond, then: then_steps, else_: else_steps };
    lemma_visits_branch(flow, place, cond, then, else_);
    lemma_run_append(store, code, seq![step] + rest, supply, fuel);
    lemma_run_append(store, seq![step], rest, after_code, fuel);
    lemma_run_one(store, step, after_code, fuel);
    if supply.outcomes.len() == 0 {
        assert(run.trace =~= trace);
        assert(run_block(body, block, supply, 1) == Some(run));
    } else {
        let (branch, dest) = if supply.outcomes[0] {
            (then_steps, then)
        } else {
            (else_steps, else_)
        };
        let left = after_code.tested();
        let test = seq![Event::Test(cond, supply.outcomes[0])];
        let earlier = trace.push(Event::Test(cond, supply.outcomes[0]));
        assert(earlier =~= trace + test);
        lemma_branch_leads(body, block, supply, cond, then, else_);
        let (part, end) = run_steps(store, branch, left, fuel)->0;
        if left.events == 0 {
            assert(run_block(body, dest, left, 1) == Some(part));
        } else {
            lemma_backward_dest(
                flow,
                place,
                inner,
                dest,
                merge,
                d,
                left,
                fuel,
                part,
                end,
            );
        }
        lemma_steps_left(store, branch, left, fuel);
        if !(end is Done) {
            lemma_resumes_after(
                body,
                block,
                supply,
                earlier,
                dest,
                left,
                inner,
                part,
                end,
            );
            assert(run.trace =~= earlier + part.trace);
        } else {
            let (last, e) = run_steps(store, rest, part.left, fuel)->0;
            if dest_info(context, dest) is ToMergeBlock {
                lemma_no_cross(flow, place);
                lemma_backward_rest(
                    flow,
                    place,
                    merge,
                    dest,
                    d,
                    part.left,
                    fuel,
                    last,
                    e,
                );
                lemma_resumes_after(
                    body,
                    block,
                    supply,
                    earlier,
                    dest,
                    left,
                    context,
                    last,
                    e,
                );
                assert(run.trace =~= earlier + last.trace);
            } else {
                let next = merge->0;
                lemma_backward_rest(
                    flow,
                    place,
                    merge,
                    next,
                    d,
                    part.left,
                    fuel,
                    last,
                    e,
                );
                lemma_resumes_after(
                    body,
                    dest,
                    left,
                    part.trace,
                    next,
                    part.left,
                    context,
                    last,
                    e,
                );
                let whole = Run { trace: part.trace + last.trace, left: last.left };
                lemma_resumes_after(
                    body,
                    block,
                    supply,
                    earlier,
                    dest,
                    left,
                    context,
                    whole,
                    e,
                );
                assert(run.trace =~= earlier + whole.trace);
            }
        }
    }
}

proof fn lemma_leads_to_self(body: FunctionBody, block: BasicBlockId, supply: Supply)
    ensures
        leads_to(body, block, supply, seq![], block, supply),
{
    assert forall|run: Run| #[trigger] block_runs(body, block, supply, run) implies block_runs(
        body,
        block,
        supply,
        Run { trace: Seq::<Event>::empty() + run.trace, left: run.left },
    ) by {
        assert(Seq::<Event>::empty() + run.trace =~= run.trace);
    }
}

/// Code that goes on at `next`, which is listed right after it unless the
/// conditional around it has its branches meet there.
proof fn lemma_backward_rest(
    flow: FunctionFlow,
    place: Place,
    listed: Option<BasicBlockId>,
    next: BasicBlockId,
    depth: nat,
    supply: Supply,
    fuel: nat,
    run: Run,
    ending: Ending,
)
    requires
        merges_nest(flow, place),
        flow.rest_listing(place.context, listed, depth) is Some,
        match listed {
            Some(b) => b == next && flow.visits(place, Place { context: place.context, block: b }),
            None => place.context.merge == Some(next),
        },
        run_steps(
            flow.body.store,
            flow.rest_listing(place.context, listed, depth)->0,
            supply,
            fuel,
        ) == Some((run, ending)),
        supply.events > 0,
    ensures
        resumes(flow.body, next, supply, place.context, run, ending),
    decreases fuel, depth, 1nat,
{
    match listed {
        Some(b) => {
            let at = Place { context: place.context, block: b };
            lemma_merges_nest_next(flow, place, at);
            lemma_backward(flow, at, depth, supply, fuel, run, ending);
        },
        None => {
            lemma_leads_to_self(flow.body, next, supply);
        },
    }
}

/// The blocks from the destination of a jump on do what the structured code of the jump does.
proof fn lemma_backward_dest(
    flow: FunctionFlow,
    place: Place,
    inner: Context,
    dest: BasicBlockId,
    merge: Option<BasicBlockId>,
    depth: nat,
    supply: Supply,
    fuel: nat,
    run: Run,
    ending: Ending,
)
    requires
        merges_nest(flow, place),
        inner.enclosing == place.context.enclosing,
        merge is None || merge == inner.merge,
        forall|i: int|
            0 <= i < dest_places(inner, dest_info(place.context, dest), merge).len()
                ==> flow.visits(
                place,
                #[trigger] dest_places(inner, dest_info(place.context, dest), merge)[i],
            ),
        flow.dest_listing(inner, dest_info(place.context, dest), merge, depth) is Some,
        run_steps(
            flow.body.store,
            flow.dest_listing(inner, dest_info(place.context, dest), merge, depth)->0,
            supply,
            fuel,
        ) == Some((run, ending)),
        supply.events > 0,
    ensures
        if dest_info(place.context, dest) is ToMergeBlock {
            &&& ending is Done
            &&& run == (Run { trace: seq![], left: supply })
            &&& place.context.merge == Some(dest)
        } else {
            resumes(flow.body, dest, supply, inner, run, ending)
        },
    decreases fuel, depth, 1nat,
{
    let info = dest_info(place.context, dest);
    match info {
        TerminatorInfo::Break => {
            lemma_run_one(flow.body.store, Step::Break, supply, fuel);
            lemma_leads_to_self(flow.body, dest, supply);
        },
        TerminatorInfo::Continue => {
            lemma_run_one(flow.body.store, Step::Continue, supply, fuel);
            lemma_leads_to_self(flow.body, dest, supply);
        },
        TerminatorInfo::FallThrough(b) => {
            assert(flow.rest_listing(inner, unless_merge(merge, dest), depth) is Some);
            if merge == Some(dest) {
                lemma_leads_to_self(flow.body, dest, supply);
            } else {
                let at = Place { context: inner, block: dest };
                assert(dest_places(inner, info, merge)[0] == at);
                lemma_merges_nest_next(flow, place, at);
                lemma_backward(flow, at, depth, supply, fuel, run, ending);
            }
        },
        _ => {},
    }
}

/// The blocks from the header of a loop on do what the loop does.
proof fn lemma_backward_loop(
    flow: FunctionFlow,
    lp: LoopId,
    header: BasicBlockId,
    depth: nat,
    supply: Supply,
    fuel: nat,
    run: Run,
    ending: Ending,
)
    requires
        header == flow.loop_tree.header_of(lp),
        merges_nest(
            flow,
            Place { context: Context::in_loop(flow.around_body(lp)), block: header },
        ),
        flow.listing(Context::in_loop(flow.around_body(lp)), header, depth) is Some,
        run_loop(
            flow.body.store,
            flow.listing(Context::in_loop(flow.around_body(lp)), header, depth)->0,
            supply,
            fuel,
        ) == Some((run, ending)),
    ensures
        if ending is Stopped {
            block_runs(flow.body, header, supply, run)
        } else {
            &&& ending is Done
            &&& flow.loop_exit(lp) matches Some(exit)
            &&& leads_to(flow.body, header, supply, run.trace, exit, run.left)
        },
    decreases fuel, depth, 1nat,
{
    let body = flow.body;
    let context = Context::in_loop(flow.around_body(lp));
    let place = Place { context, block: header };
    let steps = flow.listing_at(place, depth)->0;
    let f = (fuel - 1) as nat;
    let (part, end) = run_steps(body.store, steps, supply, f)->0;
    lemma_backward(flow, place, depth, supply, f, part, end);
    if end is Continue {
        let (next, last) = run_loop(body.store, steps, part.left, f)->0;
        lemma_backward_loop(flow, lp, header, depth, part.left, f, next, last);
        // The rest of the loop ends as code that breaks out of it does.
        let as_body = if last is Done {
            Ending::Break
        } else {
            last
        };
        lemma_resumes_after(
            body,
            header,
            supply,
            part.trace,
            header,
            part.left,
            context,
            next,
            as_body,
        );
    }
}

/// The structured code of a function runs as the function does. Whatever the
/// conditions come out as, and after whatever number of events one looks, the
/// instructions that were run, the conditions that were tested and the order of
/// all of them are the same. So it is too if the function never ends. This holds
/// unless a branch goes to where the conditional around it has its branches
/// meet, while its own meet elsewhere.
pub proof fn law_same_runs(flow: FunctionFlow, supply: Supply, run: Run)
    requires
        flow.serializable(),
        merges_nest(flow, flow.start()),
    ensures
        block_runs(flow.body, flow.cfg.entry, supply, run) <==> steps_run(
            flow.body.store,
            flow.serialized(),
            supply,
            run,
            Ending::Stopped,
        ),
{
    let start = flow.start();
    let depth = choose|depth: nat| #[trigger] flow.listing_at(start, depth) is Some;
    if block_runs(flow.body, flow.cfg.entry, supply, run) {
        let fuel = choose|fuel: nat| #[trigger]
            run_block(flow.body, flow.cfg.entry, supply, fuel) == Some(run);
        let (part, ending) = lemma_forward(flow, start, depth, supply, fuel);
    }
    if steps_run(flow.body.store, flow.serialized(), supply, run, Ending::Stopped) {
        let fuel = choose|fuel: nat| #[trigger]
            run_steps(flow.body.store, flow.serialized(), supply, fuel) == Some(
                (run, Ending::Stopped),
            );
        lemma_backward(flow, start, depth, supply, fuel, run, Ending::Stopped);
    }
}

/// A run of the structured code of a place ends where control can go on.
proof fn lemma_ending(
    flow: FunctionFlow,
    place: Place,
    depth: nat,
    supply: Supply,
    fuel: nat,
    run: Run,
    ending: Ending,
)
    requires
        flow.listing_at(place, depth) is Some,
        run_steps(flow.body.store, flow.listing_at(place, depth)->0, supply, fuel) == Some(
            (run, ending),
        ),
    ensures
        ending is Stopped || goes_on_at(place.context, ending) is Some,
    decreases fuel, depth, 0nat,
{
    let store = flow.body.store;
    let context = place.context;
    let block = place.block;
    let d = (depth - 1) as nat;
    if supply.events == 0 {
    } else if let Some(lp) = flow.opened_loop(context, block) {
        let l = flow.around_body(lp);
        let inner = Place { context: Context::in_loop(l), block };
        let round = flow.listing_at(inner, d)->0;
        let rest = flow.rest_listing(context, after_loop(context, l.exit), d)->0;
        lemma_run_append(store, seq![Step::For { body: round }], rest, supply, fuel);
        lemma_run_one(store, Step::For { body: round }, supply, fuel);
        let (part, end) = run_loop(store, round, supply, fuel)->0;
        lemma_ending_loop(flow, l, block, d, supply, fuel, part, end);
        if end is Done {
            let (last, e) = run_steps(store, rest, part.left, fuel)->0;
            if let Some(next) = after_loop(context, l.exit) {
                lemma_ending(flow, Place { context, block: next }, d, part.left, fuel, last, e);
            }
        }
    } else {
        let end = flow.body.terminator_of(block)->0;
        let insts = straight_line(store, flow.body.order.insts_of(block));
        let code = flow.block_code(block);
        lemma_straight_line_plain(store, flow.body.order.insts_of(block));
        lemma_run_insts(store, insts, supply, fuel);
        let left = supply.spent(insts.len());
        let tail = lemma_code_first(flow, place, depth);
        lemma_run_append(store, code, tail, supply, fuel);
        if supply.events > insts.len() {
            match store.kind(end).targets() {
                BranchInfo::NotBranch => {
                    assert(code.push(Step::Inst(end)) =~= code + seq![Step::Inst(end)]);
                    lemma_run_append(store, code, seq![Step::Inst(end)], supply, fuel);
                    lemma_run_one(store, Step::Inst(end), left, fuel);
                },
                BranchInfo::Jump(dest) => {
                    let rest = flow.dest_listing(context, dest_info(context, dest), None, d)->0;
                    lemma_run_append(store, code, rest, supply, fuel);
                    let (part, e) = run_steps(store, rest, left, fuel)->0;
                    lemma_ending_dest(flow, context, context, dest, None, d, left, fuel, part, e);
                },
                BranchInfo::Branch(cond, then, else_) => {
                    let merge = flow.merge_of(context, block);
                    let inner = context.in_if(merge);
                    let t = dest_info(context, then);
                    let e = dest_info(context, else_);
                    assert(flow.if_listing(context, cond, t, e, merge, d) is Some);
                    let then_steps = flow.dest_listing(inner, t, merge, d)->0;
                    let else_steps = flow.dest_listing(inner, e, merge, d)->0;
                    let rest = flow.rest_listing(context, merge, d)->0;
                    let step = Step::If { cond, then: then_steps, else_: else_steps };
                    lemma_run_append(store, code, seq![step] + rest, supply, fuel);
                    lemma_run_append(store, seq![step], rest, left, fuel);
                    lemma_run_one(store, step, left, fuel);
                    if supply.outcomes.len() > 0 {
                        let (branch, dest) = if supply.outcomes[0] {
                            (then_steps, then)
                        } else {
                            (else_steps, else_)
                        };
                        let tested = left.tested();
                        let (part, end) = run_steps(store, branch, tested, fuel)->0;
                        lemma_ending_dest(
                            flow,
                            context,
                            inner,
                            dest,
                            merge,
                            d,
                            tested,
                            fuel,
                            part,
                            end,
                        );
                        if end is Done {
                            let (last, e) = run_steps(store, rest, part.left, fuel)->0;
                            if let Some(next) = merge {
                                lemma_ending(
                                    flow,
                                    Place { context, block: next },
                                    d,
                                    part.left,
                                    fuel,
                                    last,
                                    e,
                                );
                            }
                        }
                    }
                },
            }
        }
    }
}

proof fn lemma_ending_dest(
    flow: FunctionFlow,
    context: Context,
    inner: Context,
    dest: BasicBlockId,
    merge: Option<BasicBlockId>,
    depth: nat,
    supply: Supply,
    fuel: nat,
    run: Run,
    ending: Ending,
)
    requires
        inner.enclosing == context.enclosing,
        merge is None || merge == inner.merge,
        flow.dest_listing(inner, dest_info(context, dest), merge, depth) is Some,
        run_steps(
            flow.body.store,
            flow.dest_listing(inner, dest_info(context, dest), merge, depth)->0,
            supply,
            fuel,
        ) == Some((run, ending)),
    ensures
        ending is Stopped || goes_on_at(inner, ending) is Some || (ending is Done
            && context.merge is Some),
    decreases fuel, depth, 1nat,
{
    match dest_info(context, dest) {
        TerminatorInfo::Break => {
            if supply.events > 0 {
                lemma_run_one(flow.body.store, Step::Break, supply, fuel);
            }
        },
        TerminatorInfo::Continue => {
            if supply.events > 0 {
                lemma_run_one(flow.body.store, Step::Continue, supply, fuel);
            }
        },
        TerminatorInfo::FallThrough(b) => {
            assert(flow.rest_listing(inner, unless_merge(merge, dest), depth) is Some);
            if merge != Some(dest) {
                let at = Place { context: inner, block: dest };
                lemma_ending(flow, at, depth, supply, fuel, run, ending);
            }
        },
        _ => {},
    }
}

proof fn lemma_ending_loop(
    flow: FunctionFlow,
    l: EnclosingLoop,
    header: BasicBlockId,
    depth: nat,
    supply: Supply,
    fuel: nat,
    run: Run,
    ending: Ending,
)
    requires
        flow.listing(Context::in_loop(l), header, depth) is Some,
        run_loop(
            flow.body.store,
            flow.listing(Context::in_loop(l), header, depth)->0,
            supply,
            fuel,
        ) == Some((run, ending)),
    ensures
        ending is Stopped || (ending is Done && l.exit is Some),
    decreases fuel, depth, 1nat,
{
    let store = flow.body.store;
    let place = Place { context: Context::in_loop(l), block: header };
    let steps = flow.listing_at(place, depth)->0;
    let f = (fuel - 1) as nat;
    let (part, end) = run_steps(store, steps, supply, f)->0;
    lemma_ending(flow, place, depth, supply, f, part, end);
    if end is Continue {
        let (next, last) = run_loop(store, steps, part.left, f)->0;
        lemma_ending_loop(flow, l, header, depth, part.left, f, next, last);
    }
}

/// A run of the structured code of a function does not come to the end of the
/// code, nor to a `Break` or `Continue` outside of a loop: it leaves the
/// function before, or has no outcome left for a condition, or is stopped.
pub proof fn law_run_stops_inside(
    flow: FunctionFlow,
    supply: Supply,
    run: Run,
    ending: Ending,
)
    requires
        flow.serializable(),
        steps_run(flow.body.store, flow.serialized(), supply, run, ending),
    ensures
        ending is Stopped,
{
    let start = flow.start();
    let depth = choose|depth: nat| #[trigger] flow.listing_at(start, depth) is Some;
    let fuel = choose|fuel: nat| #[trigger]
        run_steps(flow.body.store, flow.serialized(), supply, fuel) == Some((run, ending));
    lemma_ending(flow, start, depth, supply, fuel, run, ending);
}

} // verus!
