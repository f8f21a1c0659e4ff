//! Every instruction that control can get to has its place in the structured code.

use vstd::prelude::*;

use crate::analysis::LoopId;
use crate::dominance::{connects, goes_to, is_hop, is_reached, lemma_route_take};
use crate::flow::{after_loop, dest_info, straight_line, FunctionFlow, TerminatorInfo};
use crate::ir::{is_place, BasicBlockId, BodyDataStore, BranchInfo, FunctionBody, InstId};
use crate::nesting::{
    enters, inside_if_since, inside_since, is_tour, lemma_enclosed, lemma_four_ways,
    lemma_inside_if, lemma_tour_ends, lemma_tour_reached, lemma_tour_take, lemma_visits_merge,
    loop_place, tables_true,
};
use crate::scope::Context;
use crate::shape::{ends_function, lemma_straight_line_own, runs_before_end};
use crate::steps::Step;
use crate::walk::{
    dest_places, is_leg, is_walk, law_block_steps, law_loop_steps, lemma_depth_next,
    lemma_visits_branch, lemma_visits_jump, lemma_visits_loop, lemma_walk_push, Place,
};

verus! {

/// The list runs the instruction somewhere, however deep inside of a step.
pub open spec fn lists(steps: Seq<Step>, inst: InstId) -> bool
    decreases steps,
{
    exists|i: int| 0 <= i < steps.len() && lists_in(#[trigger] steps[i], inst)
}

/// The step is the instruction, or has it inside.
pub open spec fn lists_in(step: Step, inst: InstId) -> bool
    decreases step,
{
    match step {
        Step::Inst(other) => other == inst,
        Step::If { cond, then, else_ } => lists(then, inst) || lists(else_, inst),
        Step::For { body } => lists(body, inst),
        _ => false,
    }
}

/// The block itself runs the instruction, and does not merely go on by it.
pub open spec fn runs(body: FunctionBody, block: BasicBlockId, inst: InstId) -> bool {
    runs_before_end(body, block, inst) || ends_function(body, block, inst)
}

proof fn lemma_lists_append(first: Seq<Step>, rest: Seq<Step>, inst: InstId)
    ensures
        lists(first + rest, inst) <==> lists(first, inst) || lists(rest, inst),
{
    let steps = first + rest;
    if lists(steps, inst) {
        let i = choose|i: int| 0 <= i < steps.len() && lists_in(#[trigger] steps[i], inst);
        if i < first.len() {
            assert(lists_in(first[i], inst));
        } else {
            assert(lists_in(rest[i - first.len()], inst));
        }
    }
    if lists(first, inst) {
        let i = choose|i: int| 0 <= i < first.len() && lists_in(#[trigger] first[i], inst);
        assert(lists_in(steps[i], inst));
    }
    if lists(rest, inst) {
        let i = choose|i: int| 0 <= i < rest.len() && lists_in(#[trigger] rest[i], inst);
        assert(lists_in(steps[first.len() + i], inst));
    }
}

proof fn lemma_lists_one(step: Step, inst: InstId)
    ensures
        lists(seq![step], inst) <==> lists_in(step, inst),
{
    if lists_in(step, inst) {
        assert(lists_in(seq![step][0], inst));
    }
}

/// A block that opens no loop lists what it runs before its end.
proof fn lemma_lists_code(flow: FunctionFlow, block: BasicBlockId, inst: InstId)
    ensures
        lists(flow.block_code(block), inst) <==> straight_line(
            flow.body.store,
            flow.body.order.insts_of(block),
        ).contains(inst),
{
    let insts = straight_line(flow.body.store, flow.body.order.insts_of(block));
    let code = flow.block_code(block);
    if lists(code, inst) {
        let i = choose|i: int| 0 <= i < code.len() && lists_in(#[trigger] code[i], inst);
        assert(code[i] == Step::Inst(insts[i]));
    }
    if insts.contains(inst) {
        let i = choose|i: int| 0 <= i < insts.len() && insts[i] == inst;
        assert(code[i] == Step::Inst(inst));
        assert(lists_in(code[i], inst));
    }
}

/// What a listing that another is made of lists, the other lists too.
proof fn lemma_lists_next(flow: FunctionFlow, place: Place, next: Place, inst: InstId)
    requires
        flow.ends(place),
        flow.visits(place, next),
        lists(flow.steps_at(next), inst),
    ensures
        lists(flow.steps_at(place), inst),
{
    let context = place.context;
    lemma_four_ways(flow, place, next);
    if let Some(lp) = flow.opened_loop(context, place.block) {
        law_loop_steps(flow, place, lp);
        let l = flow.around_body(lp);
        let inner = Place { context: Context::in_loop(l), block: place.block };
        let step = Step::For { body: flow.steps_at(inner) };
        lemma_lists_one(step, inst);
        lemma_lists_append(
            seq![step],
            flow.rest_steps(context, after_loop(context, l.exit)),
            inst,
        );
    } else {
        law_block_steps(flow, place);
        let code = flow.block_code(place.block);
        let end = flow.body.terminator_of(place.block)->0;
        match flow.body.store.kind(end).targets() {
            BranchInfo::NotBranch => {},
            BranchInfo::Jump(dest) => {
                lemma_lists_append(
                    code,
                    flow.dest_steps(context, dest_info(context, dest), None),
                    inst,
                );
            },
            BranchInfo::Branch(cond, then, else_) => {
                let merge = flow.merge_of(context, place.block);
                lemma_lists_if(
                    flow,
                    context,
                    dest_info(context, then),
                    dest_info(context, else_),
                    merge,
                    flow.if_steps(
                        context,
                        cond,
                        dest_info(context, then),
                        dest_info(context, else_),
                        merge,
                    ),
                    inst,
                );
                lemma_lists_append(
                    code,
                    flow.if_steps(
                        context,
                        cond,
                        dest_info(context, then),
                        dest_info(context, else_),
                        merge,
                    ),
                    inst,
                );
            },
        }
    }
}

proof fn lemma_lists_if(
    flow: FunctionFlow,
    context: Context,
    then: TerminatorInfo,
    else_: TerminatorInfo,
    merge: Option<BasicBlockId>,
    steps: Seq<Step>,
    inst: InstId,
)
    requires
        steps.len() > 0,
        steps == flow.if_steps(context, steps[0]->cond, then, else_, merge),
    ensures
        lists(steps, inst) <==> {
            ||| lists(flow.dest_steps(context.in_if(merge), then, merge), inst)
            ||| lists(flow.dest_steps(context.in_if(merge), else_, merge), inst)
            ||| lists(flow.rest_steps(context, merge), inst)
        },
{
    let step = steps[0];
    let first = seq![step];
    assert(step == Step::If {
        cond: step->cond,
        then: flow.dest_steps(context.in_if(merge), then, merge),
        else_: flow.dest_steps(context.in_if(merge), else_, merge),
    });
    assert(steps =~= first + flow.rest_steps(context, merge));
    lemma_lists_one(step, inst);
    lemma_lists_append(first, flow.rest_steps(context, merge), inst);
}

/// The structured code of a function lists what the places of a tour list.
proof fn lemma_tour_lists(flow: FunctionFlow, places: Seq<Place>, i: int, inst: InstId)
    requires
        is_tour(flow, places),
        0 <= i < places.len(),
        lists(flow.steps_at(places[i]), inst),
    ensures
        lists(flow.serialized(), inst),
    decreases i,
{
    if i > 0 {
        assert(is_leg(flow, places, i - 1));
        lemma_tour_ends(flow, places, i - 1);
        lemma_lists_next(flow, places[i - 1], places[i], inst);
        lemma_tour_lists(flow, places, i - 1, inst);
    }
}

/// A tour comes to a block, and opens no loop there.
spec fn comes_to(flow: FunctionFlow, places: Seq<Place>, block: BasicBlockId) -> bool {
    &&& is_tour(flow, places)
    &&& places.last().block == block
    &&& flow.opened_loop(places.last().context, block) is None
}

/// A tour that comes to a block comes to it without opening a loop, once it has.
proof fn lemma_comes_to(flow: FunctionFlow, places: Seq<Place>) -> (longer: Seq<Place>)
    requires
        is_tour(flow, places),
    ensures
        comes_to(flow, longer, places.last().block),
{
    let place = places.last();
    if let Some(lp) = flow.opened_loop(place.context, place.block) {
        lemma_tour_ends(flow, places, places.len() - 1);
        law_loop_steps(flow, place, lp);
        lemma_visits_loop(flow, place, lp);
        lemma_walk_push(flow, places, loop_place(flow, lp));
        places.push(loop_place(flow, lp))
    } else {
        places
    }
}

/// A tour that goes on from a place of another.
proof fn lemma_tour_branch(
    flow: FunctionFlow,
    places: Seq<Place>,
    k: int,
    next: Place,
) -> (longer: Seq<Place>)
    requires
        is_tour(flow, places),
        0 <= k < places.len(),
        flow.visits(places[k], next),
    ensures
        is_tour(flow, longer),
        longer.last() == next,
{
    lemma_tour_take(flow, places, k + 1);
    lemma_walk_push(flow, places.take(k + 1), next);
    places.take(k + 1).push(next)
}

/// Inside of a loop a tour has opened it.
proof fn lemma_opened_before(flow: FunctionFlow, places: Seq<Place>, j: int, lp: LoopId) -> (k: int)
    requires
        is_tour(flow, places),
        0 <= j < places.len(),
        places[j].context == Context::in_loop(flow.around_body(lp)),
    ensures
        0 <= k < j,
        flow.opened_loop(places[k].context, places[k].block) == Some(lp),
    decreases j,
{
    let place = places[j - 1];
    assert(j > 0);
    assert(is_leg(flow, places, j - 1));
    lemma_four_ways(flow, place, places[j]);
    if enters(flow, place, places[j]) {
        j - 1
    } else {
        lemma_opened_before(flow, places, j - 1, lp)
    }
}

/// A tour can come to where the branches around a place meet.
proof fn lemma_tour_to_merge(
    flow: FunctionFlow,
    places: Seq<Place>,
    i: int,
    m: BasicBlockId,
) -> (longer: Seq<Place>)
    requires
        is_tour(flow, places),
        0 <= i < places.len(),
        places[i].context.merge == Some(m),
    ensures
        is_tour(flow, longer),
        longer.last().block == m,
{
    lemma_inside_if(flow, places, i);
    let k = choose|k: int| #[trigger] inside_if_since(flow, places, k, i, m);
    lemma_visits_merge(flow, places[k], m);
    lemma_tour_branch(flow, places, k, Place { context: places[k].context, block: m })
}

/// A tour can come to where control goes from where another comes to.
proof fn lemma_tour_follows(
    flow: FunctionFlow,
    places: Seq<Place>,
    from: BasicBlockId,
    to: BasicBlockId,
) -> (longer: Seq<Place>)
    requires
        flow.wf(),
        comes_to(flow, places, from),
        goes_to(flow.body, from, to),
    ensures
        is_tour(flow, longer),
        longer.last().block == to,
{
    let i = places.len() - 1;
    let place = places[i];
    let context = place.context;
    lemma_tour_ends(flow, places, i);
    law_block_steps(flow, place);
    lemma_enclosed(flow, places, i);
    let end = flow.body.terminator_of(from)->0;
    match dest_info(context, to) {
        TerminatorInfo::Continue => {
            let l = context.enclosing->0;
            let j = choose|j: int| #[trigger] inside_since(flow, places, j, i, l);
            lemma_tour_take(flow, places, j + 1);
            assert(places.take(j + 1).last() == loop_place(flow, l.lp));
            places.take(j + 1)
        },
        TerminatorInfo::Break => {
            let l = context.enclosing->0;
            let j = choose|j: int| #[trigger] inside_since(flow, places, j, i, l);
            assert(places[j] == loop_place(flow, l.lp));
            let k = lemma_opened_before(flow, places, j, l.lp);
            lemma_tour_ends(flow, places, k);
            law_loop_steps(flow, places[k], l.lp);
            lemma_visits_loop(flow, places[k], l.lp);
            if places[k].context.merge == Some(to) {
                lemma_tour_to_merge(flow, places, k, to)
            } else {
                let next = Place { context: places[k].context, block: to };
                lemma_tour_branch(flow, places, k, next)
            }
        },
        TerminatorInfo::FallThrough(_) => {
            match flow.body.store.kind(end).targets() {
                BranchInfo::Jump(dest) => {
                    let next = Place { context, block: to };
                    lemma_visits_jump(flow, place, dest);
                    assert(dest_places(context, dest_info(context, dest), None)[0] == next);
                    lemma_tour_branch(flow, places, i, next)
                },
                BranchInfo::Branch(cond, then, else_) => {
                    let merge = flow.merge_of(context, from);
                    let inner = context.in_if(merge);
                    lemma_visits_branch(flow, place, cond, then, else_);
                    if merge == Some(to) {
                        lemma_tour_branch(flow, places, i, Place { context, block: to })
                    } else {
                        let next = Place { context: inner, block: to };
                        assert(dest_places(inner, dest_info(context, to), merge)[0] == next);
                        lemma_tour_branch(flow, places, i, next)
                    }
                },
                BranchInfo::NotBranch => places,
            }
        },
        _ => lemma_tour_to_merge(flow, places, i, to),
    }
}

/// A tour can come to where control can get to.
proof fn lemma_tour_to_reached(
    flow: FunctionFlow,
    block: BasicBlockId,
    route: Seq<BasicBlockId>,
) -> (places: Seq<Place>)
    requires
        flow.wf(),
        flow.serializable(),
        connects(flow.body, flow.cfg.entry, block, route),
    ensures
        comes_to(flow, places, block),
    decreases route.len(),
{
    let n = route.len() - 1;
    if n == 0 {
        let start = seq![flow.start()];
        assert(is_walk(flow, start));
        lemma_comes_to(flow, start)
    } else {
        lemma_route_take(flow.body, route, n);
        let places = lemma_tour_to_reached(flow, route[n - 1], route.take(n));
        assert(is_hop(flow.body, route, n - 1));
        let longer = lemma_tour_follows(flow, places, route[n - 1], block);
        lemma_comes_to(flow, longer)
    }
}

/// Where control can get to in a function that can be listed, blocks have an end.
pub proof fn law_reached_blocks_end(flow: FunctionFlow, block: BasicBlockId)
    requires
        flow.wf(),
        flow.serializable(),
        is_reached(flow, block),
    ensures
        flow.body.terminator_of(block) is Some,
{
    let route = choose|route: Seq<BasicBlockId>| #[trigger]
        connects(flow.body, flow.cfg.entry, block, route);
    let places = lemma_tour_to_reached(flow, block, route);
    lemma_tour_ends(flow, places, places.len() - 1);
    law_block_steps(flow, places.last());
}

/// The structured code of a function runs all that blocks run to which control
/// can get.
pub proof fn law_lists_reached(flow: FunctionFlow, block: BasicBlockId, inst: InstId)
    requires
        flow.wf(),
        flow.serializable(),
        is_reached(flow, block),
        runs(flow.body, block, inst),
    ensures
        lists(flow.serialized(), inst),
{
    let route = choose|route: Seq<BasicBlockId>| #[trigger]
        connects(flow.body, flow.cfg.entry, block, route);
    let places = lemma_tour_to_reached(flow, block, route);
    let i = places.len() - 1;
    let place = places[i];
    let context = place.context;
    lemma_tour_ends(flow, places, i);
    law_block_steps(flow, place);
    lemma_lists_code(flow, block, inst);
    let code = flow.block_code(block);
    let end = flow.body.terminator_of(block)->0;
    match flow.body.store.kind(end).targets() {
        BranchInfo::NotBranch => {
            assert(code.push(Step::Inst(end)) =~= code + seq![Step::Inst(end)]);
            lemma_lists_one(Step::Inst(end), inst);
            lemma_lists_append(code, seq![Step::Inst(end)], inst);
        },
        BranchInfo::Jump(dest) => {
            lemma_lists_append(
                code,
                flow.dest_steps(context, dest_info(context, dest), None),
                inst,
            );
        },
        BranchInfo::Branch(cond, then, else_) => {
            lemma_lists_append(
                code,
                flow.if_steps(
                    context,
                    cond,
                    dest_info(context, then),
                    dest_info(context, else_),
                    flow.merge_of(context, block),
                ),
                inst,
            );
        },
    }
    lemma_tour_lists(flow, places, i, inst);
}

/// What a place of a tour lists is run by a block that a tour can come to.
proof fn lemma_listed_by(flow: FunctionFlow, places: Seq<Place>, inst: InstId) -> (longer: Seq<
    Place,
>)
    requires
        is_tour(flow, places),
        lists(flow.steps_at(places.last()), inst),
    ensures
        is_tour(flow, longer),
        runs(flow.body, longer.last().block, inst),
    decreases flow.depth_of(places.last()), 2nat,
{
    let i = places.len() - 1;
    let place = places[i];
    let context = place.context;
    let block = place.block;
    lemma_tour_ends(flow, places, i);
    if let Some(lp) = flow.opened_loop(context, block) {
        law_loop_steps(flow, place, lp);
        lemma_visits_loop(flow, place, lp);
        let l = flow.around_body(lp);
        let inner = loop_place(flow, lp);
        let step = Step::For { body: flow.steps_at(inner) };
        let after = after_loop(context, l.exit);
        lemma_lists_one(step, inst);
        lemma_lists_append(seq![step], flow.rest_steps(context, after), inst);
        if lists(flow.steps_at(inner), inst) {
            lemma_listed_next(flow, places, inner, inst)
        } else {
            lemma_listed_next(flow, places, Place { context, block: after->0 }, inst)
        }
    } else {
        law_block_steps(flow, place);
        lemma_lists_code(flow, block, inst);
        let code = flow.block_code(block);
        let end = flow.body.terminator_of(block)->0;
        match flow.body.store.kind(end).targets() {
            BranchInfo::NotBranch => {
                assert(code.push(Step::Inst(end)) =~= code + seq![Step::Inst(end)]);
                lemma_lists_one(Step::Inst(end), inst);
                lemma_lists_append(code, seq![Step::Inst(end)], inst);
                places
            },
            BranchInfo::Jump(dest) => {
                let info = dest_info(context, dest);
                lemma_lists_append(code, flow.dest_steps(context, info, None), inst);
                if lists(code, inst) {
                    places
                } else {
                    lemma_visits_jump(flow, place, dest);
                    lemma_listed_dest(flow, places, context, info, None, inst)
                }
            },
            BranchInfo::Branch(cond, then, else_) => {
                let merge = flow.merge_of(context, block);
                let inner = context.in_if(merge);
                let t = dest_info(context, then);
                let e = dest_info(context, else_);
                let steps = flow.if_steps(context, cond, t, e, merge);
                lemma_lists_append(code, steps, inst);
                lemma_lists_if(flow, context, t, e, merge, steps, inst);
                lemma_visits_branch(flow, place, cond, then, else_);
                if lists(code, inst) {
                    places
                } else if lists(flow.dest_steps(inner, t, merge), inst) {
                    lemma_listed_dest(flow, places, inner, t, merge, inst)
                } else if lists(flow.dest_steps(inner, e, merge), inst) {
                    lemma_listed_dest(flow, places, inner, e, merge, inst)
                } else {
                    lemma_listed_next(flow, places, Place { context, block: merge->0 }, inst)
                }
            },
        }
    }
}

proof fn lemma_listed_next(
    flow: FunctionFlow,
    places: Seq<Place>,
    next: Place,
    inst: InstId,
) -> (longer: Seq<Place>)
    requires
        is_tour(flow, places),
        flow.visits(places.last(), next),
        lists(flow.steps_at(next), inst),
    ensures
        is_tour(flow, longer),
        runs(flow.body, longer.last().block, inst),
    decreases flow.depth_of(places.last()), 0nat,
{
    lemma_tour_ends(flow, places, places.len() - 1);
    lemma_depth_next(flow, places.last(), next);
    lemma_walk_push(flow, places, next);
    let longer = places.push(next);
    assert(longer.last() == next);
    lemma_listed_by(flow, longer, inst)
}

proof fn lemma_listed_dest(
    flow: FunctionFlow,
    places: Seq<Place>,
    context: Context,
    info: TerminatorInfo,
    merge: Option<BasicBlockId>,
    inst: InstId,
) -> (longer: Seq<Place>)
    requires
        is_tour(flow, places),
        forall|i: int|
            0 <= i < dest_places(context, info, merge).len() ==> flow.visits(
                places.last(),
                #[trigger] dest_places(context, info, merge)[i],
            ),
        lists(flow.dest_steps(context, info, merge), inst),
    ensures
        is_tour(flow, longer),
        runs(flow.body, longer.last().block, inst),
    decreases flow.depth_of(places.last()), 1nat,
{
    lemma_lists_one(Step::Break, inst);
    lemma_lists_one(Step::Continue, inst);
    let next = Place { context, block: info->FallThrough_0 };
    assert(dest_places(context, info, merge)[0] == next);
    lemma_listed_next(flow, places, next, inst)
}

/// If what is known of a function's control flow is true, its structured code
/// runs just what blocks run to which control can get.
pub proof fn law_lists_exactly(
    flow: FunctionFlow,
    rank: spec_fn(BasicBlockId) -> nat,
    inst: InstId,
)
    requires
        flow.serializable(),
        tables_true(flow, rank),
    ensures
        lists(flow.serialized(), inst) <==> exists|block: BasicBlockId|
            is_reached(flow, block) && #[trigger] runs(flow.body, block, inst),
{
    if lists(flow.serialized(), inst) {
        let start = seq![flow.start()];
        assert(is_walk(flow, start));
        assert(start.last() == flow.start());
        let places = lemma_listed_by(flow, start, inst);
        lemma_tour_reached(flow, rank, places, places.len() - 1);
        assert(runs(flow.body, places.last().block, inst));
    }
    if exists|block: BasicBlockId|
        is_reached(flow, block) && #[trigger] runs(flow.body, block, inst) {
        let block = choose|block: BasicBlockId|
            is_reached(flow, block) && #[trigger] runs(flow.body, block, inst);
        law_lists_reached(flow, block, inst);
    }
}

/// Only the last instruction of a block ends it.
pub open spec fn ends_last(body: FunctionBody) -> bool {
    forall|b: int, k: int| #[trigger]
        is_place(body.order.blocks@, b, k) && body.store.kind(
            body.order.blocks@[b]@[k],
        ).ends_block() ==> k == body.order.blocks@[b]@.len() - 1
}

pub proof fn lemma_line_has(store: BodyDataStore, insts: Seq<InstId>, k: int)
    requires
        0 <= k < insts.len(),
        forall|i: int| 0 <= i < k ==> !store.kind(#[trigger] insts[i]).ends_block(),
        store.kind(insts[k]) is Plain,
    ensures
        straight_line(store, insts).contains(insts[k]),
    decreases k,
{
    let rest = insts.drop_first();
    let line = straight_line(store, insts);
    if k == 0 {
        assert(line[0] == insts[0]);
    } else {
        assert(!store.kind(insts[0]).ends_block());
        assert forall|i: int| 0 <= i < k - 1 implies !store.kind(
            #[trigger] rest[i],
        ).ends_block() by {
            assert(rest[i] == insts[i + 1]);
        }
        lemma_line_has(store, rest, k - 1);
        let after = straight_line(store, rest);
        let j = choose|j: int| 0 <= j < after.len() && after[j] == insts[k];
        if store.kind(insts[0]) is Nop {
            assert(line[j] == insts[k]);
        } else {
            assert(line[j + 1] == insts[k]);
        }
    }
}

/// If moreover only the last instruction of a block ends it, the structured code
/// runs just the instructions of blocks to which control can get that are no
/// jumps or branches and do something.
pub proof fn law_lists_by_kind(
    flow: FunctionFlow,
    rank: spec_fn(BasicBlockId) -> nat,
    inst: InstId,
)
    requires
        flow.serializable(),
        tables_true(flow, rank),
        ends_last(flow.body),
    ensures
        lists(flow.serialized(), inst) <==> exists|block: BasicBlockId|
            {
                &&& #[trigger] is_reached(flow, block)
                &&& flow.body.order.has_block(block)
                &&& flow.body.order.insts_of(block).contains(inst)
                &&& flow.body.store.kind(inst) is Plain || flow.body.store.kind(inst) is Return
            },
{
    let body = flow.body;
    law_lists_exactly(flow, rank, inst);
    if lists(flow.serialized(), inst) {
        let block = choose|block: BasicBlockId|
            is_reached(flow, block) && #[trigger] runs(body, block, inst);
        let insts = body.order.insts_of(block);
        if runs_before_end(body, block, inst) {
            lemma_straight_line_own(body.store, insts, inst);
        } else {
            assert(insts[insts.len() - 1] == inst);
        }
        assert(is_reached(flow, block));
    }
    if exists|block: BasicBlockId|
        {
            &&& #[trigger] is_reached(flow, block)
            &&& body.order.has_block(block)
            &&& body.order.insts_of(block).contains(inst)
            &&& body.store.kind(inst) is Plain || body.store.kind(inst) is Return
        } {
        let block = choose|block: BasicBlockId|
            {
                &&& #[trigger] is_reached(flow, block)
                &&& body.order.has_block(block)
                &&& body.order.insts_of(block).contains(inst)
                &&& body.store.kind(inst) is Plain || body.store.kind(inst) is Return
            };
        let insts = body.order.insts_of(block);
        let k = choose|k: int| 0 <= k < insts.len() && insts[k] == inst;
        assert forall|i: int| 0 <= i < k implies !body.store.kind(
            #[trigger] insts[i],
        ).ends_block() by {
            assert(is_place(body.order.blocks@, block.0 as int, i));
        }
        assert(is_place(body.order.blocks@, block.0 as int, k));
        if body.store.kind(inst) is Plain {
            lemma_line_has(body.store, insts, k);
        }
        assert(runs(body, block, inst));
    }
}

} // verus!
