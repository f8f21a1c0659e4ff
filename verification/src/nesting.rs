//! Conditionals nest, and so structured code runs as the function does, where
//! what is known of the function's control flow is true.

use vstd::prelude::*;

use crate::admission::{law_circle_never_ends, law_ends_next};
use crate::analysis::{LoopId, PostIDom};
use crate::dominance::{
    connects, frontiers_true, goes_back, goes_to, graph_true, in_loop, is_gate, is_hop,
    is_post_idom, is_reached, is_route, is_way_out, lemma_enters_at_header, lemma_idom_in_loop,
    lemma_no_gate, lemma_post_dominates_along, lemma_post_dominates_both,
    lemma_post_dominates_next, lemma_reached_along, lemma_reached_next, lemma_route_skip,
    lemma_route_take, lemma_simple_route, lemma_way_out_from, loops_true, post_dominates,
    post_idoms_true,
};
use crate::exits::{exit_true, law_exit_true, leads_out};
use crate::flow::{after_loop, dest_info, FunctionFlow};
use crate::ir::{BasicBlockId, BranchInfo};
use crate::run::{block_runs, steps_run, Ending, Run, Supply};
use crate::scope::{Context, EnclosingLoop};
use crate::simulation::{crosses_merge, law_same_runs, merges_nest};
use crate::walk::{
    dest_places, is_leg, is_walk, lemma_visits_loop, lemma_walk_push, rest_places, Place,
};

verus! {

/// What is known of a function's control flow is true, `rank` being an order of
/// its blocks.
pub open spec fn tables_true(flow: FunctionFlow, rank: spec_fn(BasicBlockId) -> nat) -> bool {
    &&& flow.wf()
    &&& graph_true(flow)
    &&& loops_true(flow, rank)
    &&& frontiers_true(flow)
    &&& post_idoms_true(flow)
}

/// A walk from the start of a function that can be listed.
pub open spec fn is_tour(flow: FunctionFlow, places: Seq<Place>) -> bool {
    flow.serializable() && is_walk(flow, places) && places[0] == flow.start()
}

/// Having entered a loop at index `i`, a walk comes to the loop's header again.
pub open spec fn comes_back(
    flow: FunctionFlow,
    places: Seq<Place>,
    i: int,
    j: int,
    lp: LoopId,
) -> bool {
    &&& 0 <= i < j < places.len()
    &&& flow.loop_tree.has_loop(lp)
    &&& places[i] == loop_place(flow, lp)
    &&& places[j].block == flow.loop_tree.header_of(lp)
}

/// A walk from the start of a function that can go on from everywhere, and does
/// not come back to the header of a loop that it has entered.
pub open spec fn is_trip(flow: FunctionFlow, places: Seq<Place>) -> bool {
    &&& is_walk(flow, places)
    &&& places[0] == flow.start()
    &&& forall|i: int|
        0 <= i < places.len() ==> flow.next_places(#[trigger] places[i]) is Some
    &&& forall|i: int, j: int, lp: LoopId| !#[trigger] comes_back(flow, places, i, j, lp)
}

/// The place at which the body of a loop starts.
pub open spec fn loop_place(flow: FunctionFlow, lp: LoopId) -> Place {
    Place {
        context: Context::in_loop(flow.around_body(lp)),
        block: flow.loop_tree.header_of(lp),
    }
}

/// No loop is opened at a place, and its block ends in a branch.
pub open spec fn branches_at(flow: FunctionFlow, place: Place) -> bool {
    &&& flow.opened_loop(place.context, place.block) is None
    &&& flow.pd_tree.has_block(place.block)
    &&& flow.body.terminator_of(place.block) matches Some(end)
    &&& flow.body.store.kind(end).targets() is Branch
}

/// A loop is opened, and its body is visited.
pub open spec fn enters(flow: FunctionFlow, place: Place, next: Place) -> bool {
    flow.opened_loop(place.context, place.block) matches Some(lp) && next == loop_place(flow, lp)
}

/// A loop is opened, and what comes after it is visited.
pub open spec fn passes(flow: FunctionFlow, place: Place, next: Place) -> bool {
    &&& flow.opened_loop(place.context, place.block) matches Some(lp)
    &&& after_loop(place.context, flow.loop_exit(lp)) == Some(next.block)
    &&& next.context == place.context
}

/// No loop is opened, and where control goes is visited.
pub open spec fn follows(flow: FunctionFlow, place: Place, next: Place) -> bool {
    &&& flow.opened_loop(place.context, place.block) is None
    &&& goes_to(flow.body, place.block, next.block)
    &&& dest_info(place.context, next.block) is FallThrough
    &&& if branches_at(flow, place) {
        &&& next.context == place.context.in_if(flow.merge_of(place.context, place.block))
        &&& flow.merge_of(place.context, place.block) != Some(next.block)
    } else {
        next.context == place.context
    }
}

/// Where the branches of a conditional meet is visited.
pub open spec fn merges(flow: FunctionFlow, place: Place, next: Place) -> bool {
    &&& branches_at(flow, place)
    &&& flow.merge_of(place.context, place.block) == Some(next.block)
    &&& next.context == place.context
}

/// There are four ways in which a listing goes on.
pub proof fn lemma_four_ways(flow: FunctionFlow, place: Place, next: Place)
    requires
        flow.visits(place, next),
    ensures
        enters(flow, place, next) || passes(flow, place, next) || follows(flow, place, next)
            || merges(flow, place, next),
{
    let context = place.context;
    let block = place.block;
    let places = flow.next_places(place)->0;
    let i = choose|i: int| 0 <= i < places.len() && places[i] == next;
    if flow.opened_loop(context, block) is None {
        let end = flow.body.terminator_of(block)->0;
        match flow.body.store.kind(end).targets() {
            BranchInfo::NotBranch => {},
            BranchInfo::Jump(dest) => {},
            BranchInfo::Branch(_, then, else_) => {
                let merge = flow.merge_of(context, block);
                let inner = context.in_if(merge);
                let p = dest_places(inner, dest_info(context, then), merge);
                let q = dest_places(inner, dest_info(context, else_), merge);
                let r = rest_places(context, merge);
                if i < p.len() {
                    assert(places[i] == p[i]);
                } else if i < p.len() + q.len() {
                    assert(places[i] == q[i - p.len()]);
                } else {
                    assert(places[i] == r[i - p.len() - q.len()]);
                }
            },
        }
    }
}

/// All listings on a tour come to an end.
pub proof fn lemma_tour_ends(flow: FunctionFlow, places: Seq<Place>, i: int)
    requires
        is_tour(flow, places),
        0 <= i < places.len(),
    ensures
        flow.ends(places[i]),
    decreases i,
{
    if i > 0 {
        lemma_tour_ends(flow, places, i - 1);
        assert(is_leg(flow, places, i - 1));
        law_ends_next(flow, places[i - 1]);
    }
}

/// A tour does not come to a place twice.
proof fn lemma_never_twice(flow: FunctionFlow, places: Seq<Place>, i: int, j: int)
    requires
        is_tour(flow, places),
        0 <= i < j < places.len(),
    ensures
        places[i] != places[j],
{
    if places[i] == places[j] {
        lemma_tour_ends(flow, places, i);
        law_circle_never_ends(flow, places, i, j);
    }
}

/// The first places of a tour are a tour.
pub proof fn lemma_tour_take(flow: FunctionFlow, places: Seq<Place>, n: int)
    requires
        is_tour(flow, places),
        0 < n <= places.len(),
    ensures
        is_tour(flow, places.take(n)),
{
    let part = places.take(n);
    assert forall|i: int| 0 <= i < part.len() - 1 implies #[trigger] is_leg(flow, part, i) by {
        assert(is_leg(flow, places, i));
    }
}

/// The constructs around a place are the function's.
pub open spec fn is_scoped(flow: FunctionFlow, context: Context) -> bool {
    &&& context.header is Some ==> (context.enclosing matches Some(l) && context
        == Context::in_loop(l))
    &&& context.enclosing matches Some(l) ==> flow.loop_tree.has_loop(l.lp) && l
        == flow.around_body(l.lp)
}

/// From index `j` on, up to `i`, the innermost loop is `l`, whose body starts at `j`.
pub open spec fn inside_since(
    flow: FunctionFlow,
    places: Seq<Place>,
    j: int,
    i: int,
    l: EnclosingLoop,
) -> bool {
    &&& 0 <= j <= i
    &&& places[j] == loop_place(flow, l.lp)
    &&& forall|k: int| j <= k <= i ==> (#[trigger] places[k]).context.enclosing == Some(l)
}

/// Up to index `i` the tour has entered the loop.
pub open spec fn is_open(flow: FunctionFlow, places: Seq<Place>, i: int, lp: LoopId) -> bool {
    exists|j: int| 0 <= j <= i && #[trigger] places[j] == loop_place(flow, lp)
}

/// The loop around a place was entered, and no other one since.
pub proof fn lemma_enclosed(flow: FunctionFlow, places: Seq<Place>, i: int)
    requires
        flow.wf(),
        is_walk(flow, places),
        places[0] == flow.start(),
        0 <= i < places.len(),
    ensures
        is_scoped(flow, places[i].context),
        places[i].context.enclosing matches Some(l) ==> exists|j: int| #[trigger]
            inside_since(flow, places, j, i, l),
        forall|lp: LoopId| #[trigger]
            is_open(flow, places, i, lp) ==> places[i].context.enclosing is Some,
    decreases i,
{
    if i > 0 {
        let place = places[i - 1];
        let next = places[i];
        lemma_enclosed(flow, places, i - 1);
        assert(is_leg(flow, places, i - 1));
        lemma_four_ways(flow, place, next);
        if enters(flow, place, next) {
            let lp = flow.opened_loop(place.context, place.block)->0;
            assert(inside_since(flow, places, i, i, flow.around_body(lp)));
        } else {
            if let Some(l) = place.context.enclosing {
                let j = choose|j: int| #[trigger] inside_since(flow, places, j, i - 1, l);
                assert(inside_since(flow, places, j, i, l));
            }
            assert forall|lp: LoopId| #[trigger]
                is_open(flow, places, i, lp) implies next.context.enclosing is Some by {
                let j = choose|j: int| 0 <= j <= i && #[trigger] places[j] == loop_place(flow, lp);
                if j < i {
                    assert(is_open(flow, places, i - 1, lp));
                }
            }
        }
    } else {
        assert forall|lp: LoopId| #[trigger]
            is_open(flow, places, 0, lp) implies places[0].context.enclosing is Some by {
            let j = choose|j: int| 0 <= j <= 0 && #[trigger] places[j] == loop_place(flow, lp);
        }
    }
}

/// The header of a loop opens it, unless the loop's body starts there.
pub proof fn lemma_at_header(
    flow: FunctionFlow,
    rank: spec_fn(BasicBlockId) -> nat,
    place: Place,
    lp: LoopId,
)
    requires
        tables_true(flow, rank),
        is_scoped(flow, place.context),
        flow.loop_tree.has_loop(lp),
        place.block == flow.loop_tree.header_of(lp),
    ensures
        flow.opened_loop(place.context, place.block) == Some(lp) || place == loop_place(flow, lp),
{
    if place.context.header == Some(place.block) {
        let l = place.context.enclosing->0;
        assert(flow.loop_tree.has_loop(l.lp));
    }
}

/// A tour does not come to the header of a loop that it has entered.
proof fn lemma_tour_never_back(
    flow: FunctionFlow,
    rank: spec_fn(BasicBlockId) -> nat,
    places: Seq<Place>,
    i: int,
    lp: LoopId,
)
    requires
        tables_true(flow, rank),
        is_tour(flow, places),
        0 < i < places.len(),
        flow.loop_tree.has_loop(lp),
        is_open(flow, places, i - 1, lp),
    ensures
        places[i].block != flow.loop_tree.header_of(lp),
{
    let place = places[i];
    if place.block == flow.loop_tree.header_of(lp) {
        let j = choose|j: int| 0 <= j <= i - 1 && #[trigger] places[j] == loop_place(flow, lp);
        lemma_enclosed(flow, places, i);
        lemma_at_header(flow, rank, place, lp);
        lemma_never_twice(flow, places, j, i);
        lemma_tour_ends(flow, places, i);
        law_ends_next(flow, place);
        lemma_visits_loop(flow, place, lp);
        lemma_tour_take(flow, places, i + 1);
        let part = places.take(i + 1);
        lemma_walk_push(flow, part, loop_place(flow, lp));
        let longer = part.push(loop_place(flow, lp));
        assert(longer[j] == places[j]);
        lemma_never_twice(flow, longer, j, i + 1);
    }
}

/// A tour is a trip.
pub proof fn lemma_tour_is_trip(
    flow: FunctionFlow,
    rank: spec_fn(BasicBlockId) -> nat,
    places: Seq<Place>,
)
    requires
        tables_true(flow, rank),
        is_tour(flow, places),
    ensures
        is_trip(flow, places),
{
    assert forall|i: int| 0 <= i < places.len() implies flow.next_places(
        #[trigger] places[i],
    ) is Some by {
        lemma_tour_ends(flow, places, i);
        law_ends_next(flow, places[i]);
    }
    assert forall|i: int, j: int, lp: LoopId| !#[trigger] comes_back(flow, places, i, j, lp) by {
        if comes_back(flow, places, i, j, lp) {
            assert(places[i] == loop_place(flow, lp));
            assert(is_open(flow, places, j - 1, lp));
            lemma_tour_never_back(flow, rank, places, j, lp);
        }
    }
}

/// A trip does not come to the header of a loop that it has entered.
proof fn lemma_never_reopens(flow: FunctionFlow, places: Seq<Place>, i: int, lp: LoopId)
    requires
        is_trip(flow, places),
        0 < i < places.len(),
        flow.loop_tree.has_loop(lp),
        is_open(flow, places, i - 1, lp),
    ensures
        places[i].block != flow.loop_tree.header_of(lp),
{
    let j = choose|j: int| 0 <= j <= i - 1 && #[trigger] places[j] == loop_place(flow, lp);
    assert(!comes_back(flow, places, j, i, lp));
}

/// After a loop a trip comes to a true exit of the loop.
pub proof fn lemma_passes_exit(
    flow: FunctionFlow,
    rank: spec_fn(BasicBlockId) -> nat,
    places: Seq<Place>,
    i: int,
)
    requires
        tables_true(flow, rank),
        is_trip(flow, places),
        0 < i < places.len(),
        passes(flow, places[i - 1], places[i]),
    ensures
        exit_true(
            flow,
            rank,
            flow.opened_loop(places[i - 1].context, places[i - 1].block)->0,
            places[i].block,
        ),
{
    let place = places[i - 1];
    let lp = flow.opened_loop(place.context, place.block)->0;
    assert(flow.next_places(place) is Some);
    assert(flow.loop_tree.has_loop(lp));
    law_exit_true(flow, rank, lp, places[i].block);
}

/// Control can get to the blocks that a trip comes to.
pub proof fn lemma_trip_reached(
    flow: FunctionFlow,
    rank: spec_fn(BasicBlockId) -> nat,
    places: Seq<Place>,
    i: int,
)
    requires
        tables_true(flow, rank),
        is_trip(flow, places),
        0 <= i < places.len(),
    ensures
        is_reached(flow, places[i].block),
    decreases i,
{
    if i == 0 {
        let route = seq![flow.cfg.entry];
        assert(connects(flow.body, flow.cfg.entry, flow.cfg.entry, route));
    } else {
        let place = places[i - 1];
        let next = places[i];
        lemma_trip_reached(flow, rank, places, i - 1);
        assert(is_leg(flow, places, i - 1));
        lemma_four_ways(flow, place, next);
        if passes(flow, place, next) {
            lemma_passes_exit(flow, rank, places, i);
        } else if merges(flow, place, next) {
            assert(flow.pd_tree.post_idoms@[place.block.0 as int] == PostIDom::Block(next.block));
            assert(is_post_idom(flow.body, next.block, place.block));
            let out = choose|out: Seq<BasicBlockId>| is_way_out(flow.body, place.block, out);
            let at = choose|at: int| 0 <= at < out.len() && out[at] == next.block;
            lemma_reached_along(flow, out, at);
        } else if follows(flow, place, next) {
            lemma_reached_next(flow, place.block, next.block);
        }
    }
}

/// Control can get to the blocks that a tour comes to.
pub proof fn lemma_tour_reached(
    flow: FunctionFlow,
    rank: spec_fn(BasicBlockId) -> nat,
    places: Seq<Place>,
    i: int,
)
    requires
        tables_true(flow, rank),
        is_tour(flow, places),
        0 <= i < places.len(),
    ensures
        is_reached(flow, places[i].block),
{
    lemma_tour_is_trip(flow, rank, places);
    lemma_trip_reached(flow, rank, places, i);
}

/// A block of a loop is visited inside the loop, or else is the header that opens it.
pub proof fn lemma_loops_open(
    flow: FunctionFlow,
    rank: spec_fn(BasicBlockId) -> nat,
    places: Seq<Place>,
    i: int,
    lp: LoopId,
)
    requires
        tables_true(flow, rank),
        is_trip(flow, places),
        0 <= i < places.len(),
        in_loop(flow, lp, places[i].block),
    ensures
        flow.opened_loop(places[i].context, places[i].block) == Some(lp) || is_open(
            flow,
            places,
            i,
            lp,
        ),
    decreases i,
{
    let next = places[i];
    lemma_enclosed(flow, places, i);
    if next.block == flow.loop_tree.header_of(lp) {
        lemma_at_header(flow, rank, next, lp);
    } else if i > 0 {
        let place = places[i - 1];
        assert(is_leg(flow, places, i - 1));
        lemma_four_ways(flow, place, next);
        if in_loop(flow, lp, place.block) {
            lemma_loops_open(flow, rank, places, i - 1, lp);
            if is_open(flow, places, i - 1, lp) {
                let j = choose|j: int|
                    0 <= j <= i - 1 && #[trigger] places[j] == loop_place(flow, lp);
                assert(places[j] == loop_place(flow, lp));
            } else if passes(flow, place, next) {
                lemma_passes_exit(flow, rank, places, i);
            }
        } else if passes(flow, place, next) {
            lemma_passes_exit(flow, rank, places, i);
        } else {
            lemma_trip_reached(flow, rank, places, i - 1);
            if merges(flow, place, next) {
                lemma_merge_is_idom(flow, rank, places, i - 1, next.block);
                lemma_idom_in_loop(flow, rank, lp, place.block, next.block);
            }
        }
    }
}

/// The conditional whose branches meet at `m` is at index `k`, and up to `i` the
/// innermost construct is the same.
pub open spec fn inside_if_since(
    flow: FunctionFlow,
    places: Seq<Place>,
    k: int,
    i: int,
    m: BasicBlockId,
) -> bool {
    &&& 0 <= k < i
    &&& branches_at(flow, places[k])
    &&& flow.merge_of(places[k].context, places[k].block) == Some(m)
    &&& forall|j: int| k < j <= i ==> (#[trigger] places[j]).context.merge == Some(m)
}

/// Where the branches of a visited block meet is its immediate post dominator.
pub proof fn lemma_merge_is_idom(
    flow: FunctionFlow,
    rank: spec_fn(BasicBlockId) -> nat,
    places: Seq<Place>,
    i: int,
    m: BasicBlockId,
)
    requires
        tables_true(flow, rank),
        is_trip(flow, places),
        0 <= i < places.len(),
        flow.pd_tree.has_block(places[i].block),
        flow.merge_of(places[i].context, places[i].block) == Some(m),
    ensures
        is_post_idom(flow.body, m, places[i].block),
{
    lemma_trip_reached(flow, rank, places, i);
    assert(flow.pd_tree.post_idoms@[places[i].block.0 as int] == PostIDom::Block(m));
}

pub proof fn lemma_inside_if(flow: FunctionFlow, places: Seq<Place>, i: int)
    requires
        is_walk(flow, places),
        places[0] == flow.start(),
        0 <= i < places.len(),
    ensures
        places[i].context.merge matches Some(m) ==> exists|k: int| #[trigger]
            inside_if_since(flow, places, k, i, m),
    decreases i,
{
    if i > 0 {
        let place = places[i - 1];
        let next = places[i];
        lemma_inside_if(flow, places, i - 1);
        assert(is_leg(flow, places, i - 1));
        lemma_four_ways(flow, place, next);
        if let Some(m) = next.context.merge {
            if next.context == place.context {
                let k = choose|k: int| #[trigger] inside_if_since(flow, places, k, i - 1, m);
                assert(inside_if_since(flow, places, k, i, m));
            } else {
                assert(inside_if_since(flow, places, i - 1, i, m));
            }
        }
    }
}

/// Where the branches from a visited block meet ranks higher than the block.
pub proof fn lemma_merge_above(
    flow: FunctionFlow,
    rank: spec_fn(BasicBlockId) -> nat,
    places: Seq<Place>,
    i: int,
)
    requires
        tables_true(flow, rank),
        is_trip(flow, places),
        0 <= i < places.len() - 1,
        merges(flow, places[i], places[i + 1]),
    ensures
        rank(places[i].block) < rank(places[i + 1].block),
{
    let body = flow.body;
    let context = places[i].context;
    let block = places[i].block;
    let idom = places[i + 1].block;
    lemma_enclosed(flow, places, i);
    lemma_merge_is_idom(flow, rank, places, i, idom);
    let out = choose|out: Seq<BasicBlockId>| is_way_out(body, block, out);
    let at = choose|at: int| 0 <= at < out.len() && out[at] == idom;
    lemma_route_take(body, out, at + 1);
    assert(connects(body, block, idom, out.take(at + 1)));
    let route = match context.enclosing {
        Some(l) => {
            let j = choose|j: int| #[trigger] inside_since(flow, places, j, i, l);
            assert(places[j] == loop_place(flow, l.lp));
            assert(is_open(flow, places, i, l.lp));
            lemma_never_reopens(flow, places, i + 1, l.lp);
            if l.header != block {
                if is_gate(body, l.header, block, idom) {
                    lemma_no_gate(body, l.header, block, idom);
                }
                choose|route: Seq<BasicBlockId>| #[trigger]
                    connects(body, block, idom, route) && !route.contains(l.header)
            } else {
                out.take(at + 1)
            }
        },
        None => out.take(at + 1),
    };
    let simple = lemma_simple_route(body, route);
    assert forall|j: int| 0 < j < simple.len() && context.enclosing is Some implies simple[j]
        != context.enclosing->0.header by {
        if context.enclosing->0.header == block {
            assert(simple[0] == block);
        }
    }
    lemma_simple_climbs(flow, rank, places, i, simple, simple.len() - 1);
}

/// A route from a visited block to a block of the innermost loop goes to higher
/// ranks only, if it comes to no block twice, and not to the loop's header.
proof fn lemma_simple_climbs(
    flow: FunctionFlow,
    rank: spec_fn(BasicBlockId) -> nat,
    places: Seq<Place>,
    i: int,
    route: Seq<BasicBlockId>,
    n: int,
)
    requires
        tables_true(flow, rank),
        is_trip(flow, places),
        0 <= i < places.len(),
        flow.opened_loop(places[i].context, places[i].block) is None,
        is_route(flow.body, route),
        route.no_duplicates(),
        route[0] == places[i].block,
        places[i].context.enclosing matches Some(l) ==> in_loop(flow, l.lp, route.last())
            && forall|j: int| 0 < j < route.len() ==> #[trigger] route[j] != l.header,
        0 <= n < route.len(),
    ensures
        n > 0 ==> rank(route[0]) < rank(route[n]),
    decreases n,
{
    if n > 0 {
        let body = flow.body;
        let context = places[i].context;
        let from = route[n - 1];
        let to = route[n];
        lemma_simple_climbs(flow, rank, places, i, route, n - 1);
        assert(is_hop(body, route, n - 1));
        lemma_trip_reached(flow, rank, places, i);
        lemma_reached_along(flow, route, n - 1);
        lemma_reached_along(flow, route, n);
        if !(rank(from) < rank(to)) {
            let lp = choose|lp: LoopId| goes_back(flow, from, to, lp);
            if !in_loop(flow, lp, route[0]) {
                lemma_route_take(body, route, n);
                let at = lemma_enters_at_header(flow, rank, lp, route.take(n));
                assert(route[at] == route[n]);
            } else {
                lemma_loops_open(flow, rank, places, i, lp);
                lemma_enclosed(flow, places, i);
                let l = context.enclosing->0;
                lemma_outer_header_outside(flow, rank, places, i, lp, l);
                lemma_route_skip(body, route, n);
                let rest = route.skip(n);
                let at = lemma_enters_at_header(flow, rank, l.lp, rest);
                assert(rest[at] == route[n + at]);
            }
        }
    }
}

/// The header of another loop than the innermost one that was entered is not
/// inside the innermost one.
proof fn lemma_outer_header_outside(
    flow: FunctionFlow,
    rank: spec_fn(BasicBlockId) -> nat,
    places: Seq<Place>,
    i: int,
    lp: LoopId,
    l: EnclosingLoop,
)
    requires
        tables_true(flow, rank),
        is_trip(flow, places),
        0 <= i < places.len(),
        places[i].context.enclosing == Some(l),
        flow.loop_tree.has_loop(lp),
        is_open(flow, places, i, lp),
        flow.loop_tree.header_of(lp) != l.header,
    ensures
        !in_loop(flow, l.lp, flow.loop_tree.header_of(lp)),
{
    let header = flow.loop_tree.header_of(lp);
    if in_loop(flow, l.lp, header) {
        lemma_enclosed(flow, places, i);
        let since = choose|j: int| #[trigger] inside_since(flow, places, j, i, l);
        let j = choose|j: int| 0 <= j <= i && #[trigger] places[j] == loop_place(flow, lp);
        assert(places[j].context.enclosing == Some(flow.around_body(lp)));
        assert(j < since);
        lemma_loops_open(flow, rank, places, j, l.lp);
        let earlier = choose|k: int| 0 <= k <= j && #[trigger] places[k] == loop_place(flow, l.lp);
        assert(!comes_back(flow, places, earlier, since, l.lp));
    }
}

/// After a loop a trip comes to a block that ranks higher than the loop's
/// header, and that control gets to from there.
pub proof fn lemma_passes_above(
    flow: FunctionFlow,
    rank: spec_fn(BasicBlockId) -> nat,
    places: Seq<Place>,
    i: int,
) -> (route: Seq<BasicBlockId>)
    requires
        tables_true(flow, rank),
        is_trip(flow, places),
        0 < i < places.len(),
        passes(flow, places[i - 1], places[i]),
    ensures
        rank(places[i - 1].block) < rank(places[i].block),
        leads_out(
            flow,
            rank,
            flow.opened_loop(places[i - 1].context, places[i - 1].block)->0,
            places[i].block,
            route,
        ),
{
    let place = places[i - 1];
    let exit = places[i].block;
    let lp = flow.opened_loop(place.context, place.block)->0;
    lemma_passes_exit(flow, rank, places, i);
    if exists|outer: LoopId| goes_back(flow, place.block, exit, outer) {
        let outer = choose|outer: LoopId| goes_back(flow, place.block, exit, outer);
        lemma_loops_open(flow, rank, places, i - 1, outer);
        assert(outer != lp);
        lemma_never_reopens(flow, places, i, outer);
    }
    choose|route: Seq<BasicBlockId>| leads_out(flow, rank, lp, exit, route)
}

/// Where the branches around a place meet, control comes to from there, or it
/// has come past it.
proof fn lemma_ahead_or_past(
    flow: FunctionFlow,
    rank: spec_fn(BasicBlockId) -> nat,
    places: Seq<Place>,
    i: int,
    m: BasicBlockId,
)
    requires
        tables_true(flow, rank),
        is_trip(flow, places),
        0 <= i < places.len(),
        places[i].context.merge == Some(m),
    ensures
        post_dominates(flow.body, m, places[i].block) || rank(m) < rank(places[i].block),
    decreases i,
{
    assert(i > 0);
    let body = flow.body;
    let place = places[i - 1];
    let next = places[i];
    assert(is_leg(flow, places, i - 1));
    lemma_four_ways(flow, place, next);
    lemma_trip_reached(flow, rank, places, i - 1);
    if next.context != place.context {
        lemma_merge_is_idom(flow, rank, places, i - 1, m);
        lemma_post_dominates_next(body, m, place.block, next.block);
    } else {
        lemma_ahead_or_past(flow, rank, places, i - 1, m);
        let ahead = m != place.block && post_dominates(body, m, place.block);
        if passes(flow, place, next) {
            if ahead {
                lemma_ahead_or_past_loop(flow, rank, places, i, m);
            } else {
                let route = lemma_passes_above(flow, rank, places, i);
            }
        } else if merges(flow, place, next) {
            if ahead {
                lemma_merge_is_idom(flow, rank, places, i - 1, next.block);
            } else {
                lemma_merge_above(flow, rank, places, i - 1);
            }
        } else {
            if ahead {
                lemma_post_dominates_next(body, m, place.block, next.block);
            } else if !(rank(place.block) < rank(next.block)) {
                let lp = choose|lp: LoopId| goes_back(flow, place.block, next.block, lp);
                lemma_loops_open(flow, rank, places, i - 1, lp);
                lemma_never_reopens(flow, places, i, lp);
            }
        }
    }
}

/// The same after a loop.
proof fn lemma_ahead_or_past_loop(
    flow: FunctionFlow,
    rank: spec_fn(BasicBlockId) -> nat,
    places: Seq<Place>,
    i: int,
    m: BasicBlockId,
)
    requires
        tables_true(flow, rank),
        is_trip(flow, places),
        0 < i < places.len(),
        places[i - 1].context.merge == Some(m),
        passes(flow, places[i - 1], places[i]),
        m != places[i - 1].block,
        post_dominates(flow.body, m, places[i - 1].block),
    ensures
        post_dominates(flow.body, m, places[i].block) || rank(m) < rank(places[i].block),
{
    let body = flow.body;
    let place = places[i - 1];
    let exit = places[i].block;
    let lp = flow.opened_loop(place.context, place.block)->0;
    let route = lemma_passes_above(flow, rank, places, i);
    let before = route.drop_last();
    if before.contains(m) {
        let j = choose|j: int| 0 <= j < before.len() && before[j] == m;
        assert(route[j] == m);
        if in_loop(flow, lp, m) {
            lemma_inside_if(flow, places, i - 1);
            let k = choose|k: int| #[trigger] inside_if_since(flow, places, k, i - 1, m);
            lemma_merge_is_idom(flow, rank, places, k, m);
            if in_loop(flow, lp, places[k].block) {
                lemma_loops_open(flow, rank, places, k, lp);
                let o = choose|o: int| 0 <= o <= k && #[trigger] places[o] == loop_place(flow, lp);
                assert(places[o] == loop_place(flow, lp));
                assert(is_open(flow, places, i - 2, lp));
                lemma_never_reopens(flow, places, i - 1, lp);
            } else {
                lemma_trip_reached(flow, rank, places, k);
                lemma_idom_in_loop(flow, rank, lp, places[k].block, m);
            }
        }
    } else {
        lemma_post_dominates_along(body, m, route);
    }
}

/// No place of a tour crosses a merge.
proof fn lemma_tour_nests(
    flow: FunctionFlow,
    rank: spec_fn(BasicBlockId) -> nat,
    places: Seq<Place>,
)
    requires
        tables_true(flow, rank),
        is_tour(flow, places),
    ensures
        !crosses_merge(flow, places.last()),
{
    let body = flow.body;
    let i = places.len() - 1;
    let place = places[i];
    let block = place.block;
    lemma_tour_is_trip(flow, rank, places);
    if crosses_merge(flow, place) {
        let m = place.context.merge->0;
        let idom = flow.merge_of(place.context, block)->0;
        assert(goes_to(body, block, m));
        lemma_trip_reached(flow, rank, places, i);
        lemma_merge_is_idom(flow, rank, places, i, idom);
        lemma_ahead_or_past(flow, rank, places, i, m);
        if m != block && post_dominates(body, m, block) {
            let out = choose|out: Seq<BasicBlockId>| is_way_out(body, block, out);
            let rest = lemma_way_out_from(body, m, block, out);
            lemma_post_dominates_next(body, idom, block, m);
            lemma_post_dominates_both(body, m, idom, rest);
        } else {
            // The branch goes back to the header of a loop that is open where
            // the conditional is.
            let lp = choose|lp: LoopId| goes_back(flow, block, m, lp);
            lemma_loops_open(flow, rank, places, i, lp);
            let j = choose|j: int| 0 <= j <= i && #[trigger] places[j] == loop_place(flow, lp);
            lemma_inside_if(flow, places, i);
            let k = choose|k: int| #[trigger] inside_if_since(flow, places, k, i, m);
            assert(places[j].context.merge is None);
            assert(j <= k);
            lemma_tour_take(flow, places, k + 1);
            let part = places.take(k + 1);
            let at = Place { context: places[k].context, block: m };
            lemma_visits_merge(flow, places[k], m);
            lemma_walk_push(flow, part, at);
            let longer = part.push(at);
            assert(longer[j] == loop_place(flow, lp));
            assert(is_open(flow, longer, k, lp));
            lemma_tour_is_trip(flow, rank, longer);
            lemma_never_reopens(flow, longer, k + 1, lp);
        }
    }
}

/// The listing of a branch visits where its branches meet.
pub proof fn lemma_visits_merge(flow: FunctionFlow, place: Place, m: BasicBlockId)
    requires
        branches_at(flow, place),
        flow.merge_of(place.context, place.block) == Some(m),
    ensures
        flow.visits(place, Place { context: place.context, block: m }),
{
    let places = flow.next_places(place)->0;
    assert(places.last() == (Place { context: place.context, block: m }));
}

/// If what is known of a function's control flow is true, no branch goes to
/// where the conditional around it has its branches meet while its own meet
/// elsewhere.
pub proof fn law_true_tables_nest(flow: FunctionFlow, rank: spec_fn(BasicBlockId) -> nat)
    requires
        flow.serializable(),
        tables_true(flow, rank),
    ensures
        merges_nest(flow, flow.start()),
{
    assert forall|places: Seq<Place>| #[trigger]
        is_walk(flow, places) && places[0] == flow.start() implies !crosses_merge(
        flow,
        places.last(),
    ) by {
        lemma_tour_nests(flow, rank, places);
    }
}

/// The structured code of a function runs as the function does, whatever the
/// conditions come out as and after whatever number of events one looks, if what
/// is known of the function's control flow is true.
pub proof fn law_true_tables_same_runs(
    flow: FunctionFlow,
    rank: spec_fn(BasicBlockId) -> nat,
    supply: Supply,
    run: Run,
)
    requires
        flow.serializable(),
        tables_true(flow, rank),
    ensures
        block_runs(flow.body, flow.cfg.entry, supply, run) <==> steps_run(
            flow.body.store,
            flow.serialized(),
            supply,
            run,
            Ending::Stopped,
        ),
{
    law_true_tables_nest(flow, rank);
    law_same_runs(flow, supply, run);
}

} // verus!
