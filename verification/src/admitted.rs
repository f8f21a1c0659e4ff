//! Which functions can be listed, if what is known of their control flow is true.

use vstd::prelude::*;

use crate::admission::{
    is_known, is_known_context, is_path, law_ends_next, lemma_place_bound, place_bound,
};
use crate::analysis::{LoopId, PostIDom};
use crate::dominance::{
    connects, goes_back, goes_to, in_loop, is_post_idom, is_reached, is_way_out,
    lemma_idom_in_loop, lemma_reached_along, lemma_reached_next,
};
use crate::exits::{exit_true, law_exit_true};
use crate::flow::FunctionFlow;
use crate::ir::{BasicBlockId, InstKind};
use crate::nesting::{
    comes_back, enters, follows, inside_if_since, inside_since, is_open, is_tour, is_trip,
    lemma_enclosed, lemma_four_ways, lemma_inside_if, lemma_loops_open, lemma_merge_above,
    lemma_passes_above, lemma_tour_is_trip, lemma_trip_reached,
    lemma_visits_merge, loop_place, merges, passes, tables_true,
};
use crate::walk::{is_leg, is_walk, lemma_visits_loop, lemma_walk_push, Place};

verus! {

/// A trip goes to blocks of higher rank, unless it enters a loop.
proof fn lemma_trip_climbs(
    flow: FunctionFlow,
    rank: spec_fn(BasicBlockId) -> nat,
    places: Seq<Place>,
    i: int,
)
    requires
        tables_true(flow, rank),
        is_trip(flow, places),
        0 < i < places.len(),
    ensures
        enters(flow, places[i - 1], places[i]) || rank(places[i - 1].block) < rank(
            places[i].block,
        ),
{
    let place = places[i - 1];
    let next = places[i];
    assert(is_leg(flow, places, i - 1));
    lemma_four_ways(flow, place, next);
    lemma_trip_reached(flow, rank, places, i - 1);
    if enters(flow, place, next) {
    } else if passes(flow, place, next) {
        let route = lemma_passes_above(flow, rank, places, i);
    } else if merges(flow, place, next) {
        lemma_merge_above(flow, rank, places, i - 1);
    } else if !(rank(place.block) < rank(next.block)) {
        let (from, to) = (place.block, next.block);
        let lp = choose|lp: LoopId| goes_back(flow, from, to, lp);
        lemma_loops_open(flow, rank, places, i - 1, lp);
        let j = choose|j: int| 0 <= j <= i - 1 && #[trigger] places[j] == loop_place(flow, lp);
        assert(!comes_back(flow, places, j, i, lp));
    }
}

/// Goes up along a trip.
spec fn height(rank: spec_fn(BasicBlockId) -> nat, place: Place) -> int {
    2 * rank(place.block) + if place.context.header == Some(place.block) {
        1int
    } else {
        0
    }
}

proof fn lemma_trip_height(
    flow: FunctionFlow,
    rank: spec_fn(BasicBlockId) -> nat,
    places: Seq<Place>,
    i: int,
    j: int,
)
    requires
        tables_true(flow, rank),
        is_trip(flow, places),
        0 <= i <= j < places.len(),
    ensures
        rank(places[i].block) <= rank(places[j].block),
        i < j ==> height(rank, places[i]) < height(rank, places[j]),
    decreases j - i,
{
    if i < j {
        lemma_trip_height(flow, rank, places, i, j - 1);
        lemma_trip_climbs(flow, rank, places, j);
    }
}

/// Every walk from the start of the function is a trip.
spec fn all_trips(flow: FunctionFlow) -> bool {
    forall|places: Seq<Place>| #[trigger]
        is_walk(flow, places) && places[0] == flow.start() ==> is_trip(flow, places)
}

proof fn lemma_has_block(flow: FunctionFlow, places: Seq<Place>)
    requires
        flow.wf(),
        all_trips(flow),
        is_walk(flow, places),
        places[0] == flow.start(),
    ensures
        flow.body.order.has_block(places.last().block),
{
    let place = places.last();
    assert(is_trip(flow, places));
    assert(flow.next_places(places[places.len() - 1]) is Some);
    if let Some(lp) = flow.opened_loop(place.context, place.block) {
        lemma_visits_loop(flow, place, lp);
        let inner = loop_place(flow, lp);
        lemma_walk_push(flow, places, inner);
        let longer = places.push(inner);
        assert(is_trip(flow, longer));
        assert(flow.next_places(longer[longer.len() - 1]) is Some);
    }
}

proof fn lemma_walk_take(flow: FunctionFlow, places: Seq<Place>, n: int)
    requires
        is_walk(flow, places),
        0 < n <= places.len(),
    ensures
        is_walk(flow, places.take(n)),
{
    let part = places.take(n);
    assert forall|i: int| 0 <= i < part.len() - 1 implies #[trigger] is_leg(flow, part, i) by {
        assert(is_leg(flow, places, i));
    }
}

proof fn lemma_trip_known(flow: FunctionFlow, places: Seq<Place>, i: int)
    requires
        flow.wf(),
        all_trips(flow),
        is_walk(flow, places),
        places[0] == flow.start(),
        0 <= i < places.len(),
    ensures
        is_known(flow, places[i]),
{
    lemma_walk_take(flow, places, i + 1);
    lemma_has_block(flow, places.take(i + 1));
    lemma_enclosed(flow, places, i);
    lemma_inside_if(flow, places, i);
    if let Some(m) = places[i].context.merge {
        let k = choose|k: int| #[trigger] inside_if_since(flow, places, k, i, m);
        lemma_visits_merge(flow, places[k], m);
        lemma_walk_take(flow, places, k + 1);
        let at = Place { context: places[k].context, block: m };
        lemma_walk_push(flow, places.take(k + 1), at);
        lemma_has_block(flow, places.take(k + 1).push(at));
    }
    assert(is_known_context(flow, places[i].context));
}

proof fn lemma_trip_ends(
    flow: FunctionFlow,
    rank: spec_fn(BasicBlockId) -> nat,
    places: Seq<Place>,
)
    requires
        tables_true(flow, rank),
        all_trips(flow),
        is_walk(flow, places),
        places[0] == flow.start(),
    ensures
        flow.ends(places.last()),
    decreases place_bound(flow) - places.len(),
{
    let place = places.last();
    assert(is_trip(flow, places));
    lemma_trip_bound(flow, rank, places);
    law_ends_next(flow, place);
    assert(flow.next_places(places[places.len() - 1]) is Some);
    let nexts = flow.next_places(place)->0;
    assert forall|i: int| 0 <= i < nexts.len() implies flow.ends(#[trigger] nexts[i]) by {
        assert(flow.visits(place, nexts[i]));
        lemma_walk_push(flow, places, nexts[i]);
        let longer = places.push(nexts[i]);
        lemma_trip_bound(flow, rank, longer);
        lemma_trip_ends(flow, rank, longer);
    }
}

proof fn lemma_trip_bound(
    flow: FunctionFlow,
    rank: spec_fn(BasicBlockId) -> nat,
    places: Seq<Place>,
)
    requires
        tables_true(flow, rank),
        all_trips(flow),
        is_walk(flow, places),
        places[0] == flow.start(),
    ensures
        places.len() <= place_bound(flow),
{
    assert(is_trip(flow, places));
    assert forall|i: int, j: int|
        0 <= i < places.len() && 0 <= j < places.len() && i != j implies places[i] != places[j] by {
        if i < j {
            lemma_trip_height(flow, rank, places, i, j);
        } else {
            lemma_trip_height(flow, rank, places, j, i);
        }
    }
    assert forall|i: int| 0 <= i < places.len() implies is_known(flow, #[trigger] places[i]) by {
        lemma_trip_known(flow, places, i);
    }
    assert(is_path(flow, places));
    lemma_place_bound(flow, places);
}

/// If what is known of a function's control flow is true, the function can be
/// listed just if its listing can always go on, and never comes back to the
/// header of a loop that it is in. It can go on at a block just if the loop that
/// the block opens has a settled exit, or if it opens none, the block has an
/// end, and a known post dominator in case that is a branch.
pub proof fn law_admitted(flow: FunctionFlow, rank: spec_fn(BasicBlockId) -> nat)
    requires
        tables_true(flow, rank),
    ensures
        flow.serializable() <==> forall|places: Seq<Place>| #[trigger]
            is_walk(flow, places) && places[0] == flow.start() ==> {
                &&& forall|i: int| #![trigger places[i]]
                    0 <= i < places.len() ==> match flow.opened_loop(
                        places[i].context,
                        places[i].block,
                    ) {
                        Some(lp) => flow.exit_determined(lp),
                        None => flow.body.terminator_of(places[i].block) matches Some(end) && (
                        flow.body.store.insts@[end.0 as int] is Branch ==> places[i].block.0
                            < flow.pd_tree.post_idoms@.len()),
                    }
                &&& forall|i: int, j: int, lp: LoopId| !#[trigger]
                    comes_back(flow, places, i, j, lp)
            },
{
    assert forall|place: Place| #[trigger]
        flow.next_places(place) is Some <==> match flow.opened_loop(place.context, place.block) {
        Some(lp) => flow.exit_determined(lp),
        None => flow.body.terminator_of(place.block) matches Some(end) && (
        flow.body.store.insts@[end.0 as int] is Branch ==> place.block.0
            < flow.pd_tree.post_idoms@.len()),
    } by {}
    if flow.serializable() {
        assert forall|places: Seq<Place>| #[trigger]
            is_walk(flow, places) && places[0] == flow.start() implies is_trip(flow, places) by {
            assert(is_tour(flow, places));
            lemma_tour_is_trip(flow, rank, places);
        }
        assert forall|places: Seq<Place>| #[trigger]
            is_walk(flow, places) && places[0] == flow.start() implies {
            &&& forall|i: int| #![trigger places[i]]
                0 <= i < places.len() ==> match flow.opened_loop(
                    places[i].context,
                    places[i].block,
                ) {
                    Some(lp) => flow.exit_determined(lp),
                    None => flow.body.terminator_of(places[i].block) matches Some(end) && (
                    flow.body.store.insts@[end.0 as int] is Branch ==> places[i].block.0
                        < flow.pd_tree.post_idoms@.len()),
                }
            &&& forall|i: int, j: int, lp: LoopId| !#[trigger]
                comes_back(flow, places, i, j, lp)
        } by {
            assert(is_trip(flow, places));
            assert forall|i: int| #![trigger places[i]]
                0 <= i < places.len() implies match flow.opened_loop(
                places[i].context,
                places[i].block,
            ) {
                Some(lp) => flow.exit_determined(lp),
                None => flow.body.terminator_of(places[i].block) matches Some(end) && (
                flow.body.store.insts@[end.0 as int] is Branch ==> places[i].block.0
                    < flow.pd_tree.post_idoms@.len()),
            } by {
                assert(flow.next_places(places[i]) is Some);
            }
        }
    }
    if forall|places: Seq<Place>| #[trigger]
        is_walk(flow, places) && places[0] == flow.start() ==> {
            &&& forall|i: int| #![trigger places[i]]
                0 <= i < places.len() ==> match flow.opened_loop(
                    places[i].context,
                    places[i].block,
                ) {
                    Some(lp) => flow.exit_determined(lp),
                    None => flow.body.terminator_of(places[i].block) matches Some(end) && (
                    flow.body.store.insts@[end.0 as int] is Branch ==> places[i].block.0
                        < flow.pd_tree.post_idoms@.len()),
                }
            &&& forall|i: int, j: int, lp: LoopId| !#[trigger]
                comes_back(flow, places, i, j, lp)
        } {
        assert forall|places: Seq<Place>| #[trigger]
            is_walk(flow, places) && places[0] == flow.start() implies is_trip(flow, places) by {
            assert forall|i: int| 0 <= i < places.len() implies flow.next_places(
                #[trigger] places[i],
            ) is Some by {}
        }
        let start = seq![flow.start()];
        assert(is_walk(flow, start));
        lemma_trip_ends(flow, rank, start);
    }
}

/// Where control goes on after a place, it can get to.
proof fn lemma_next_reached(
    flow: FunctionFlow,
    rank: spec_fn(BasicBlockId) -> nat,
    place: Place,
    next: Place,
)
    requires
        tables_true(flow, rank),
        is_reached(flow, place.block),
        flow.visits(place, next),
    ensures
        is_reached(flow, next.block),
        passes(flow, place, next) ==> exit_true(
            flow,
            rank,
            flow.opened_loop(place.context, place.block)->0,
            next.block,
        ),
        merges(flow, place, next) ==> is_post_idom(flow.body, next.block, place.block),
{
    lemma_four_ways(flow, place, next);
    if passes(flow, place, next) {
        let lp = flow.opened_loop(place.context, place.block)->0;
        assert(flow.loop_tree.has_loop(lp));
        law_exit_true(flow, rank, lp, next.block);
    }
    if merges(flow, place, next) {
        assert(flow.pd_tree.post_idoms@[place.block.0 as int] == PostIDom::Block(next.block));
        assert(is_post_idom(flow.body, next.block, place.block));
        let out = choose|out: Seq<BasicBlockId>| is_way_out(flow.body, place.block, out);
        let at = choose|at: int| 0 <= at < out.len() && out[at] == next.block;
        lemma_reached_along(flow, out, at);
    }
    if follows(flow, place, next) {
        lemma_reached_next(flow, place.block, next.block);
    }
}

/// Every block that control can get to has an end, and a known post dominator if
/// that is a branch. No branch meets again at the header of a loop that it is
/// not before. Every loop has a settled exit, and no loop is inside of another.
pub open spec fn is_plain(flow: FunctionFlow, rank: spec_fn(BasicBlockId) -> nat) -> bool {
    &&& forall|block: BasicBlockId| #[trigger]
        is_reached(flow, block) ==> {
            &&& block.0 < flow.body.order.blocks@.len()
            &&& flow.body.order.blocks@[block.0 as int]@.len() > 0
            &&& match flow.body.store.insts@[flow.body.order.blocks@[block.0 as int]@.last().0 as int] {
                InstKind::Nop | InstKind::Plain => false,
                InstKind::Branch { .. } => {
                    &&& block.0 < flow.pd_tree.post_idoms@.len()
                    &&& forall|lp: LoopId| #[trigger]
                        flow.loop_tree.has_loop(lp) && flow.pd_tree.post_idoms@[block.0 as int]
                            == PostIDom::Block(flow.loop_tree.header_of(lp)) ==> rank(block)
                            < rank(flow.loop_tree.header_of(lp))
                },
                _ => true,
            }
        }
    &&& forall|lp: LoopId| #[trigger] flow.loop_tree.has_loop(lp) ==> flow.exit_determined(lp)
    &&& forall|lp: LoopId, other: LoopId| #[trigger]
        in_loop(flow, other, flow.loop_tree.header_of(lp)) && flow.loop_tree.has_loop(lp) ==> lp
            == other
}

/// The innermost loop of a trip being another, a block of a loop that the trip
/// has entered is not visited.
proof fn lemma_outer_loop_left(
    flow: FunctionFlow,
    rank: spec_fn(BasicBlockId) -> nat,
    places: Seq<Place>,
    j: int,
    i: int,
    lp: LoopId,
)
    requires
        tables_true(flow, rank),
        is_plain(flow, rank),
        is_trip(flow, places),
        0 <= j < i < places.len(),
        flow.loop_tree.has_loop(lp),
        places[j] == loop_place(flow, lp),
        places[i].context.enclosing matches Some(l) && l.lp != lp,
    ensures
        !in_loop(flow, lp, places[i].block),
{
    let l = places[i].context.enclosing->0;
    lemma_enclosed(flow, places, i);
    let since = choose|s: int| #[trigger] inside_since(flow, places, s, i, l);
    assert(places[j].context.enclosing == Some(flow.around_body(lp)));
    assert(j < since);
    assert(!in_loop(flow, lp, places[since].block));
    lemma_stays_out(flow, rank, places, j, since, i, lp);
}

/// A trip that is outside of a loop that it has entered stays outside.
proof fn lemma_stays_out(
    flow: FunctionFlow,
    rank: spec_fn(BasicBlockId) -> nat,
    places: Seq<Place>,
    j: int,
    from: int,
    i: int,
    lp: LoopId,
)
    requires
        tables_true(flow, rank),
        is_trip(flow, places),
        0 <= j < from <= i < places.len(),
        flow.loop_tree.has_loop(lp),
        places[j] == loop_place(flow, lp),
        !in_loop(flow, lp, places[from].block),
    ensures
        !in_loop(flow, lp, places[i].block),
    decreases i - from,
{
    if from < i {
        lemma_stays_out(flow, rank, places, j, from, i - 1, lp);
        let place = places[i - 1];
        let next = places[i];
        assert(is_leg(flow, places, i - 1));
        lemma_four_ways(flow, place, next);
        lemma_trip_reached(flow, rank, places, i - 1);
        lemma_next_reached(flow, rank, place, next);
        assert(!comes_back(flow, places, j, i, lp));
        if in_loop(flow, lp, next.block) {
            if merges(flow, place, next) {
                lemma_idom_in_loop(flow, rank, lp, place.block, next.block);
            }
        }
    }
}

proof fn lemma_plain_step(
    flow: FunctionFlow,
    rank: spec_fn(BasicBlockId) -> nat,
    places: Seq<Place>,
    next: Place,
)
    requires
        tables_true(flow, rank),
        is_plain(flow, rank),
        is_trip(flow, places),
        flow.visits(places.last(), next),
    ensures
        is_trip(flow, places.push(next)),
{
    let longer = places.push(next);
    let n = places.len() - 1;
    let place = places[n];
    lemma_walk_push(flow, places, next);
    lemma_trip_reached(flow, rank, places, n);
    lemma_next_reached(flow, rank, place, next);
    lemma_four_ways(flow, place, next);
    assert forall|i: int| 0 <= i < longer.len() implies flow.next_places(
        #[trigger] longer[i],
    ) is Some by {
        if i == n + 1 {
            lemma_plain_goes_on(flow, rank, next);
        } else {
            assert(longer[i] == places[i]);
        }
    }
    assert forall|i: int, j: int, lp: LoopId| !#[trigger] comes_back(flow, longer, i, j, lp) by {
        if comes_back(flow, longer, i, j, lp) {
            assert(longer[i] == places[i]);
            if j <= n {
                assert(longer[j] == places[j]);
                assert(comes_back(flow, places, i, j, lp));
            } else {
                lemma_plain_not_back(flow, rank, places, next, i, lp);
            }
        }
    }
}

proof fn lemma_plain_goes_on(
    flow: FunctionFlow,
    rank: spec_fn(BasicBlockId) -> nat,
    place: Place,
)
    requires
        tables_true(flow, rank),
        is_plain(flow, rank),
        is_reached(flow, place.block),
    ensures
        flow.next_places(place) is Some,
{
    if let Some(lp) = flow.opened_loop(place.context, place.block) {
        assert(flow.loop_tree.has_loop(lp));
    }
}

proof fn lemma_plain_not_back(
    flow: FunctionFlow,
    rank: spec_fn(BasicBlockId) -> nat,
    places: Seq<Place>,
    next: Place,
    j: int,
    lp: LoopId,
)
    requires
        tables_true(flow, rank),
        is_plain(flow, rank),
        is_trip(flow, places),
        flow.visits(places.last(), next),
        0 <= j < places.len(),
        flow.loop_tree.has_loop(lp),
        places[j] == loop_place(flow, lp),
    ensures
        next.block != flow.loop_tree.header_of(lp),
{
    let n = places.len() - 1;
    let place = places[n];
    let header = flow.loop_tree.header_of(lp);
    if next.block == header {
        lemma_four_ways(flow, place, next);
        lemma_trip_reached(flow, rank, places, n);
        lemma_next_reached(flow, rank, place, next);
        lemma_trip_height(flow, rank, places, j, n);
        lemma_enclosed(flow, places, n);
        assert(is_open(flow, places, n, lp));
        if enters(flow, place, next) {
            assert(place.block == header);
            if j < n {
                assert(!comes_back(flow, places, j, n, lp));
            }
        } else if passes(flow, place, next) {
            let opened = flow.opened_loop(place.context, place.block)->0;
            assert(flow.loop_tree.has_loop(opened));
            let back = exists|outer: LoopId| goes_back(flow, place.block, header, outer);
            if back {
                let outer = choose|outer: LoopId| goes_back(flow, place.block, header, outer);
                assert(in_loop(flow, outer, flow.loop_tree.header_of(opened)));
                assert(outer == opened);
            }
        } else if merges(flow, place, next) {
            assert(flow.pd_tree.post_idoms@[place.block.0 as int] == PostIDom::Block(header));
            let end = flow.body.terminator_of(place.block)->0;
            let insts = flow.body.order.blocks@[place.block.0 as int]@;
            assert(end == insts[insts.len() - 1]);
            assert(flow.body.store.insts@[end.0 as int] is Branch);
            assert(rank(place.block) < rank(header));
        } else {
            assert(goes_to(flow.body, place.block, header));
            let other = choose|other: LoopId| goes_back(flow, place.block, header, other);
            assert(flow.loop_tree.has_loop(other));
            assert(other == lp);
            let l = place.context.enclosing->0;
            assert(l.header != header);
            assert(l.lp != lp);
            assert(j < n);
            lemma_outer_loop_left(flow, rank, places, j, n, lp);
        }
    }
}

proof fn lemma_plain_trips(
    flow: FunctionFlow,
    rank: spec_fn(BasicBlockId) -> nat,
    places: Seq<Place>,
)
    requires
        tables_true(flow, rank),
        is_plain(flow, rank),
        is_walk(flow, places),
        places[0] == flow.start(),
    ensures
        is_trip(flow, places),
    decreases places.len(),
{
    let n = places.len() - 1;
    if n == 0 {
        assert(connects(flow.body, flow.cfg.entry, flow.cfg.entry, seq![flow.cfg.entry]));
        lemma_plain_goes_on(flow, rank, flow.start());
        assert(places =~= seq![flow.start()]);
    } else {
        lemma_walk_take(flow, places, n);
        let part = places.take(n);
        lemma_plain_trips(flow, rank, part);
        assert(is_leg(flow, places, n - 1));
        assert(part.last() == places[n - 1]);
        lemma_plain_step(flow, rank, part, places[n]);
        assert(part.push(places[n]) =~= places);
    }
}

/// A function of whose control flow what is known is true can be listed, if its
/// blocks have ends and its loops settled exits, none of them is inside of
/// another, and no branch meets again at the header of the loop that it is in.
pub proof fn law_plain_is_admitted(flow: FunctionFlow, rank: spec_fn(BasicBlockId) -> nat)
    requires
        tables_true(flow, rank),
        is_plain(flow, rank),
    ensures
        flow.serializable(),
{
    assert forall|places: Seq<Place>| #[trigger]
        is_walk(flow, places) && places[0] == flow.start() implies is_trip(flow, places) by {
        lemma_plain_trips(flow, rank, places);
    }
    let start = seq![flow.start()];
    assert(is_walk(flow, start));
    lemma_trip_ends(flow, rank, start);
}

} // verus!
