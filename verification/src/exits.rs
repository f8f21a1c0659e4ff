//! Where control goes on after a loop, if what is known of a function's control
//! flow is true.

use vstd::prelude::*;

use crate::analysis::LoopId;
use crate::dominance::{
    connects, dominates, frontiers_true, goes_back, goes_to, graph_true, in_frontier, in_loop,
    is_hop, is_reached, is_route, leads_over, lemma_enters_at_header, lemma_reached_along,
    lemma_reached_next, lemma_route_join, lemma_route_skip, lemma_route_take, lemma_simple_route,
    loops_true, stays_in,
};
use crate::flow::FunctionFlow;
use crate::ir::BasicBlockId;
use crate::shape::lemma_joint_picked;

verus! {

/// Control gets along `route` from the loop's header to `exit`: on the way it is
/// in the loop, or else at blocks that rank lower than `exit`.
pub open spec fn leads_out(
    flow: FunctionFlow,
    rank: spec_fn(BasicBlockId) -> nat,
    lp: LoopId,
    exit: BasicBlockId,
    route: Seq<BasicBlockId>,
) -> bool {
    &&& connects(flow.body, flow.loop_tree.header_of(lp), exit, route)
    &&& forall|i: int|
        0 <= i < route.len() - 1 ==> in_loop(flow, lp, #[trigger] route[i]) || rank(route[i])
            < rank(exit)
}

/// `exit` is outside of the loop. Control gets there from the loop's header, on
/// to a higher rank, unless it goes back to the header of a loop around. Nor is
/// `exit` inside of a loop that the header is not in, unless at its header.
pub open spec fn exit_true(
    flow: FunctionFlow,
    rank: spec_fn(BasicBlockId) -> nat,
    lp: LoopId,
    exit: BasicBlockId,
) -> bool {
    let header = flow.loop_tree.header_of(lp);
    &&& !in_loop(flow, lp, exit)
    &&& is_reached(flow, exit)
    &&& (rank(header) < rank(exit) && exists|route: Seq<BasicBlockId>|
        leads_out(flow, rank, lp, exit, route)) || exists|outer: LoopId|
        goes_back(flow, header, exit, outer)
    &&& forall|other: LoopId| #[trigger]
        in_loop(flow, other, exit) ==> in_loop(flow, other, header)
            || flow.loop_tree.header_of(other) == exit
}

/// Dominance goes on.
proof fn lemma_dominates_on(
    flow: FunctionFlow,
    a: BasicBlockId,
    b: BasicBlockId,
    c: BasicBlockId,
)
    requires
        dominates(flow, a, b),
        dominates(flow, b, c),
    ensures
        dominates(flow, a, c),
{
    assert forall|route: Seq<BasicBlockId>| #[trigger]
        connects(flow.body, flow.cfg.entry, c, route) implies route.contains(a) by {
        let i = choose|i: int| 0 <= i < route.len() && route[i] == b;
        lemma_route_take(flow.body, route, i + 1);
        let part = route.take(i + 1);
        assert(connects(flow.body, flow.cfg.entry, b, part));
        let j = choose|j: int| 0 <= j < part.len() && part[j] == a;
        assert(route[j] == a);
    }
}

/// Two blocks that dominate each other are the same.
proof fn lemma_dominates_both(
    flow: FunctionFlow,
    a: BasicBlockId,
    b: BasicBlockId,
    route: Seq<BasicBlockId>,
)
    requires
        connects(flow.body, flow.cfg.entry, a, route),
        dominates(flow, a, b),
        dominates(flow, b, a),
    ensures
        a == b,
    decreases route.len(),
{
    if a != b {
        let i = choose|i: int| 0 <= i < route.len() && route[i] == b;
        lemma_route_take(flow.body, route, i + 1);
        lemma_dominates_both(flow, b, a, route.take(i + 1));
    }
}

/// The header of a loop dominates the loop's blocks.
proof fn lemma_header_dominates(
    flow: FunctionFlow,
    rank: spec_fn(BasicBlockId) -> nat,
    lp: LoopId,
    block: BasicBlockId,
)
    requires
        loops_true(flow, rank),
        in_loop(flow, lp, block),
    ensures
        dominates(flow, flow.loop_tree.header_of(lp), block),
{
    let header = flow.loop_tree.header_of(lp);
    assert forall|route: Seq<BasicBlockId>| #[trigger]
        connects(flow.body, flow.cfg.entry, block, route) implies route.contains(header) by {
        if in_loop(flow, lp, flow.cfg.entry) {
            assert(route[0] == header);
        } else {
            lemma_entry_reached(flow);
            let at = lemma_enters_at_header(flow, rank, lp, route);
            assert(route[at] == header);
        }
    }
}

proof fn lemma_entry_reached(flow: FunctionFlow)
    ensures
        is_reached(flow, flow.cfg.entry),
{
    let route = seq![flow.cfg.entry];
    assert(connects(flow.body, flow.cfg.entry, flow.cfg.entry, route));
}

/// The rank goes up along a route from where the function starts that does not
/// come to a block twice.
proof fn lemma_climbs_from_entry(
    flow: FunctionFlow,
    rank: spec_fn(BasicBlockId) -> nat,
    route: Seq<BasicBlockId>,
    i: int,
    j: int,
)
    requires
        loops_true(flow, rank),
        is_route(flow.body, route),
        route[0] == flow.cfg.entry,
        route.no_duplicates(),
        0 <= i <= j < route.len(),
    ensures
        i < j ==> rank(route[i]) < rank(route[j]),
    decreases j - i,
{
    if i < j {
        lemma_climbs_from_entry(flow, rank, route, i, j - 1);
        assert(is_hop(flow.body, route, j - 1));
        lemma_entry_reached(flow);
        lemma_reached_along(flow, route, j - 1);
        if !(rank(route[j - 1]) < rank(route[j])) {
            let (from, to) = (route[j - 1], route[j]);
            let lp = choose|lp: LoopId| goes_back(flow, from, to, lp);
            if in_loop(flow, lp, route[0]) {
                assert(route[0] == route[j]);
            } else {
                lemma_route_take(flow.body, route, j);
                let at = lemma_enters_at_header(flow, rank, lp, route.take(j));
                assert(route[at] == route[j]);
            }
        }
    }
}

/// The rank goes up along a route through a loop from its header that does not
/// come to a block twice.
proof fn lemma_climbs_in_loop(
    flow: FunctionFlow,
    rank: spec_fn(BasicBlockId) -> nat,
    lp: LoopId,
    route: Seq<BasicBlockId>,
    n: int,
)
    requires
        loops_true(flow, rank),
        is_route(flow.body, route),
        flow.loop_tree.has_loop(lp),
        route[0] == flow.loop_tree.header_of(lp),
        stays_in(flow, lp, route),
        route.no_duplicates(),
        0 <= n < route.len(),
    ensures
        n > 0 ==> rank(route[0]) < rank(route[n]),
    decreases n,
{
    if n > 0 {
        let header = route[0];
        lemma_climbs_in_loop(flow, rank, lp, route, n - 1);
        assert(is_hop(flow.body, route, n - 1));
        lemma_reached_along(flow, route, n - 1);
        if !(rank(route[n - 1]) < rank(route[n])) {
            let (from, to) = (route[n - 1], route[n]);
            let other = choose|other: LoopId| goes_back(flow, from, to, other);
            if in_loop(flow, other, header) {
                assert(in_loop(flow, lp, route[n]));
                lemma_header_dominates(flow, rank, other, header);
                lemma_header_dominates(flow, rank, lp, route[n]);
                let way = choose|way: Seq<BasicBlockId>| #[trigger]
                    connects(flow.body, flow.cfg.entry, header, way);
                lemma_dominates_both(flow, header, route[n], way);
            } else {
                lemma_route_take(flow.body, route, n);
                let at = lemma_enters_at_header(flow, rank, other, route.take(n));
                assert(route[at] == route[n]);
            }
        }
    }
}

/// A way through a loop from its header to one of its blocks.
proof fn lemma_way_in(
    flow: FunctionFlow,
    rank: spec_fn(BasicBlockId) -> nat,
    lp: LoopId,
    block: BasicBlockId,
) -> (route: Seq<BasicBlockId>)
    requires
        loops_true(flow, rank),
        in_loop(flow, lp, block),
    ensures
        connects(flow.body, flow.loop_tree.header_of(lp), block, route),
        stays_in(flow, lp, route),
        rank(flow.loop_tree.header_of(lp)) <= rank(block),
        is_reached(flow, block),
{
    let header = flow.loop_tree.header_of(lp);
    assert(flow.loop_tree.has_loop(lp));
    let route = choose|route: Seq<BasicBlockId>| #[trigger]
        connects(flow.body, header, block, route) && stays_in(flow, lp, route);
    let simple = lemma_simple_route(flow.body, route);
    assert forall|i: int| 0 <= i < simple.len() implies in_loop(
        flow,
        lp,
        #[trigger] simple[i],
    ) by {
        let j = choose|j: int| 0 <= j < route.len() && route[j] == simple[i];
        assert(in_loop(flow, lp, route[j]));
    }
    lemma_climbs_in_loop(flow, rank, lp, simple, simple.len() - 1);
    lemma_reached_along(flow, simple, simple.len() - 1);
    simple
}

/// A loop that has a block in common with another, but not its own header, is
/// around the other's header.
proof fn lemma_around_header(
    flow: FunctionFlow,
    rank: spec_fn(BasicBlockId) -> nat,
    lp: LoopId,
    other: LoopId,
    block: BasicBlockId,
)
    requires
        loops_true(flow, rank),
        in_loop(flow, lp, block),
        in_loop(flow, other, block),
        !in_loop(flow, lp, flow.loop_tree.header_of(other)),
    ensures
        in_loop(flow, other, flow.loop_tree.header_of(lp)),
{
    if !in_loop(flow, other, flow.loop_tree.header_of(lp)) {
        let route = lemma_way_in(flow, rank, lp, block);
        assert(flow.loop_tree.has_loop(lp));
        let at = lemma_enters_at_header(flow, rank, other, route);
        assert(in_loop(flow, lp, route[at]));
    }
}

/// A loop whose header is in another that does not contain all of it is around
/// the other's header.
proof fn lemma_around_other(
    flow: FunctionFlow,
    rank: spec_fn(BasicBlockId) -> nat,
    lp: LoopId,
    other: LoopId,
    block: BasicBlockId,
)
    requires
        loops_true(flow, rank),
        in_loop(flow, other, block),
        !in_loop(flow, lp, block),
        in_loop(flow, lp, flow.loop_tree.header_of(other)),
    ensures
        in_loop(flow, other, flow.loop_tree.header_of(lp)),
{
    let way = lemma_way_in(flow, rank, other, block);
    let header = flow.loop_tree.header_of(other);
    let route = choose|route: Seq<BasicBlockId>| #[trigger]
        connects(flow.body, block, header, route) && stays_in(flow, other, route);
    let at = lemma_enters_at_header(flow, rank, lp, route);
    assert(in_loop(flow, other, route[at]));
}

/// Where control leaves a loop is a true exit.
proof fn lemma_candidate_true(
    flow: FunctionFlow,
    rank: spec_fn(BasicBlockId) -> nat,
    lp: LoopId,
    last: BasicBlockId,
    exit: BasicBlockId,
)
    requires
        loops_true(flow, rank),
        in_loop(flow, lp, last),
        goes_to(flow.body, last, exit),
        !in_loop(flow, lp, exit),
    ensures
        exit_true(flow, rank, lp, exit),
{
    let body = flow.body;
    let header = flow.loop_tree.header_of(lp);
    let way = lemma_way_in(flow, rank, lp, last);
    lemma_reached_next(flow, last, exit);
    if rank(last) < rank(exit) {
        let route = way.push(exit);
        assert forall|i: int| 0 <= i < route.len() - 1 implies #[trigger] is_hop(
            body,
            route,
            i,
        ) by {
            if i < way.len() - 1 {
                assert(is_hop(body, way, i));
            }
        }
        assert forall|i: int| 0 <= i < route.len() - 1 implies in_loop(
            flow,
            lp,
            #[trigger] route[i],
        ) by {
            assert(route[i] == way[i]);
        }
        assert(leads_out(flow, rank, lp, exit, route));
    } else {
        let outer = choose|outer: LoopId| goes_back(flow, last, exit, outer);
        lemma_around_header(flow, rank, lp, outer, last);
        assert(goes_back(flow, header, exit, outer));
    }
    assert forall|other: LoopId| #[trigger] in_loop(flow, other, exit) implies in_loop(
        flow,
        other,
        header,
    ) || flow.loop_tree.header_of(other) == exit by {
        lemma_inside_too(flow, rank, lp, other, last, exit);
    }
}

/// A loop that control goes to from a block of `lp`, and that leads on to a
/// block outside, is around the header of `lp`, or else is entered there.
proof fn lemma_inside_too(
    flow: FunctionFlow,
    rank: spec_fn(BasicBlockId) -> nat,
    lp: LoopId,
    other: LoopId,
    last: BasicBlockId,
    exit: BasicBlockId,
)
    requires
        loops_true(flow, rank),
        in_loop(flow, lp, last),
        goes_to(flow.body, last, exit),
        !in_loop(flow, lp, exit),
        in_loop(flow, other, exit),
    ensures
        in_loop(flow, other, flow.loop_tree.header_of(lp)) || flow.loop_tree.header_of(other)
            == exit,
{
    let way = lemma_way_in(flow, rank, lp, last);
    if in_loop(flow, other, last) {
        if in_loop(flow, lp, flow.loop_tree.header_of(other)) {
            lemma_around_other(flow, rank, lp, other, exit);
        } else {
            lemma_around_header(flow, rank, lp, other, last);
        }
    }
}

/// A way on from where control leaves a loop, up to the last block before the
/// dominance frontier: `way` goes from `first` to `last`, and `first` dominates
/// all of it.
spec fn is_way_on(
    flow: FunctionFlow,
    rank: spec_fn(BasicBlockId) -> nat,
    first: BasicBlockId,
    last: BasicBlockId,
    way: Seq<BasicBlockId>,
) -> bool {
    &&& connects(flow.body, first, last, way)
    &&& forall|i: int|
        0 <= i < way.len() ==> rank(#[trigger] way[i]) <= rank(last) && dominates(
            flow,
            first,
            way[i],
        )
}

proof fn lemma_way_on(
    flow: FunctionFlow,
    rank: spec_fn(BasicBlockId) -> nat,
    first: BasicBlockId,
    last: BasicBlockId,
) -> (way: Seq<BasicBlockId>)
    requires
        loops_true(flow, rank),
        is_reached(flow, last),
        dominates(flow, first, last),
    ensures
        is_way_on(flow, rank, first, last, way),
{
    let body = flow.body;
    let any = choose|any: Seq<BasicBlockId>| #[trigger]
        connects(body, flow.cfg.entry, last, any);
    let simple = lemma_simple_route(body, any);
    assert(connects(body, flow.cfg.entry, last, simple));
    let at = choose|at: int| 0 <= at < simple.len() && simple[at] == first;
    lemma_route_skip(body, simple, at);
    let way = simple.skip(at);
    assert forall|i: int| 0 <= i < way.len() implies rank(#[trigger] way[i]) <= rank(last)
        && dominates(flow, first, way[i]) by {
        lemma_climbs_from_entry(flow, rank, simple, at + i, simple.len() - 1);
        assert forall|route: Seq<BasicBlockId>| #[trigger]
            connects(body, flow.cfg.entry, way[i], route) implies route.contains(first) by {
            lemma_route_skip(body, way, i);
            let rest = way.skip(i);
            lemma_route_join(body, route, rest);
            let whole = route.drop_last() + rest;
            assert(connects(body, flow.cfg.entry, last, whole));
            let j = choose|j: int| 0 <= j < whole.len() && whole[j] == first;
            if j < route.len() - 1 {
                assert(route[j] == first);
            } else {
                let k = j - (route.len() - 1);
                assert(rest[k] == simple[at + i + k]);
                assert(i == 0);
                assert(route.last() == first);
            }
        }
    }
    way
}

/// The one block in the dominance frontier of where control leaves a loop is a
/// true exit.
proof fn lemma_frontier_true(
    flow: FunctionFlow,
    rank: spec_fn(BasicBlockId) -> nat,
    lp: LoopId,
    inner: BasicBlockId,
    first: BasicBlockId,
    exit: BasicBlockId,
)
    requires
        loops_true(flow, rank),
        in_loop(flow, lp, inner),
        goes_to(flow.body, inner, first),
        !in_loop(flow, lp, first),
        in_frontier(flow, first, exit),
        forall|joint: BasicBlockId| #[trigger] in_frontier(flow, first, joint) ==> joint == exit,
        first != exit,
    ensures
        exit_true(flow, rank, lp, exit),
{
    let body = flow.body;
    let header = flow.loop_tree.header_of(lp);
    let last = choose|last: BasicBlockId| #[trigger] leads_over(flow, first, last, exit);
    let way_in = lemma_way_in(flow, rank, lp, inner);
    let way = lemma_way_on(flow, rank, first, last);
    assert(flow.loop_tree.has_loop(lp));
    lemma_reached_next(flow, last, exit);
    // Control does not go back from the loop to `first`.
    if !(rank(inner) < rank(first)) {
        let outer = choose|outer: LoopId| goes_back(flow, inner, first, outer);
        lemma_header_dominates(flow, rank, outer, inner);
        assert(leads_over(flow, first, inner, first));
        assert(in_frontier(flow, first, first));
    }
    assert(way[0] == first && rank(first) <= rank(last));
    lemma_frontier_outside(flow, rank, lp, inner, first, last, exit);
    let before = way_in + way;
    assert(is_route(body, before)) by {
        assert forall|i: int| 0 <= i < before.len() - 1 implies #[trigger] is_hop(
            body,
            before,
            i,
        ) by {
            if i < way_in.len() - 1 {
                assert(is_hop(body, way_in, i));
            } else if i >= way_in.len() {
                assert(is_hop(body, way, i - way_in.len()));
            }
        }
    }
    // The header of a loop into which `before` goes is not on the way on, or else
    // is not the exit.
    assert forall|other: LoopId| #[trigger]
        in_loop(flow, other, last) && !in_loop(flow, other, header) implies in_loop(
        flow,
        lp,
        flow.loop_tree.header_of(other),
    ) || dominates(flow, first, flow.loop_tree.header_of(other)) by {
        let at = lemma_enters_at_header(flow, rank, other, before);
        if at < way_in.len() {
            assert(in_loop(flow, lp, way_in[at]));
        } else {
            assert(before[at] == way[at - way_in.len()]);
        }
    }
    if rank(last) < rank(exit) {
        let route = before.push(exit);
        assert forall|i: int| 0 <= i < route.len() - 1 implies #[trigger] is_hop(
            body,
            route,
            i,
        ) by {
            if i < before.len() - 1 {
                assert(is_hop(body, before, i));
            }
        }
        assert forall|i: int| 0 <= i < route.len() - 1 implies in_loop(
            flow,
            lp,
            #[trigger] route[i],
        ) || rank(route[i]) < rank(exit) by {
            if i < way_in.len() {
                assert(in_loop(flow, lp, way_in[i]));
            } else {
                assert(route[i] == way[i - way_in.len()]);
            }
        }
        assert(leads_out(flow, rank, lp, exit, route));
    } else {
        let outer = choose|outer: LoopId| goes_back(flow, last, exit, outer);
        assert(in_loop(flow, outer, header));
        assert(goes_back(flow, header, exit, outer));
    }
    assert forall|other: LoopId| #[trigger] in_loop(flow, other, exit) implies in_loop(
        flow,
        other,
        header,
    ) || flow.loop_tree.header_of(other) == exit by {
        let top = flow.loop_tree.header_of(other);
        if !in_loop(flow, other, header) && top != exit {
            assert(in_loop(flow, other, last));
            if in_loop(flow, lp, top) {
                lemma_around_other(flow, rank, lp, other, exit);
            } else {
                lemma_header_dominates(flow, rank, other, exit);
                lemma_dominates_on(flow, first, top, exit);
            }
        }
    }
}

/// That block is outside of the loop.
proof fn lemma_frontier_outside(
    flow: FunctionFlow,
    rank: spec_fn(BasicBlockId) -> nat,
    lp: LoopId,
    inner: BasicBlockId,
    first: BasicBlockId,
    last: BasicBlockId,
    exit: BasicBlockId,
)
    requires
        loops_true(flow, rank),
        in_loop(flow, lp, inner),
        !in_loop(flow, lp, first),
        rank(inner) < rank(first) <= rank(last),
        leads_over(flow, first, last, exit),
        !dominates(flow, first, exit),
    ensures
        !in_loop(flow, lp, exit),
{
    let body = flow.body;
    let header = flow.loop_tree.header_of(lp);
    if in_loop(flow, lp, exit) {
        let way_in = lemma_way_in(flow, rank, lp, inner);
        if in_loop(flow, lp, last) {
            let way = lemma_way_in(flow, rank, lp, last);
            assert forall|route: Seq<BasicBlockId>| #[trigger]
                connects(body, flow.cfg.entry, header, route) implies route.contains(first) by {
                lemma_route_join(body, route, way);
                let whole = route.drop_last() + way;
                assert(connects(body, flow.cfg.entry, last, whole));
                let j = choose|j: int| 0 <= j < whole.len() && whole[j] == first;
                if j < route.len() - 1 {
                    assert(route[j] == first);
                } else {
                    assert(in_loop(flow, lp, way[j - (route.len() - 1)]));
                }
            }
            lemma_header_dominates(flow, rank, lp, exit);
            lemma_dominates_on(flow, first, header, exit);
        } else {
            assert(header == exit);
            if !(rank(last) < rank(exit)) {
                let other = choose|other: LoopId| goes_back(flow, last, exit, other);
                assert(flow.loop_tree.has_loop(other) && flow.loop_tree.has_loop(lp));
            }
        }
    }
}

/// A candidate for where control goes on after a loop is where control leaves it.
proof fn lemma_candidate(
    flow: FunctionFlow,
    lp: LoopId,
    blocks: Seq<BasicBlockId>,
    candidate: BasicBlockId,
) -> (last: BasicBlockId)
    requires
        flow.exits_from(lp, blocks).contains(candidate),
    ensures
        blocks.contains(last),
        flow.cfg.succs_of(last).contains(candidate),
        !flow.loop_tree.blocks_of(lp).contains(candidate),
    decreases blocks.len(),
{
    if blocks.len() == 0 {
        candidate
    } else {
        let shorter = blocks.drop_last();
        let first = flow.exits_from(lp, shorter);
        let succs = flow.cfg.succs_of(blocks.last());
        let outside = flow.outside(lp, succs);
        let all = flow.exits_from(lp, blocks);
        let i = choose|i: int| 0 <= i < all.len() && all[i] == candidate;
        if i < first.len() {
            assert(first[i] == candidate);
            let last = lemma_candidate(flow, lp, shorter, candidate);
            let j = choose|j: int| 0 <= j < shorter.len() && shorter[j] == last;
            assert(blocks[j] == last);
            last
        } else {
            assert(outside[i - first.len()] == candidate);
            let pred = |b: BasicBlockId| !flow.loop_tree.blocks_of(lp).contains(b);
            assert(outside == succs.filter(pred));
            succs.lemma_filter_pred(pred, i - first.len());
            succs.lemma_filter_contains_rev(pred, candidate);
            assert(blocks[blocks.len() - 1] == blocks.last());
            blocks.last()
        }
    }
}

/// If what is known of a function's control flow is true, control goes on after
/// a loop outside of it, where it can get to from the loop.
pub proof fn law_exit_true(
    flow: FunctionFlow,
    rank: spec_fn(BasicBlockId) -> nat,
    lp: LoopId,
    exit: BasicBlockId,
)
    requires
        graph_true(flow),
        loops_true(flow, rank),
        frontiers_true(flow),
        flow.loop_tree.has_loop(lp),
        flow.exit_determined(lp),
        flow.loop_exit(lp) == Some(exit),
    ensures
        exit_true(flow, rank, lp, exit),
{
    let candidates = flow.exit_candidates(lp);
    let blocks = flow.loop_tree.blocks_of(lp);
    let joint = exists|i: int| flow.is_joint(candidates, i);
    let i = if candidates.len() > 1 && joint {
        lemma_joint_picked(flow, candidates)
    } else {
        candidates.len() - 1
    };
    let candidate = candidates[i];
    assert(candidates.contains(candidate));
    let inner = lemma_candidate(flow, lp, blocks, candidate);
    let k = choose|k: int| 0 <= k < blocks.len() && blocks[k] == inner;
    assert(flow.cfg.has_block(blocks[k]));
    assert(goes_to(flow.body, inner, candidate));
    assert(in_loop(flow, lp, inner));
    if candidate == exit {
        lemma_candidate_true(flow, rank, lp, inner, exit);
    } else {
        let list = flow.df.frontiers_of(candidate)->0;
        let way = lemma_way_in(flow, rank, lp, inner);
        lemma_reached_next(flow, inner, candidate);
        assert(list.contains(exit)) by {
            assert(list[0] == exit);
        }
        assert(in_frontier(flow, candidate, exit));
        assert forall|other: BasicBlockId| #[trigger]
            in_frontier(flow, candidate, other) implies other == exit by {
            let j = choose|j: int| 0 <= j < list.len() && list[j] == other;
            assert(list[j] == list[0]);
        }
        lemma_frontier_true(flow, rank, lp, inner, candidate, exit);
    }
}

} // verus!
