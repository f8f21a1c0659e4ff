//! Ways that control can go, and what is true of a function's control flow.

use vstd::prelude::*;

use crate::analysis::{LoopId, PostIDom};
use crate::flow::FunctionFlow;
use crate::ir::{BasicBlockId, BranchInfo, FunctionBody};

verus! {

/// Control can go from the end of a block to another block.
pub open spec fn goes_to(body: FunctionBody, from: BasicBlockId, to: BasicBlockId) -> bool {
    body.terminator_of(from) matches Some(end) && match body.store.kind(end).targets() {
        BranchInfo::NotBranch => false,
        BranchInfo::Jump(dest) => dest == to,
        BranchInfo::Branch(_, then, else_) => then == to || else_ == to,
    }
}

/// Control leaves the function at the end of a block.
pub open spec fn leaves_at(body: FunctionBody, block: BasicBlockId) -> bool {
    body.terminator_of(block) matches Some(end) && body.store.kind(end).targets()
        == BranchInfo::NotBranch
}

/// Control can go from the block with index `i` to the next one.
pub open spec fn is_hop(body: FunctionBody, route: Seq<BasicBlockId>, i: int) -> bool {
    goes_to(body, route[i], route[i + 1])
}

/// Control can go along `route`.
pub open spec fn is_route(body: FunctionBody, route: Seq<BasicBlockId>) -> bool {
    &&& route.len() > 0
    &&& forall|i: int| 0 <= i < route.len() - 1 ==> #[trigger] is_hop(body, route, i)
}

/// Control can go along `route` from one block to another.
pub open spec fn connects(
    body: FunctionBody,
    from: BasicBlockId,
    to: BasicBlockId,
    route: Seq<BasicBlockId>,
) -> bool {
    is_route(body, route) && route[0] == from && route.last() == to
}

/// Control can go from `block` along `route` until it leaves the function.
pub open spec fn is_way_out(
    body: FunctionBody,
    block: BasicBlockId,
    route: Seq<BasicBlockId>,
) -> bool {
    is_route(body, route) && route[0] == block && leaves_at(body, route.last())
}

/// Whichever way control goes out from `block`, it comes to `other`.
pub open spec fn post_dominates(
    body: FunctionBody,
    other: BasicBlockId,
    block: BasicBlockId,
) -> bool {
    forall|route: Seq<BasicBlockId>| #[trigger]
        is_way_out(body, block, route) ==> route.contains(other)
}

/// `idom` is the immediate post dominator of `block`: a post dominator of it that
/// every other one post dominates.
pub open spec fn is_post_idom(
    body: FunctionBody,
    idom: BasicBlockId,
    block: BasicBlockId,
) -> bool {
    &&& idom != block
    &&& exists|route: Seq<BasicBlockId>| is_way_out(body, block, route)
    &&& post_dominates(body, idom, block)
    &&& forall|other: BasicBlockId|
        other != block && #[trigger] post_dominates(body, other, block) ==> post_dominates(
            body,
            other,
            idom,
        )
}

/// Control can get to a block from where the function starts.
pub open spec fn is_reached(flow: FunctionFlow, block: BasicBlockId) -> bool {
    exists|route: Seq<BasicBlockId>| #[trigger]
        connects(flow.body, flow.cfg.entry, block, route)
}

/// Whichever way control gets to `block`, it comes by `other`.
pub open spec fn dominates(flow: FunctionFlow, other: BasicBlockId, block: BasicBlockId) -> bool {
    forall|route: Seq<BasicBlockId>| #[trigger]
        connects(flow.body, flow.cfg.entry, block, route) ==> route.contains(other)
}

/// From `last`, which `block` dominates, control goes to `joint`.
pub open spec fn leads_over(
    flow: FunctionFlow,
    block: BasicBlockId,
    last: BasicBlockId,
    joint: BasicBlockId,
) -> bool {
    is_reached(flow, last) && goes_to(flow.body, last, joint) && dominates(flow, block, last)
}

/// `joint` is in the dominance frontier of `block`: the first block after some
/// that `block` dominates that it does not dominate, or `block` itself.
pub open spec fn in_frontier(
    flow: FunctionFlow,
    block: BasicBlockId,
    joint: BasicBlockId,
) -> bool {
    &&& exists|last: BasicBlockId| #[trigger] leads_over(flow, block, last, joint)
    &&& block == joint || !dominates(flow, block, joint)
}

/// The edges of the graph are where control can go.
pub open spec fn graph_true(flow: FunctionFlow) -> bool {
    forall|from: BasicBlockId, to: BasicBlockId|
        flow.cfg.has_block(from) ==> (#[trigger] flow.cfg.succs_of(from).contains(to) <==> goes_to(
            flow.body,
            from,
            to,
        ))
}

/// The dominance frontiers are what they are said to be.
pub open spec fn frontiers_true(flow: FunctionFlow) -> bool {
    forall|block: BasicBlockId, joint: BasicBlockId|
        is_reached(flow, block) ==> (#[trigger] in_frontier(flow, block, joint) <==> (
        flow.df.frontiers_of(block) matches Some(list) && list.contains(joint)))
}

/// The immediate post dominators are what they are said to be.
pub open spec fn post_idoms_true(flow: FunctionFlow) -> bool {
    forall|block: BasicBlockId| #[trigger]
        is_reached(flow, block) && flow.pd_tree.has_block(block) ==> (
        flow.pd_tree.post_idoms@[block.0 as int] matches PostIDom::Block(idom) ==> is_post_idom(
            flow.body,
            idom,
            block,
        ))
}

/// The loop contains the block.
pub open spec fn in_loop(flow: FunctionFlow, lp: LoopId, block: BasicBlockId) -> bool {
    flow.loop_tree.has_loop(lp) && flow.loop_tree.blocks_of(lp).contains(block)
}

/// The loop contains all blocks of the route.
pub open spec fn stays_in(flow: FunctionFlow, lp: LoopId, route: Seq<BasicBlockId>) -> bool {
    forall|i: int| 0 <= i < route.len() ==> in_loop(flow, lp, #[trigger] route[i])
}

/// Control goes back from a block of a loop to the loop's header.
pub open spec fn goes_back(
    flow: FunctionFlow,
    from: BasicBlockId,
    to: BasicBlockId,
    lp: LoopId,
) -> bool {
    in_loop(flow, lp, from) && flow.loop_tree.header_of(lp) == to
}

/// The loops are what they are said to be: one for each header, where control
/// can go from the header to each of its blocks and back inside of the loop. And
/// there is no way round but by them: control goes to blocks of higher rank or
/// back to the header of a loop, and enters a loop at its header only.
pub open spec fn loops_true(flow: FunctionFlow, rank: spec_fn(BasicBlockId) -> nat) -> bool {
    &&& forall|lp: LoopId| #[trigger]
        flow.loop_tree.has_loop(lp) ==> {
            let header = flow.loop_tree.header_of(lp);
            &&& is_reached(flow, header)
            &&& in_loop(flow, lp, header)
            &&& flow.loop_tree.innermost(header) == Some(lp)
        }
    &&& forall|lp: LoopId, block: BasicBlockId| #[trigger]
        in_loop(flow, lp, block) ==> {
            let header = flow.loop_tree.header_of(lp);
            &&& exists|route: Seq<BasicBlockId>| #[trigger]
                connects(flow.body, header, block, route) && stays_in(flow, lp, route)
            &&& exists|route: Seq<BasicBlockId>| #[trigger]
                connects(flow.body, block, header, route) && stays_in(flow, lp, route)
        }
    &&& forall|lp: LoopId| #[trigger]
        in_loop(flow, lp, flow.cfg.entry) ==> flow.loop_tree.header_of(lp) == flow.cfg.entry
    &&& forall|from: BasicBlockId, to: BasicBlockId| #[trigger]
        goes_to(flow.body, from, to) && is_reached(flow, from) ==> rank(from) < rank(to)
            || exists|lp: LoopId| goes_back(flow, from, to, lp)
    &&& forall|from: BasicBlockId, to: BasicBlockId, lp: LoopId|
        #![trigger goes_to(flow.body, from, to), in_loop(flow, lp, to)]
        goes_to(flow.body, from, to) && is_reached(flow, from) && in_loop(flow, lp, to)
            && !in_loop(flow, lp, from) ==> flow.loop_tree.header_of(lp) == to
}

/// The first blocks of a route are a route.
pub proof fn lemma_route_take(body: FunctionBody, route: Seq<BasicBlockId>, n: int)
    requires
        is_route(body, route),
        0 < n <= route.len(),
    ensures
        is_route(body, route.take(n)),
        route.take(n)[0] == route[0],
        route.take(n).last() == route[n - 1],
{
    let part = route.take(n);
    assert forall|i: int| 0 <= i < part.len() - 1 implies #[trigger] is_hop(body, part, i) by {
        assert(is_hop(body, route, i));
    }
}

/// The rest of a route is a route.
pub proof fn lemma_route_skip(body: FunctionBody, route: Seq<BasicBlockId>, n: int)
    requires
        is_route(body, route),
        0 <= n < route.len(),
    ensures
        is_route(body, route.skip(n)),
        route.skip(n)[0] == route[n],
        route.skip(n).last() == route.last(),
{
    let part = route.skip(n);
    assert forall|i: int| 0 <= i < part.len() - 1 implies #[trigger] is_hop(body, part, i) by {
        assert(is_hop(body, route, n + i));
    }
}

/// A route goes on from where another ends.
pub proof fn lemma_route_join(
    body: FunctionBody,
    first: Seq<BasicBlockId>,
    rest: Seq<BasicBlockId>,
)
    requires
        is_route(body, first),
        is_route(body, rest),
        first.last() == rest[0],
    ensures
        is_route(body, first.drop_last() + rest),
        (first.drop_last() + rest)[0] == first[0],
        (first.drop_last() + rest).last() == rest.last(),
{
    let n = first.len() - 1;
    let whole = first.drop_last() + rest;
    assert forall|i: int| 0 <= i < whole.len() - 1 implies #[trigger] is_hop(body, whole, i) by {
        if i < n {
            assert(is_hop(body, first, i));
        } else {
            assert(is_hop(body, rest, i - n));
        }
    }
}

/// Where a route goes, one goes that does not come to a block twice.
pub proof fn lemma_simple_route(body: FunctionBody, route: Seq<BasicBlockId>) -> (simple: Seq<
    BasicBlockId,
>)
    requires
        is_route(body, route),
    ensures
        is_route(body, simple),
        simple[0] == route[0],
        simple.last() == route.last(),
        simple.no_duplicates(),
        forall|i: int| 0 <= i < simple.len() ==> route.contains(#[trigger] simple[i]),
    decreases route.len(),
{
    if route.no_duplicates() {
        route
    } else {
        let (i, j) = choose|i: int, j: int|
            0 <= i < j < route.len() && #[trigger] route[i] == #[trigger] route[j];
        lemma_route_take(body, route, i + 1);
        lemma_route_skip(body, route, j);
        lemma_route_join(body, route.take(i + 1), route.skip(j));
        let shorter = route.take(i + 1).drop_last() + route.skip(j);
        let simple = lemma_simple_route(body, shorter);
        assert forall|k: int| 0 <= k < simple.len() implies route.contains(#[trigger] simple[k]) by {
            let l = choose|l: int| 0 <= l < shorter.len() && shorter[l] == simple[k];
            if l < i {
                assert(route[l] == simple[k]);
            } else {
                assert(route[l - i + j] == simple[k]);
            }
        }
        simple
    }
}

/// What post dominates a block post dominates where control gets to from it
/// without coming to the post dominator.
pub proof fn lemma_post_dominates_along(
    body: FunctionBody,
    other: BasicBlockId,
    route: Seq<BasicBlockId>,
)
    requires
        is_route(body, route),
        post_dominates(body, other, route[0]),
        !route.drop_last().contains(other),
    ensures
        post_dominates(body, other, route.last()),
{
    assert forall|out: Seq<BasicBlockId>| #[trigger]
        is_way_out(body, route.last(), out) implies out.contains(other) by {
        lemma_route_join(body, route, out);
        let whole = route.drop_last() + out;
        assert(is_way_out(body, route[0], whole));
        let i = choose|i: int| 0 <= i < whole.len() && whole[i] == other;
        if i < route.len() - 1 {
            assert(route.drop_last()[i] == other);
        } else {
            assert(out[i - (route.len() - 1)] == other);
        }
    }
}

/// What post dominates a block, and is not that block, post dominates where
/// control goes from it.
pub proof fn lemma_post_dominates_next(
    body: FunctionBody,
    other: BasicBlockId,
    from: BasicBlockId,
    to: BasicBlockId,
)
    requires
        goes_to(body, from, to),
        other != from,
        post_dominates(body, other, from),
    ensures
        post_dominates(body, other, to),
{
    let route = seq![from, to];
    assert forall|i: int| 0 <= i < route.len() - 1 implies #[trigger] is_hop(body, route, i) by {}
    assert(route.drop_last() =~= seq![from]);
    assert(!route.drop_last().contains(other));
    lemma_post_dominates_along(body, other, route);
}

/// There is a way out of what post dominates a block that there is one of.
pub proof fn lemma_way_out_from(
    body: FunctionBody,
    other: BasicBlockId,
    block: BasicBlockId,
    route: Seq<BasicBlockId>,
) -> (rest: Seq<BasicBlockId>)
    requires
        is_way_out(body, block, route),
        post_dominates(body, other, block),
    ensures
        is_way_out(body, other, rest),
        rest.len() <= route.len(),
        other != block ==> rest.len() < route.len(),
{
    let i = choose|i: int| 0 <= i < route.len() && route[i] == other;
    lemma_route_skip(body, route, i);
    route.skip(i)
}

/// Two blocks that post dominate each other are the same.
pub proof fn lemma_post_dominates_both(
    body: FunctionBody,
    a: BasicBlockId,
    b: BasicBlockId,
    route: Seq<BasicBlockId>,
)
    requires
        is_way_out(body, a, route),
        post_dominates(body, a, b),
        post_dominates(body, b, a),
    ensures
        a == b,
    decreases route.len(),
{
    if a != b {
        let rest = lemma_way_out_from(body, b, a, route);
        lemma_post_dominates_both(body, b, a, rest);
    }
}

/// All ways from `block` to its immediate post dominator go by `gate`.
pub open spec fn is_gate(
    body: FunctionBody,
    gate: BasicBlockId,
    block: BasicBlockId,
    idom: BasicBlockId,
) -> bool {
    forall|route: Seq<BasicBlockId>| #[trigger]
        connects(body, block, idom, route) ==> route.contains(gate)
}

/// There is no block between another and its immediate post dominator by which
/// all ways go.
pub proof fn lemma_no_gate(
    body: FunctionBody,
    gate: BasicBlockId,
    block: BasicBlockId,
    idom: BasicBlockId,
)
    requires
        is_post_idom(body, idom, block),
        is_gate(body, gate, block, idom),
        gate != block,
    ensures
        gate == idom,
{
    assert forall|out: Seq<BasicBlockId>| #[trigger]
        is_way_out(body, block, out) implies out.contains(gate) by {
        let i = choose|i: int| 0 <= i < out.len() && out[i] == idom;
        lemma_route_take(body, out, i + 1);
        let part = out.take(i + 1);
        assert(connects(body, block, idom, part));
        let j = choose|j: int| 0 <= j < part.len() && part[j] == gate;
        assert(out[j] == gate);
    }
    assert(post_dominates(body, gate, block));
    assert(post_dominates(body, gate, idom));
    let out = choose|out: Seq<BasicBlockId>| is_way_out(body, block, out);
    let at = lemma_first_index(out, idom);
    lemma_route_take(body, out, at + 1);
    let part = out.take(at + 1);
    assert(connects(body, block, idom, part));
    let j = choose|j: int| 0 <= j < part.len() && part[j] == gate;
    if j < at {
        lemma_route_take(body, out, j + 1);
        let before = out.take(j + 1).drop_last();
        assert(!before.contains(idom)) by {
            if before.contains(idom) {
                let k = choose|k: int| 0 <= k < before.len() && before[k] == idom;
                assert(out[k] == idom);
            }
        }
        lemma_post_dominates_along(body, idom, out.take(j + 1));
        lemma_route_skip(body, out, j);
        lemma_post_dominates_both(body, gate, idom, out.skip(j));
    }
}

/// The first index at which a block is on a route.
proof fn lemma_first_index(route: Seq<BasicBlockId>, block: BasicBlockId) -> (at: int)
    requires
        route.contains(block),
    ensures
        0 <= at < route.len(),
        route[at] == block,
        forall|i: int| 0 <= i < at ==> route[i] != block,
    decreases route.len(),
{
    if route.drop_last().contains(block) {
        let at = lemma_first_index(route.drop_last(), block);
        assert forall|i: int| 0 <= i < at implies route[i] != block by {
            assert(route.drop_last()[i] == route[i]);
        }
        at
    } else {
        assert forall|i: int| 0 <= i < route.len() - 1 implies route[i] != block by {
            assert(route.drop_last()[i] == route[i]);
        }
        route.len() - 1
    }
}

/// Control gets from where the function starts to where a route goes.
pub proof fn lemma_reached_along(flow: FunctionFlow, route: Seq<BasicBlockId>, i: int)
    requires
        is_reached(flow, route[0]),
        is_route(flow.body, route),
        0 <= i < route.len(),
    ensures
        is_reached(flow, route[i]),
{
    let first = choose|first: Seq<BasicBlockId>| #[trigger]
        connects(flow.body, flow.cfg.entry, route[0], first);
    lemma_route_take(flow.body, route, i + 1);
    lemma_route_join(flow.body, first, route.take(i + 1));
    assert(connects(
        flow.body,
        flow.cfg.entry,
        route[i],
        first.drop_last() + route.take(i + 1),
    ));
}

/// Control gets from where the function starts to where it goes from a block.
pub proof fn lemma_reached_next(flow: FunctionFlow, from: BasicBlockId, to: BasicBlockId)
    requires
        is_reached(flow, from),
        goes_to(flow.body, from, to),
    ensures
        is_reached(flow, to),
{
    let route = seq![from, to];
    assert forall|i: int| 0 <= i < route.len() - 1 implies #[trigger] is_hop(
        flow.body,
        route,
        i,
    ) by {}
    lemma_reached_along(flow, route, 1);
}

/// A route into a loop goes by the loop's header.
pub proof fn lemma_enters_at_header(
    flow: FunctionFlow,
    rank: spec_fn(BasicBlockId) -> nat,
    lp: LoopId,
    route: Seq<BasicBlockId>,
) -> (at: int)
    requires
        loops_true(flow, rank),
        is_route(flow.body, route),
        is_reached(flow, route[0]),
        !in_loop(flow, lp, route[0]),
        in_loop(flow, lp, route.last()),
    ensures
        0 < at < route.len(),
        route[at] == flow.loop_tree.header_of(lp),
    decreases route.len(),
{
    let n = route.len() - 1;
    assert(is_hop(flow.body, route, n - 1));
    lemma_reached_along(flow, route, n - 1);
    if in_loop(flow, lp, route[n - 1]) {
        lemma_route_take(flow.body, route, n);
        lemma_enters_at_header(flow, rank, lp, route.take(n))
    } else {
        n
    }
}

/// A block outside of a loop whose immediate post dominator is inside: that is
/// the loop's header.
pub proof fn lemma_idom_in_loop(
    flow: FunctionFlow,
    rank: spec_fn(BasicBlockId) -> nat,
    lp: LoopId,
    block: BasicBlockId,
    idom: BasicBlockId,
)
    requires
        loops_true(flow, rank),
        is_reached(flow, block),
        is_post_idom(flow.body, idom, block),
        !in_loop(flow, lp, block),
        in_loop(flow, lp, idom),
    ensures
        idom == flow.loop_tree.header_of(lp),
{
    let header = flow.loop_tree.header_of(lp);
    assert(flow.loop_tree.has_loop(lp));
    assert(in_loop(flow, lp, header));
    assert forall|route: Seq<BasicBlockId>| #[trigger]
        connects(flow.body, block, idom, route) implies route.contains(header) by {
        let at = lemma_enters_at_header(flow, rank, lp, route);
        assert(route[at] == header);
    }
    lemma_no_gate(flow.body, header, block, idom);
}

} // verus!
