//! The places that a listing visits, and when it comes to an end.

use vstd::prelude::*;

use crate::analysis::LoopId;
use crate::flow::{after_loop, dest_info, unless_merge, FunctionFlow, TerminatorInfo};
use crate::ir::{BasicBlockId, BranchInfo, ValueId};
use crate::scope::Context;
use crate::steps::Step;

verus! {

/// A block that is listed in a context.
#[derive(Debug, Clone, Copy, PartialEq, Eq, Structural)]
pub struct Place {
    pub context: Context,
    pub block: BasicBlockId,
}

/// The places that listing an optional block visits first.
pub open spec fn rest_places(context: Context, block: Option<BasicBlockId>) -> Seq<Place> {
    match block {
        Some(block) => seq![Place { context, block }],
        None => Seq::empty(),
    }
}

/// The places that listing a jump that amounts to `info` visits first.
pub open spec fn dest_places(
    context: Context,
    info: TerminatorInfo,
    merge: Option<BasicBlockId>,
) -> Seq<Place> {
    match info {
        TerminatorInfo::FallThrough(dest) => rest_places(context, unless_merge(merge, dest)),
        _ => Seq::empty(),
    }
}

impl FunctionFlow {
    /// The place at which the listing of the function starts.
    pub open spec fn start(&self) -> Place {
        Place { context: Context::outermost(), block: self.cfg.entry }
    }

    /// The places whose listings that of `place` is made of: `None` if it cannot be made.
    pub open spec fn next_places(&self, place: Place) -> Option<Seq<Place>> {
        let context = place.context;
        let block = place.block;
        if let Some(lp) = self.opened_loop(context, block) {
            if !self.exit_determined(lp) {
                None
            } else {
                let l = self.around_body(lp);
                Some(
                    seq![Place { context: Context::in_loop(l), block }] + rest_places(
                        context,
                        after_loop(context, l.exit),
                    ),
                )
            }
        } else if let Some(end) = self.body.terminator_of(block) {
            match self.body.store.kind(end).targets() {
                BranchInfo::NotBranch => Some(Seq::empty()),
                BranchInfo::Jump(dest) => Some(
                    dest_places(context, dest_info(context, dest), None),
                ),
                BranchInfo::Branch(_, then, else_) => if !self.pd_tree.has_block(block) {
                    None
                } else {
                    let merge = self.merge_of(context, block);
                    let inner = context.in_if(merge);
                    Some(
                        dest_places(inner, dest_info(context, then), merge) + dest_places(
                            inner,
                            dest_info(context, else_),
                            merge,
                        ) + rest_places(context, merge),
                    )
                },
            }
        } else {
            None
        }
    }

    /// The listing of `place` visits `next` right away.
    pub open spec fn visits(&self, place: Place, next: Place) -> bool {
        self.next_places(place) matches Some(places) && places.contains(next)
    }

    /// The steps for `place`, if they are all there within `depth` blocks on end.
    pub open spec fn listing_at(&self, place: Place, depth: nat) -> Option<Seq<Step>> {
        self.listing(place.context, place.block, depth)
    }

    /// The listing of `place` comes to an end.
    pub open spec fn ends(&self, place: Place) -> bool {
        exists|depth: nat| #[trigger] self.listing_at(place, depth) is Some
    }

    /// The steps for `place`.
    pub open spec fn steps_at(&self, place: Place) -> Seq<Step> {
        self.listing_at(place, choose|depth: nat| #[trigger]
            self.listing_at(place, depth) is Some)->0
    }

    /// The least depth within which the steps for `place` are all there.
    #[verifier::opaque]
    pub open spec fn depth_of(&self, place: Place) -> nat {
        choose|depth: nat| #[trigger]
            self.listing_at(place, depth) is Some && forall|less: nat|
                less < depth ==> #[trigger] self.listing_at(place, less) is None
    }

    /// The listing of `block`, if there is one, comes to an end.
    pub open spec fn rest_ends(&self, context: Context, block: Option<BasicBlockId>) -> bool {
        block matches Some(b) ==> self.ends(Place { context, block: b })
    }

    /// The steps for `block`, if there is one.
    pub open spec fn rest_steps(&self, context: Context, block: Option<BasicBlockId>) -> Seq<
        Step,
    > {
        match block {
            Some(b) => self.steps_at(Place { context, block: b }),
            None => Seq::empty(),
        }
    }

    /// The least depth within which the steps for `block` are all there.
    pub open spec fn rest_depth(&self, context: Context, block: Option<BasicBlockId>) -> nat {
        match block {
            Some(b) => self.depth_of(Place { context, block: b }),
            None => 0,
        }
    }

    /// The listing of a jump that amounts to `info` comes to an end.
    pub open spec fn dest_ends(
        &self,
        context: Context,
        info: TerminatorInfo,
        merge: Option<BasicBlockId>,
    ) -> bool {
        info matches TerminatorInfo::FallThrough(dest) ==> self.rest_ends(
            context,
            unless_merge(merge, dest),
        )
    }

    /// The steps for a jump that amounts to `info`: a block that is listed
    /// later anyway, at `merge`, is not listed here.
    pub open spec fn dest_steps(
        &self,
        context: Context,
        info: TerminatorInfo,
        merge: Option<BasicBlockId>,
    ) -> Seq<Step> {
        match info {
            TerminatorInfo::Break => seq![Step::Break],
            TerminatorInfo::Continue => seq![Step::Continue],
            TerminatorInfo::FallThrough(dest) => self.rest_steps(
                context,
                unless_merge(merge, dest),
            ),
            _ => Seq::empty(),
        }
    }

    /// The least depth within which the steps for a jump are all there.
    pub open spec fn dest_depth(
        &self,
        context: Context,
        info: TerminatorInfo,
        merge: Option<BasicBlockId>,
    ) -> nat {
        match info {
            TerminatorInfo::FallThrough(dest) => self.rest_depth(
                context,
                unless_merge(merge, dest),
            ),
            _ => 0,
        }
    }

    /// The listing of a conditional and all that follows it comes to an end.
    pub open spec fn if_ends(
        &self,
        context: Context,
        then: TerminatorInfo,
        else_: TerminatorInfo,
        merge: Option<BasicBlockId>,
    ) -> bool {
        &&& self.dest_ends(context.in_if(merge), then, merge)
        &&& self.dest_ends(context.in_if(merge), else_, merge)
        &&& self.rest_ends(context, merge)
    }

    /// The steps for a conditional and all that follows it.
    pub open spec fn if_steps(
        &self,
        context: Context,
        cond: ValueId,
        then: TerminatorInfo,
        else_: TerminatorInfo,
        merge: Option<BasicBlockId>,
    ) -> Seq<Step> {
        seq![
            Step::If {
                cond,
                then: self.dest_steps(context.in_if(merge), then, merge),
                else_: self.dest_steps(context.in_if(merge), else_, merge),
            },
        ] + self.rest_steps(context, merge)
    }

    /// The least depth within which the steps for a conditional are all there.
    pub open spec fn if_depth(
        &self,
        context: Context,
        then: TerminatorInfo,
        else_: TerminatorInfo,
        merge: Option<BasicBlockId>,
    ) -> nat {
        let t = self.dest_depth(context.in_if(merge), then, merge);
        let e = self.dest_depth(context.in_if(merge), else_, merge);
        let r = self.rest_depth(context, merge);
        if t >= e && t >= r {
            t
        } else if e >= r {
            e
        } else {
            r
        }
    }

    /// The function can be listed as structured code.
    pub open spec fn serializable(&self) -> bool {
        self.ends(self.start())
    }

    /// The function as structured code.
    pub open spec fn serialized(&self) -> Seq<Step> {
        self.steps_at(self.start())
    }
}

/// A listing that is there within some depth is there, the same, within any greater depth.
pub proof fn lemma_listing_monotone(flow: FunctionFlow, place: Place, depth: nat, more: nat)
    requires
        flow.listing_at(place, depth) is Some,
        depth <= more,
    ensures
        flow.listing_at(place, more) == flow.listing_at(place, depth),
    decreases depth, 0nat,
{
    let context = place.context;
    let block = place.block;
    let d = (depth - 1) as nat;
    let m = (more - 1) as nat;
    if let Some(lp) = flow.opened_loop(context, block) {
        let l = flow.around_body(lp);
        lemma_listing_monotone(flow, Place { context: Context::in_loop(l), block }, d, m);
        lemma_rest_monotone(flow, context, after_loop(context, l.exit), d, m);
    } else if let Some(end) = flow.body.terminator_of(block) {
        match flow.body.store.kind(end).targets() {
            BranchInfo::NotBranch => {},
            BranchInfo::Jump(dest) => {
                lemma_dest_monotone(flow, context, dest_info(context, dest), None, d, m);
            },
            BranchInfo::Branch(cond, then, else_) => {
                let merge = flow.merge_of(context, block);
                let inner = context.in_if(merge);
                let t = dest_info(context, then);
                let e = dest_info(context, else_);
                assert(flow.if_listing(context, cond, t, e, merge, d) is Some);
                lemma_dest_monotone(flow, inner, t, merge, d, m);
                lemma_dest_monotone(flow, inner, e, merge, d, m);
                lemma_rest_monotone(flow, context, merge, d, m);
                assert(flow.if_listing(context, cond, t, e, merge, m) == flow.if_listing(
                    context,
                    cond,
                    t,
                    e,
                    merge,
                    d,
                ));
            },
        }
    }
}

proof fn lemma_rest_monotone(
    flow: FunctionFlow,
    context: Context,
    block: Option<BasicBlockId>,
    depth: nat,
    more: nat,
)
    requires
        flow.rest_listing(context, block, depth) is Some,
        depth <= more,
    ensures
        flow.rest_listing(context, block, more) == flow.rest_listing(context, block, depth),
    decreases depth, 1nat,
{
    if let Some(block) = block {
        lemma_listing_monotone(flow, Place { context, block }, depth, more);
    }
}

proof fn lemma_dest_monotone(
    flow: FunctionFlow,
    context: Context,
    info: TerminatorInfo,
    merge: Option<BasicBlockId>,
    depth: nat,
    more: nat,
)
    requires
        flow.dest_listing(context, info, merge, depth) is Some,
        depth <= more,
    ensures
        flow.dest_listing(context, info, merge, more) == flow.dest_listing(
            context,
            info,
            merge,
            depth,
        ),
    decreases depth, 2nat,
{
    if let TerminatorInfo::FallThrough(dest) = info {
        lemma_rest_monotone(flow, context, unless_merge(merge, dest), depth, more);
    }
}

/// However deep one looks, a listing that is there is the same.
pub proof fn law_listing_unique(flow: FunctionFlow, place: Place, depth: nat)
    requires
        flow.listing_at(place, depth) is Some,
    ensures
        flow.ends(place),
        flow.listing_at(place, depth) == Some(flow.steps_at(place)),
{
    let other = choose|d: nat| #[trigger] flow.listing_at(place, d) is Some;
    if other <= depth {
        lemma_listing_monotone(flow, place, other, depth);
    } else {
        lemma_listing_monotone(flow, place, depth, other);
    }
}

/// There is a least depth within which a listing is there.
pub proof fn lemma_depth_of(flow: FunctionFlow, place: Place, depth: nat)
    requires
        flow.listing_at(place, depth) is Some,
    ensures
        flow.depth_of(place) <= depth,
        flow.listing_at(place, flow.depth_of(place)) is Some,
    decreases depth,
{
    reveal(FunctionFlow::depth_of);
    if exists|less: nat| less < depth && #[trigger] flow.listing_at(place, less) is Some {
        let less = choose|less: nat|
            less < depth && #[trigger] flow.listing_at(place, less) is Some;
        lemma_depth_of(flow, place, less);
    } else {
        let least = flow.depth_of(place);
        assert(flow.listing_at(place, least) is Some);
        if least > depth {
            assert(flow.listing_at(place, depth) is None);
        }
    }
}

/// What a listing is made of comes to an end within less.
pub proof fn lemma_depth_next(flow: FunctionFlow, place: Place, next: Place)
    requires
        flow.ends(place),
        flow.visits(place, next),
    ensures
        flow.ends(next),
        flow.depth_of(next) < flow.depth_of(place),
{
    let any = choose|any: nat| #[trigger] flow.listing_at(place, any) is Some;
    lemma_depth_of(flow, place, any);
    let depth = flow.depth_of(place);
    lemma_listing_next(flow, place, depth);
    let places = flow.next_places(place)->0;
    let i = choose|i: int| 0 <= i < places.len() && places[i] == next;
    assert(flow.listing_at(places[i], (depth - 1) as nat) is Some);
    lemma_depth_of(flow, next, (depth - 1) as nat);
}

/// A listing is there within some depth just if all that it is made of is
/// there within one less.
pub proof fn lemma_listing_next(flow: FunctionFlow, place: Place, depth: nat)
    requires
        depth > 0,
    ensures
        flow.listing_at(place, depth) is Some <==> (flow.next_places(place) matches Some(places)
            && forall|i: int|
            0 <= i < places.len() ==> flow.listing_at(
                #[trigger] places[i],
                (depth - 1) as nat,
            ) is Some),
{
    let context = place.context;
    let block = place.block;
    let d = (depth - 1) as nat;
    if let Some(places) = flow.next_places(place) {
        if let Some(lp) = flow.opened_loop(context, block) {
            let l = flow.around_body(lp);
            let after = after_loop(context, l.exit);
            assert(places[0] == (Place { context: Context::in_loop(l), block }));
            if let Some(b) = after {
                assert(places[1] == (Place { context, block: b }));
            }
            assert(flow.rest_listing(context, after, d) is Some <==> (after matches Some(b)
                ==> flow.listing(context, b, d) is Some));
        } else if let Some(end) = flow.body.terminator_of(block) {
            match flow.body.store.kind(end).targets() {
                BranchInfo::NotBranch => {},
                BranchInfo::Jump(dest) => {
                    lemma_dest_next(flow, context, dest_info(context, dest), None, d);
                },
                BranchInfo::Branch(cond, then, else_) => {
                    let merge = flow.merge_of(context, block);
                    let inner = context.in_if(merge);
                    let t = dest_info(context, then);
                    let e = dest_info(context, else_);
                    assert(flow.if_listing(context, cond, t, e, merge, d) is Some <==> {
                        &&& flow.dest_listing(inner, t, merge, d) is Some
                        &&& flow.dest_listing(inner, e, merge, d) is Some
                        &&& flow.rest_listing(context, merge, d) is Some
                    });
                    assert(flow.rest_listing(context, merge, d) is Some <==> (merge matches Some(b)
                        ==> flow.listing(context, b, d) is Some));
                    let p = dest_places(inner, dest_info(context, then), merge);
                    let q = dest_places(inner, dest_info(context, else_), merge);
                    let r = rest_places(context, merge);
                    lemma_dest_next(flow, inner, dest_info(context, then), merge, d);
                    lemma_dest_next(flow, inner, dest_info(context, else_), merge, d);
                    assert forall|i: int| 0 <= i < p.len() implies places[i] == #[trigger] p[i] by {
                    }
                    assert forall|i: int| 0 <= i < q.len() implies places[p.len() + i]
                        == #[trigger] q[i] by {}
                    assert forall|i: int| 0 <= i < r.len() implies places[p.len() + q.len() + i]
                        == #[trigger] r[i] by {}
                    if let Some(b) = merge {
                        assert(r[0] == (Place { context, block: b }));
                    }
                },
            }
        }
    }
}

proof fn lemma_dest_next(
    flow: FunctionFlow,
    context: Context,
    info: TerminatorInfo,
    merge: Option<BasicBlockId>,
    depth: nat,
)
    ensures
        flow.dest_listing(context, info, merge, depth) is Some <==> forall|i: int|
            0 <= i < dest_places(context, info, merge).len() ==> flow.listing_at(
                #[trigger] dest_places(context, info, merge)[i],
                depth,
            ) is Some,
{
    if let TerminatorInfo::FallThrough(dest) = info {
        if let Some(b) = unless_merge(merge, dest) {
            assert(dest_places(context, info, merge)[0] == (Place { context, block: b }));
            assert(flow.rest_listing(context, Some(b), depth) == flow.listing(context, b, depth));
        }
    }
}

/// Listing the place with index `i` visits the next one right away.
pub open spec fn is_leg(flow: FunctionFlow, places: Seq<Place>, i: int) -> bool {
    flow.visits(places[i], places[i + 1])
}

/// Listing the first of `places` visits each in turn.
pub open spec fn is_walk(flow: FunctionFlow, places: Seq<Place>) -> bool {
    places.len() > 0 && forall|i: int|
        0 <= i < places.len() - 1 ==> #[trigger] is_leg(flow, places, i)
}

/// A walk can go on to what the listing of its last place visits.
pub proof fn lemma_walk_push(flow: FunctionFlow, places: Seq<Place>, next: Place)
    requires
        is_walk(flow, places),
        flow.visits(places.last(), next),
    ensures
        is_walk(flow, places.push(next)),
{
    let longer = places.push(next);
    assert forall|i: int| 0 <= i < longer.len() - 1 implies #[trigger] is_leg(flow, longer, i) by {
        if i < places.len() - 1 {
            assert(is_leg(flow, places, i));
        }
    }
}

/// A walk can start from what visits its first place.
pub proof fn lemma_walk_prepend(flow: FunctionFlow, place: Place, places: Seq<Place>)
    requires
        is_walk(flow, places),
        flow.visits(place, places[0]),
    ensures
        is_walk(flow, seq![place] + places),
        (seq![place] + places)[0] == place,
        (seq![place] + places).last() == places.last(),
{
    let longer = seq![place] + places;
    assert forall|i: int| 0 <= i < longer.len() - 1 implies #[trigger] is_leg(flow, longer, i) by {
        if i > 0 {
            assert(is_leg(flow, places, i - 1));
        }
    }
}

/// The listing of the header of a loop visits the loop's body, and what comes after the loop.
pub proof fn lemma_visits_loop(flow: FunctionFlow, place: Place, lp: LoopId)
    requires
        flow.opened_loop(place.context, place.block) == Some(lp),
        flow.exit_determined(lp),
    ensures
        flow.visits(
            place,
            Place { context: Context::in_loop(flow.around_body(lp)), block: place.block },
        ),
        after_loop(place.context, flow.loop_exit(lp)) matches Some(next) ==> flow.visits(
            place,
            Place { context: place.context, block: next },
        ),
{
    let places = flow.next_places(place)->0;
    assert(places[0] == (Place {
        context: Context::in_loop(flow.around_body(lp)),
        block: place.block,
    }));
    if let Some(next) = after_loop(place.context, flow.loop_exit(lp)) {
        assert(places[1] == (Place { context: place.context, block: next }));
    }
}

/// The listing of a block that ends in a jump visits where that goes.
pub proof fn lemma_visits_jump(flow: FunctionFlow, place: Place, dest: BasicBlockId)
    requires
        flow.opened_loop(place.context, place.block) is None,
        flow.body.terminator_of(place.block) matches Some(end)
            && flow.body.store.kind(end).targets() == BranchInfo::Jump(dest),
    ensures
        forall|i: int|
            0 <= i < dest_places(place.context, dest_info(place.context, dest), None).len()
                ==> flow.visits(
                place,
                #[trigger] dest_places(place.context, dest_info(place.context, dest), None)[i],
            ),
{
}

/// The listing of a block that ends in a branch visits where that goes, and where its
/// branches meet.
pub proof fn lemma_visits_branch(
    flow: FunctionFlow,
    place: Place,
    cond: ValueId,
    then: BasicBlockId,
    else_: BasicBlockId,
)
    requires
        flow.opened_loop(place.context, place.block) is None,
        flow.body.terminator_of(place.block) matches Some(end)
            && flow.body.store.kind(end).targets() == BranchInfo::Branch(cond, then, else_),
        flow.pd_tree.has_block(place.block),
    ensures
        ({
            let merge = flow.merge_of(place.context, place.block);
            let inner = place.context.in_if(merge);
            let p = dest_places(inner, dest_info(place.context, then), merge);
            let q = dest_places(inner, dest_info(place.context, else_), merge);
            &&& forall|i: int| 0 <= i < p.len() ==> flow.visits(place, #[trigger] p[i])
            &&& forall|i: int| 0 <= i < q.len() ==> flow.visits(place, #[trigger] q[i])
            &&& merge matches Some(b) ==> flow.visits(
                place,
                Place { context: place.context, block: b },
            )
        }),
{
    let merge = flow.merge_of(place.context, place.block);
    let inner = place.context.in_if(merge);
    let p = dest_places(inner, dest_info(place.context, then), merge);
    let q = dest_places(inner, dest_info(place.context, else_), merge);
    let places = flow.next_places(place)->0;
    assert forall|i: int| 0 <= i < p.len() implies flow.visits(place, #[trigger] p[i]) by {
        assert(places[i] == p[i]);
    }
    assert forall|i: int| 0 <= i < q.len() implies flow.visits(place, #[trigger] q[i]) by {
        assert(places[p.len() + i] == q[i]);
    }
    if let Some(b) = merge {
        assert(places[(p.len() + q.len()) as int] == (Place { context: place.context, block: b }));
    }
}

/// What a conditional is made of comes to an end within less than the block that
/// it ends.
pub proof fn lemma_if_depth(flow: FunctionFlow, place: Place)
    requires
        flow.ends(place),
        flow.opened_loop(place.context, place.block) is None,
        flow.body.terminator_of(place.block) matches Some(end) && flow.body.store.kind(
            end,
        ).targets() is Branch,
    ensures
        flow.end_info(
            place.context,
            place.block,
            flow.body.terminator_of(place.block)->0,
        ) matches TerminatorInfo::If { then, else_, merge_block, .. } && flow.if_depth(
            place.context,
            *then,
            *else_,
            merge_block,
        ) < flow.depth_of(place),
{
    let context = place.context;
    law_block_steps(flow, place);
    let any = choose|any: nat| #[trigger] flow.listing_at(place, any) is Some;
    lemma_depth_of(flow, place, any);
    let end = flow.body.terminator_of(place.block)->0;
    if let BranchInfo::Branch(cond, then, else_) = flow.body.store.kind(end).targets() {
        let merge = flow.merge_of(context, place.block);
        let inner = context.in_if(merge);
        let p = dest_places(inner, dest_info(context, then), merge);
        let q = dest_places(inner, dest_info(context, else_), merge);
        lemma_visits_branch(flow, place, cond, then, else_);
        if p.len() > 0 {
            lemma_depth_next(flow, place, p[0]);
        }
        if q.len() > 0 {
            lemma_depth_next(flow, place, q[0]);
        }
        if let Some(b) = merge {
            lemma_depth_next(flow, place, Place { context, block: b });
        }
    }
}

proof fn lemma_rest_steps(
    flow: FunctionFlow,
    context: Context,
    block: Option<BasicBlockId>,
    depth: nat,
)
    requires
        flow.rest_listing(context, block, depth) is Some,
    ensures
        flow.rest_ends(context, block),
        flow.rest_listing(context, block, depth) == Some(flow.rest_steps(context, block)),
{
    if let Some(b) = block {
        law_listing_unique(flow, Place { context, block: b }, depth);
    }
}

proof fn lemma_dest_steps(
    flow: FunctionFlow,
    context: Context,
    info: TerminatorInfo,
    merge: Option<BasicBlockId>,
    depth: nat,
)
    requires
        flow.dest_listing(context, info, merge, depth) is Some,
    ensures
        flow.dest_ends(context, info, merge),
        flow.dest_listing(context, info, merge, depth) == Some(
            flow.dest_steps(context, info, merge),
        ),
{
    if let TerminatorInfo::FallThrough(dest) = info {
        lemma_rest_steps(flow, context, unless_merge(merge, dest), depth);
    }
}

/// The header of a loop lists the loop, and then what comes after it: the block
/// where control goes on, unless the branches around meet there.
pub proof fn law_loop_steps(flow: FunctionFlow, place: Place, lp: LoopId)
    requires
        flow.ends(place),
        flow.opened_loop(place.context, place.block) == Some(lp),
    ensures
        ({
            let l = flow.around_body(lp);
            let inner = Place { context: Context::in_loop(l), block: place.block };
            let after = after_loop(place.context, l.exit);
            &&& flow.exit_determined(lp)
            &&& flow.ends(inner)
            &&& flow.rest_ends(place.context, after)
            &&& flow.steps_at(place) == seq![Step::For { body: flow.steps_at(inner) }]
                + flow.rest_steps(place.context, after)
        }),
{
    let depth = choose|depth: nat| #[trigger] flow.listing_at(place, depth) is Some;
    let l = flow.around_body(lp);
    let inner = Place { context: Context::in_loop(l), block: place.block };
    let after = after_loop(place.context, l.exit);
    assert(flow.listing_at(inner, (depth - 1) as nat) is Some);
    law_listing_unique(flow, inner, (depth - 1) as nat);
    lemma_rest_steps(flow, place.context, after, (depth - 1) as nat);
}

/// A block that opens no loop lists its instructions, and then what its end
/// becomes: the instruction itself, a jump, or a conditional and what follows it.
pub proof fn law_block_steps(flow: FunctionFlow, place: Place)
    requires
        flow.ends(place),
        flow.opened_loop(place.context, place.block) is None,
    ensures
        flow.body.terminator_of(place.block) matches Some(end) && match flow.end_info(
            place.context,
            place.block,
            end,
        ) {
            TerminatorInfo::NormalInst(inst) => flow.steps_at(place) == flow.block_code(
                place.block,
            ).push(Step::Inst(inst)),
            TerminatorInfo::If { cond, then, else_, merge_block } => {
                &&& flow.pd_tree.has_block(place.block)
                &&& flow.if_ends(place.context, *then, *else_, merge_block)
                &&& flow.steps_at(place) == flow.block_code(place.block) + flow.if_steps(
                    place.context,
                    cond,
                    *then,
                    *else_,
                    merge_block,
                )
            },
            info => {
                &&& flow.dest_ends(place.context, info, None)
                &&& flow.steps_at(place) == flow.block_code(place.block) + flow.dest_steps(
                    place.context,
                    info,
                    None,
                )
            },
        },
{
    let depth = choose|depth: nat| #[trigger] flow.listing_at(place, depth) is Some;
    let d = (depth - 1) as nat;
    let context = place.context;
    let end = flow.body.terminator_of(place.block)->0;
    match flow.body.store.kind(end).targets() {
        BranchInfo::NotBranch => {},
        BranchInfo::Jump(dest) => {
            lemma_dest_steps(flow, context, dest_info(context, dest), None, d);
        },
        BranchInfo::Branch(cond, then, else_) => {
            let merge = flow.merge_of(context, place.block);
            let t = dest_info(context, then);
            let e = dest_info(context, else_);
            assert(flow.if_listing(context, cond, t, e, merge, d) is Some);
            law_if_steps(flow, context, cond, t, e, merge, d);
        },
    }
}

/// A conditional lists one list for each branch, and then the block where the
/// branches meet.
pub proof fn law_if_steps(
    flow: FunctionFlow,
    context: Context,
    cond: ValueId,
    then: TerminatorInfo,
    else_: TerminatorInfo,
    merge: Option<BasicBlockId>,
    depth: nat,
)
    requires
        flow.if_listing(context, cond, then, else_, merge, depth) is Some,
    ensures
        flow.if_ends(context, then, else_, merge),
        flow.if_listing(context, cond, then, else_, merge, depth) == Some(
            flow.if_steps(context, cond, then, else_, merge),
        ),
{
    lemma_dest_steps(flow, context.in_if(merge), then, merge, depth);
    lemma_dest_steps(flow, context.in_if(merge), else_, merge, depth);
    lemma_rest_steps(flow, context, merge, depth);
}

/// Exchanging the branches of a conditional exchanges its two lists, and changes
/// nothing else: neither what follows nor whether the listing is there.
pub proof fn law_exchanged_branches(
    flow: FunctionFlow,
    context: Context,
    cond: ValueId,
    then: TerminatorInfo,
    else_: TerminatorInfo,
    merge: Option<BasicBlockId>,
    depth: nat,
)
    ensures
        match flow.if_listing(context, cond, then, else_, merge, depth) {
            Some(steps) => {
                &&& steps.len() > 0
                &&& steps[0] matches Step::If { cond: c, then: t, else_: e }
                &&& c == cond
                &&& flow.if_listing(context, cond, else_, then, merge, depth) == Some(
                    steps.update(0, Step::If { cond, then: e, else_: t }),
                )
            },
            None => flow.if_listing(context, cond, else_, then, merge, depth) is None,
        },
{
    if let Some(steps) = flow.if_listing(context, cond, then, else_, merge, depth) {
        let inner = context.in_if(merge);
        let t = flow.dest_listing(inner, then, merge, depth)->0;
        let e = flow.dest_listing(inner, else_, merge, depth)->0;
        let rest = flow.rest_listing(context, merge, depth)->0;
        assert(steps == seq![Step::If { cond, then: t, else_: e }] + rest);
        assert(flow.if_listing(context, cond, else_, then, merge, depth) == Some(
            seq![Step::If { cond, then: e, else_: t }] + rest,
        ));
        assert(steps.update(0, Step::If { cond, then: e, else_: t }) =~= seq![
            Step::If { cond, then: e, else_: t },
        ] + rest);
    }
}

} // verus!
