//! Tells whether a function can be listed as structured code.

use vstd::arithmetic::div_mod::lemma_fundamental_div_mod_converse;
use vstd::prelude::*;
use vstd::set_lib::{lemma_int_range, lemma_len_subset, set_int_range};

use crate::analysis::LoopId;
use crate::flow::{dest_info, FunctionFlow, TerminatorInfo};
use crate::ir::{BasicBlockId, BranchInfo, FunctionBody, InstId, ValueId};
use crate::scope::{Context, EnclosingLoop};
use crate::serializer::InstSerializer;
use crate::walk::{
    dest_places, is_leg, is_walk, lemma_listing_monotone, lemma_listing_next, lemma_visits_branch,
    lemma_visits_loop, lemma_walk_push, rest_places, Place,
};

verus! {

/// What a context is made of belongs to the function.
pub open spec fn is_known_context(flow: FunctionFlow, context: Context) -> bool {
    &&& context.merge matches Some(b) ==> flow.body.order.has_block(b)
    &&& context.header is Some ==> context.merge is None && context.enclosing is Some
        && context.header == Some(context.enclosing->0.header)
    &&& context.enclosing matches Some(l) ==> flow.loop_tree.has_loop(l.lp) && l
        == flow.around_body(l.lp)
}

/// What a place is made of belongs to the function.
pub open spec fn is_known(flow: FunctionFlow, place: Place) -> bool {
    is_known_context(flow, place.context) && flow.body.order.has_block(place.block)
}

/// Different known places.
pub open spec fn is_path(flow: FunctionFlow, places: Seq<Place>) -> bool {
    &&& places.no_duplicates()
    &&& forall|i: int| 0 <= i < places.len() ==> is_known(flow, #[trigger] places[i])
}

/// The number of known places is at most this.
pub open spec fn place_bound(flow: FunctionFlow) -> int {
    let n = flow.body.order.blocks@.len() as int;
    n * ((n + 1) * (2 * (flow.loop_tree.loops@.len() as int + 1)))
}

spec fn merge_digit(context: Context) -> int {
    match context.merge {
        Some(b) => b.0 + 1,
        None => 0,
    }
}

spec fn header_digit(context: Context) -> int {
    if context.header is Some {
        1
    } else {
        0
    }
}

spec fn enclosing_digit(context: Context) -> int {
    match context.enclosing {
        Some(l) => l.lp.0 + 1,
        None => 0,
    }
}

/// A number for each known place.
spec fn place_number(flow: FunctionFlow, place: Place) -> int {
    let n = flow.body.order.blocks@.len() as int;
    place.block.0 + n * (merge_digit(place.context) + (n + 1) * (header_digit(place.context) + 2
        * enclosing_digit(place.context)))
}

/// Two digits make one number, and there are as many as there are pairs.
proof fn lemma_two_digits(low: int, high: int, base: int, count: int)
    requires
        0 <= low < base,
        0 <= high < count,
    ensures
        0 <= low + base * high < base * count,
        (low + base * high) / base == high,
        (low + base * high) % base == low,
{
    assert(low + base * high < base * count && base * high >= 0) by (nonlinear_arith)
        requires
            0 <= low < base,
            0 <= high < count,
    ;
    assert(base * high == high * base) by (nonlinear_arith);
    lemma_fundamental_div_mod_converse(low + base * high, base, high, low);
}

/// The number of a known place tells the place.
proof fn lemma_place_number(flow: FunctionFlow, place: Place)
    requires
        is_known(flow, place),
    ensures
        ({
            let n = flow.body.order.blocks@.len() as int;
            let number = place_number(flow, place);
            let rest = number / n;
            let last = rest / (n + 1);
            &&& 0 <= number < place_bound(flow)
            &&& number % n == place.block.0
            &&& rest % (n + 1) == merge_digit(place.context)
            &&& last % 2 == header_digit(place.context)
            &&& last / 2 == enclosing_digit(place.context)
        }),
{
    let n = flow.body.order.blocks@.len() as int;
    let count = flow.loop_tree.loops@.len() as int + 1;
    let merge = merge_digit(place.context);
    let last = header_digit(place.context) + 2 * enclosing_digit(place.context);
    lemma_two_digits(
        header_digit(place.context),
        enclosing_digit(place.context),
        2,
        count,
    );
    lemma_two_digits(merge, last, n + 1, 2 * count);
    lemma_two_digits(
        place.block.0 as int,
        merge + (n + 1) * last,
        n,
        (n + 1) * (2 * count),
    );
}

/// There are no more different known places than the bound says.
pub proof fn lemma_place_bound(flow: FunctionFlow, places: Seq<Place>)
    requires
        is_path(flow, places),
    ensures
        places.len() <= place_bound(flow),
{
    let numbers = places.map_values(|p: Place| place_number(flow, p));
    assert forall|i: int, j: int|
        0 <= i < numbers.len() && 0 <= j < numbers.len() && i != j implies numbers[i]
        != numbers[j] by {
        if numbers[i] == numbers[j] {
            lemma_place_number(flow, places[i]);
            lemma_place_number(flow, places[j]);
            assert(places[i] == places[j]);
        }
    }
    numbers.unique_seq_to_set();
    let bound = place_bound(flow);
    if places.len() > 0 {
        lemma_place_number(flow, places[0]);
    } else {
        assert(bound >= 0) by (nonlinear_arith)
            requires
                bound == flow.body.order.blocks@.len() * ((flow.body.order.blocks@.len() + 1) * (2
                    * (flow.loop_tree.loops@.len() + 1))),
        ;
    }
    lemma_int_range(0, bound);
    assert forall|x: int| #[trigger] numbers.to_set().contains(x) implies set_int_range(
        0,
        bound,
    ).contains(x) by {
        let i = choose|i: int| 0 <= i < numbers.len() && numbers[i] == x;
        lemma_place_number(flow, places[i]);
    }
    lemma_len_subset(numbers.to_set(), set_int_range(0, bound));
}

/// Within one depth all listings that come to an end are there.
proof fn lemma_common_depth(flow: FunctionFlow, places: Seq<Place>) -> (depth: nat)
    requires
        forall|i: int| 0 <= i < places.len() ==> flow.ends(#[trigger] places[i]),
    ensures
        forall|i: int|
            0 <= i < places.len() ==> flow.listing_at(#[trigger] places[i], depth) is Some,
    decreases places.len(),
{
    if places.len() == 0 {
        0
    } else {
        let shorter = places.drop_last();
        assert forall|i: int| 0 <= i < shorter.len() implies flow.ends(#[trigger] shorter[i]) by {
            assert(shorter[i] == places[i]);
        }
        let d = lemma_common_depth(flow, shorter);
        assert(flow.ends(places[places.len() - 1]));
        let e = choose|e: nat| #[trigger] flow.listing_at(places.last(), e) is Some;
        let m = if d <= e {
            e
        } else {
            d
        };
        lemma_listing_monotone(flow, places.last(), e, m);
        assert forall|i: int| 0 <= i < places.len() implies flow.listing_at(
            #[trigger] places[i],
            m,
        ) is Some by {
            if i < places.len() - 1 {
                assert(shorter[i] == places[i]);
                lemma_listing_monotone(flow, places[i], d, m);
            }
        }
        m
    }
}

/// A listing comes to an end just if all that it is made of does.
pub proof fn law_ends_next(flow: FunctionFlow, place: Place)
    ensures
        flow.ends(place) <==> (flow.next_places(place) matches Some(places) && forall|i: int|
            0 <= i < places.len() ==> flow.ends(#[trigger] places[i])),
{
    if flow.ends(place) {
        let depth = choose|depth: nat| #[trigger] flow.listing_at(place, depth) is Some;
        lemma_listing_next(flow, place, depth);
        let places = flow.next_places(place)->0;
        assert forall|i: int| 0 <= i < places.len() implies flow.ends(#[trigger] places[i]) by {
            assert(flow.listing_at(places[i], (depth - 1) as nat) is Some);
        }
    }
    if let Some(places) = flow.next_places(place) {
        if forall|i: int| 0 <= i < places.len() ==> flow.ends(#[trigger] places[i]) {
            let depth = lemma_common_depth(flow, places);
            lemma_listing_next(flow, place, depth + 1);
        }
    }
}

/// Along a walk each listing has to be there within one less.
proof fn lemma_walk_depth(flow: FunctionFlow, places: Seq<Place>, i: int, j: int, depth: nat)
    requires
        is_walk(flow, places),
        0 <= i <= j < places.len(),
        flow.listing_at(places[i], depth) is Some,
    ensures
        j - i < depth,
        flow.listing_at(places[j], (depth - (j - i)) as nat) is Some,
    decreases j - i,
{
    if i < j {
        lemma_listing_next(flow, places[i], depth);
        assert(is_leg(flow, places, i));
        lemma_walk_depth(flow, places, i + 1, j, (depth - 1) as nat);
    }
}

proof fn lemma_circle_depth(flow: FunctionFlow, places: Seq<Place>, i: int, j: int, depth: nat)
    requires
        is_walk(flow, places),
        0 <= i < j < places.len(),
        places[i] == places[j],
    ensures
        flow.listing_at(places[i], depth) is None,
    decreases depth,
{
    if flow.listing_at(places[i], depth) is Some {
        lemma_walk_depth(flow, places, i, j, depth);
        lemma_circle_depth(flow, places, i, j, (depth - (j - i)) as nat);
    }
}

/// A listing that visits the same place again does not come to an end.
pub proof fn law_circle_never_ends(flow: FunctionFlow, places: Seq<Place>, i: int, j: int)
    requires
        is_walk(flow, places),
        0 <= i < j < places.len(),
        places[i] == places[j],
    ensures
        !flow.ends(places[i]),
{
    assert forall|depth: nat| #[trigger] flow.listing_at(places[i], depth) is None by {
        lemma_circle_depth(flow, places, i, j, depth);
    }
}

/// There is no listing of a block that is not there.
proof fn lemma_no_block(flow: FunctionFlow, place: Place)
    requires
        !flow.body.order.has_block(place.block),
    ensures
        !flow.ends(place),
{
    law_ends_next(flow, place);
    if let Some(lp) = flow.opened_loop(place.context, place.block) {
        if flow.exit_determined(lp) {
            let inner = Place {
                context: Context::in_loop(flow.around_body(lp)),
                block: place.block,
            };
            assert(flow.next_places(place)->0[0] == inner);
            law_ends_next(flow, inner);
        }
    }
}

impl<'a> InstSerializer<'a> {
    /// Tells whether the function can be listed as structured code.
    pub fn is_serializable(&mut self) -> (yes: bool)
        requires
            old(self).flow().wf(),
        ensures
            final(self).flow() == old(self).flow(),
            final(self).scope is None,
            yes == old(self).flow().serializable(),
    {
        self.scope = None;
        let entry: BasicBlockId = self.cfg.entry();
        let mut path: Vec<Place> = Vec::new();
        self.block_ends(entry, &mut path)
    }

    /// Tells whether the listing of `block` comes to an end, given the places
    /// whose listings visit it.
    fn block_ends(&mut self, block: BasicBlockId, path: &mut Vec<Place>) -> (yes: bool)
        requires
            old(self).wf(),
            is_known_context(old(self).flow(), old(self).context()),
            is_path(old(self).flow(), old(path)@),
            is_walk(
                old(self).flow(),
                old(path)@.push(Place { context: old(self).context(), block }),
            ),
        ensures
            final(self).flow() == old(self).flow(),
            final(self).scope == old(self).scope,
            final(path)@ == old(path)@,
            yes == old(self).flow().ends(Place { context: old(self).context(), block }),
        decreases place_bound(old(self).flow()) - old(path)@.len(), 0nat,
    {
        let ghost flow = self.flow();
        let here = Place { context: self.current_context(), block };
        let ghost walk = path@.push(here);
        if block.0 >= self.body.order.blocks.len() {
            proof {
                lemma_no_block(flow, here);
            }
            return false;
        }
        let mut i: usize = 0;
        while i < path.len()
            invariant
                i <= path@.len(),
                flow == old(self).flow(),
                here == (Place { context: old(self).context(), block }),
                is_walk(flow, walk),
                walk == path@.push(here),
                forall|j: int| 0 <= j < i ==> path@[j] != here,
            decreases path@.len() - i,
        {
            if path[i] == here {
                proof {
                    law_circle_never_ends(flow, walk, i as int, walk.len() - 1);
                }
                return false;
            }
            i += 1;
        }
        path.push(here);
        proof {
            lemma_place_bound(flow, path@);
        }
        let yes: bool = self.next_end(block, path);
        path.pop();
        assert(path@ =~= old(path)@);
        yes
    }

    /// Tells whether the listing of `block`, the last place of `path`, comes to an end.
    fn next_end(&mut self, block: BasicBlockId, path: &mut Vec<Place>) -> (yes: bool)
        requires
            old(self).wf(),
            is_known_context(old(self).flow(), old(self).context()),
            old(self).flow().body.order.has_block(block),
            is_path(old(self).flow(), old(path)@),
            is_walk(old(self).flow(), old(path)@),
            old(path)@.last() == (Place { context: old(self).context(), block }),
        ensures
            final(self).flow() == old(self).flow(),
            final(self).scope == old(self).scope,
            final(path)@ == old(path)@,
            yes == old(self).flow().ends(Place { context: old(self).context(), block }),
        decreases place_bound(old(self).flow()) - old(path)@.len(), 3nat,
    {
        let ghost flow = self.flow();
        let context = self.current_context();
        let ghost here = Place { context, block };
        proof {
            law_ends_next(flow, here);
        }
        if let Some(lp) = self.loop_tree.loop_of_block(block) {
            if block == self.loop_tree.loop_header(lp) && context.header != Some(block) {
                if !self.is_exit_determined(lp) {
                    return false;
                }
                let exit: Option<BasicBlockId> = self.find_loop_exit(lp);
                proof {
                    lemma_visits_loop(flow, here, lp);
                }
                let ghost inner = Place { context: Context::in_loop(flow.around_body(lp)), block };
                proof {
                    lemma_walk_push(flow, path@, inner);
                }
                self.enter_loop_scope(lp, block, exit);
                let body_ends: bool = self.block_ends(block, path);
                self.exit_scope();
                let ghost places = flow.next_places(here)->0;
                assert(places[0] == inner);
                if !body_ends {
                    return false;
                }
                if let Some(next) = exit {
                    if context.merge != Some(next) {
                        proof {
                            assert(places[1] == (Place { context, block: next }));
                            lemma_walk_push(flow, path@, places[1]);
                        }
                        return self.block_ends(next, path);
                    }
                }
                return true;
            }
        }
        let fn_body: &FunctionBody = self.body;
        let end: InstId = match fn_body.terminator(block) {
            Some(end) => end,
            None => {
                return false;
            },
        };
        if let BranchInfo::Branch(cond, then, else_) = fn_body.store.branch_info(end) {
            if block.0 >= self.pd_tree.post_idoms.len() {
                return false;
            }
            return self.branch_ends(block, cond, then, else_, path);
        }
        match self.analyze_terminator(end) {
            TerminatorInfo::FallThrough(next) => {
                proof {
                    let place = Place { context, block: next };
                    assert(flow.next_places(here)->0 =~= seq![place]);
                    assert(flow.next_places(here)->0[0] == place);
                    lemma_walk_push(flow, path@, place);
                }
                self.block_ends(next, path)
            },
            _ => true,
        }
    }

    /// Tells whether the listing of `block`, the last place of `path`, which ends
    /// in a branch, comes to an end.
    fn branch_ends(
        &mut self,
        block: BasicBlockId,
        cond: ValueId,
        then: BasicBlockId,
        else_: BasicBlockId,
        path: &mut Vec<Place>,
    ) -> (yes: bool)
        requires
            old(self).wf(),
            is_known_context(old(self).flow(), old(self).context()),
            is_path(old(self).flow(), old(path)@),
            is_walk(old(self).flow(), old(path)@),
            old(path)@.last() == (Place { context: old(self).context(), block }),
            old(self).flow().opened_loop(old(self).context(), block) is None,
            old(self).flow().body.terminator_of(block) matches Some(end)
                && old(self).flow().body.store.kind(end).targets() == BranchInfo::Branch(
                cond,
                then,
                else_,
            ),
            old(self).pd_tree.has_block(block),
        ensures
            final(self).flow() == old(self).flow(),
            final(self).scope == old(self).scope,
            final(path)@ == old(path)@,
            yes == old(self).flow().ends(Place { context: old(self).context(), block }),
        decreases place_bound(old(self).flow()) - old(path)@.len(), 2nat,
    {
        let ghost flow = self.flow();
        let ghost context = self.context();
        let ghost here = Place { context, block };
        let ghost merge = flow.merge_of(context, block);
        let ghost p = dest_places(context.in_if(merge), dest_info(context, then), merge);
        let ghost q = dest_places(context.in_if(merge), dest_info(context, else_), merge);
        let ghost r = rest_places(context, merge);
        let ghost places = flow.next_places(here)->0;
        proof {
            law_ends_next(flow, here);
            lemma_visits_branch(flow, here, cond, then, else_);
            assert(places == p + q + r);
            assert forall|i: int| 0 <= i < p.len() implies places[i] == #[trigger] p[i] by {}
            assert forall|i: int| 0 <= i < q.len() implies places[p.len() + i]
                == #[trigger] q[i] by {}
            assert forall|i: int| 0 <= i < r.len() implies places[p.len() + q.len() + i]
                == #[trigger] r[i] by {}
        }
        let then_info: TerminatorInfo = self.analyze_dest(then);
        let else_info: TerminatorInfo = self.analyze_dest(else_);
        let merge_block: Option<BasicBlockId> = self.merge_block(block);
        if let Some(m) = merge_block {
            assert(r[0] == (Place { context, block: m }));
            if m.0 >= self.body.order.blocks.len() {
                proof {
                    lemma_no_block(flow, r[0]);
                }
                return false;
            }
        }
        self.enter_if_scope(merge_block);
        let then_ends: bool = self.dest_ends(then_info, merge_block, path);
        let else_ends: bool = self.dest_ends(else_info, merge_block, path);
        self.exit_scope();
        let rest_ends: bool = match merge_block {
            Some(m) => {
                proof {
                    lemma_walk_push(flow, path@, Place { context, block: m });
                }
                self.block_ends(m, path)
            },
            None => true,
        };
        then_ends && else_ends && rest_ends
    }

    /// Tells whether the listing of a jump that amounts to `info` comes to an end.
    fn dest_ends(
        &mut self,
        info: TerminatorInfo,
        merge_block: Option<BasicBlockId>,
        path: &mut Vec<Place>,
    ) -> (yes: bool)
        requires
            old(self).wf(),
            is_known_context(old(self).flow(), old(self).context()),
            is_path(old(self).flow(), old(path)@),
            is_walk(old(self).flow(), old(path)@),
            forall|i: int|
                0 <= i < dest_places(old(self).context(), info, merge_block).len() ==> old(
                    self,
                ).flow().visits(
                    old(path)@.last(),
                    #[trigger] dest_places(old(self).context(), info, merge_block)[i],
                ),
        ensures
            final(self).flow() == old(self).flow(),
            final(self).scope == old(self).scope,
            final(path)@ == old(path)@,
            yes == forall|i: int|
                0 <= i < dest_places(old(self).context(), info, merge_block).len() ==> old(
                    self,
                ).flow().ends(#[trigger] dest_places(old(self).context(), info, merge_block)[i]),
        decreases place_bound(old(self).flow()) - old(path)@.len(), 1nat,
    {
        let ghost places = dest_places(self.context(), info, merge_block);
        match info {
            TerminatorInfo::FallThrough(dest) => if Some(dest) != merge_block {
                proof {
                    assert(places[0] == (Place { context: self.context(), block: dest }));
                    lemma_walk_push(self.flow(), path@, places[0]);
                }
                self.block_ends(dest, path)
            } else {
                true
            },
            _ => true,
        }
    }

    /// What the order of the code at the current place depends on.
    fn current_context(&self) -> (context: Context)
        ensures
            context == self.context(),
    {
        match &self.scope {
            Some(scope) => Context {
                merge: scope.if_merge_block(),
                header: scope.loop_header(),
                enclosing: match scope.loop_recursive() {
                    Some(lp) => match scope.loop_header_recursive() {
                        Some(header) => Some(
                            EnclosingLoop { lp, header, exit: scope.loop_exit_recursive() },
                        ),
                        None => None,
                    },
                    None => None,
                },
            },
            None => Context { merge: None, header: None, enclosing: None },
        }
    }

    /// Tells whether there is one answer to where control goes on after `lp`.
    pub fn is_exit_determined(&self, lp: LoopId) -> (yes: bool)
        requires
            self.loop_tree.has_loop(lp),
        ensures
            yes == self.flow().exit_determined(lp),
    {
        let ghost flow = self.flow();
        let blocks: &Vec<BasicBlockId> = self.loop_tree.blocks_post_order(lp);
        let mut k: usize = 0;
        while k < blocks.len()
            invariant
                k <= blocks@.len(),
                flow == self.flow(),
                blocks@ == flow.loop_tree.blocks_of(lp),
                forall|j: int| 0 <= j < k ==> flow.cfg.has_block(#[trigger] blocks@[j]),
            decreases blocks@.len() - k,
        {
            if blocks[k].0 >= self.cfg.succs.len() {
                assert(!flow.cfg.has_block(blocks@[k as int]));
                return false;
            }
            k += 1;
        }
        let candidates: Vec<BasicBlockId> = self.exit_candidates(lp);
        if candidates.len() == 0 {
            return true;
        }
        if candidates.len() == 1 {
            return match self.df.frontiers(candidates[0]) {
                Some(list) => list.len() == 1,
                None => true,
            };
        }
        if self.find_joint(&candidates).is_some() {
            return true;
        }
        let mut i: usize = 0;
        while i < candidates.len() - 1
            invariant
                i <= candidates@.len() - 1,
                candidates@.len() > 1,
                flow == self.flow(),
                candidates@ == flow.exit_candidates(lp),
                forall|j: int| !#[trigger] flow.is_joint(candidates@, j),
                forall|j: int|
                    0 <= j < i ==> flow.df.frontiers_of(#[trigger] candidates@[j]) is Some,
            decreases candidates@.len() - i,
        {
            if self.df.frontiers(candidates[i]).is_none() {
                assert(flow.df.frontiers_of(candidates@[i as int]) is None);
                return false;
            }
            i += 1;
        }
        match self.df.frontiers(candidates[candidates.len() - 1]) {
            Some(list) => {
                let mut j: usize = 0;
                while j < list.len()
                    invariant
                        j <= list@.len(),
                        candidates@.len() > 1,
                        flow == self.flow(),
                        candidates@ == flow.exit_candidates(lp),
                        forall|i: int| !#[trigger] flow.is_joint(candidates@, i),
                        flow.df.frontiers_of(candidates@.last()) == Some(list@),
                        forall|i: int| 0 <= i < j ==> #[trigger] list@[i] == list@[0],
                    decreases list@.len() - j,
                {
                    if list[j] != list[0] {
                        proof {
                            let l = flow.df.frontiers_of(flow.exit_candidates(lp).last())->0;
                            assert(l[j as int] != l[0]);
                        }
                        return false;
                    }
                    j += 1;
                }
                true
            },
            None => true,
        }
    }
}

} // verus!
