//! How the listing of a place relates to the listings of the places that follow it.

use vstd::prelude::*;

use crate::admission::law_ends_next;
use crate::analysis::LoopId;
use crate::flow::{dest_info, straight_line, FunctionFlow, TerminatorInfo};
use crate::ir::{BasicBlockId, BodyDataStore, InstId, InstKind, ValueId};
use crate::nesting::lemma_four_ways;
use crate::scope::{Context, EnclosingLoop};
use crate::steps::Step;
use crate::walk::{
    dest_places, law_block_steps, law_loop_steps, lemma_visits_branch, lemma_visits_loop,
    rest_places, Place,
};

verus! {

proof fn lemma_line_in_order(store: BodyDataStore, insts: Seq<InstId>, end: int)
    requires
        0 <= end <= insts.len(),
        forall|j: int|
            0 <= j < end ==> store.insts@[(#[trigger] insts[j]).0 as int] is Nop
                || store.insts@[insts[j].0 as int] is Plain,
        end < insts.len() ==> !(store.insts@[insts[end].0 as int] is Nop)
            && !(store.insts@[insts[end].0 as int] is Plain),
    ensures
        straight_line(store, insts) == insts.take(end).filter(
            |inst: InstId| store.insts@[inst.0 as int] is Plain,
        ),
    decreases insts.len(),
{
    let plain = |inst: InstId| store.insts@[inst.0 as int] is Plain;
    if end == 0 {
        assert(insts.take(0) =~= Seq::<InstId>::empty());
        reveal(Seq::filter);
    } else {
        let rest = insts.drop_first();
        let first = seq![insts[0]];
        assert forall|j: int| 0 <= j < end - 1 implies store.insts@[(
        #[trigger] rest[j]).0 as int] is Nop || store.insts@[rest[j].0 as int] is Plain by {
            assert(rest[j] == insts[j + 1]);
        }
        lemma_line_in_order(store, rest, end - 1);
        assert(insts.take(end) =~= first + rest.take(end - 1));
        Seq::filter_distributes_over_add(first, rest.take(end - 1), plain);
        assert(first.drop_last() =~= Seq::<InstId>::empty());
        reveal_with_fuel(Seq::filter, 2);
        if store.insts@[insts[0].0 as int] is Plain {
            assert(first.filter(plain) =~= first);
        } else {
            assert(first.filter(plain) =~= Seq::<InstId>::empty());
            assert(first.filter(plain) + rest.take(end - 1).filter(plain) =~= rest.take(
                end - 1,
            ).filter(plain));
        }
    }
}

/// Before its end a block lists, in the order in which they stand and each once,
/// the instructions up to the first that ends a block, `end`, that compute something.
pub proof fn law_block_in_order(flow: FunctionFlow, block: BasicBlockId, end: int)
    requires
        ({
            let insts = flow.body.order.blocks@[block.0 as int]@;
            &&& 0 <= end <= insts.len()
            &&& forall|j: int|
                0 <= j < end ==> flow.body.store.insts@[(#[trigger] insts[j]).0 as int] is Nop
                    || flow.body.store.insts@[insts[j].0 as int] is Plain
            &&& end < insts.len() ==> !(flow.body.store.insts@[insts[end].0 as int] is Nop)
                && !(flow.body.store.insts@[insts[end].0 as int] is Plain)
        }),
    ensures
        flow.block_code(block) == flow.body.order.blocks@[block.0 as int]@.take(end).filter(
            |inst: InstId| flow.body.store.insts@[inst.0 as int] is Plain,
        ).map_values(|inst: InstId| Step::Inst(inst)),
{
    let insts = flow.body.order.blocks@[block.0 as int]@;
    lemma_line_in_order(flow.body.store, insts, end);
    assert(flow.block_code(block) =~= insts.take(end).filter(
        |inst: InstId| flow.body.store.insts@[inst.0 as int] is Plain,
    ).map_values(|inst: InstId| Step::Inst(inst)));
}

/// Of two instructions of a block that are listed before its end, the one that
/// stands first is listed first.
pub proof fn law_earlier_is_first(flow: FunctionFlow, block: BasicBlockId, end: int, a: int, b: int)
    requires
        ({
            let insts = flow.body.order.blocks@[block.0 as int]@;
            &&& 0 <= a < b < end <= insts.len()
            &&& flow.body.store.insts@[insts[a].0 as int] is Plain
            &&& flow.body.store.insts@[insts[b].0 as int] is Plain
            &&& forall|j: int|
                0 <= j < end ==> flow.body.store.insts@[(#[trigger] insts[j]).0 as int] is Nop
                    || flow.body.store.insts@[insts[j].0 as int] is Plain
            &&& end < insts.len() ==> !(flow.body.store.insts@[insts[end].0 as int] is Nop)
                && !(flow.body.store.insts@[insts[end].0 as int] is Plain)
        }),
    ensures
        exists|i: int, j: int|
            0 <= i < j < flow.block_code(block).len() && #[trigger] flow.block_code(block)[i]
                == Step::Inst(flow.body.order.blocks@[block.0 as int]@[a])
                && #[trigger] flow.block_code(block)[j] == Step::Inst(
                flow.body.order.blocks@[block.0 as int]@[b],
            ),
{
    let insts = flow.body.order.blocks@[block.0 as int]@;
    let plain = |inst: InstId| flow.body.store.insts@[inst.0 as int] is Plain;
    law_block_in_order(flow, block, end);
    let first = insts.take(b);
    let rest = insts.take(end).skip(b);
    assert(insts.take(end) =~= first + rest);
    Seq::filter_distributes_over_add(first, rest, plain);
    assert(first[a] == insts[a] && rest[0] == insts[b]);
    first.lemma_filter_contains(plain, a);
    rest.lemma_filter_contains(plain, 0);
    let x = first.filter(plain);
    let y = rest.filter(plain);
    let i = choose|i: int| 0 <= i < x.len() && x[i] == insts[a];
    let k = choose|k: int| 0 <= k < y.len() && y[k] == insts[b];
    let j = x.len() + k;
    let code = flow.block_code(block);
    assert(insts.take(end).filter(plain) == x + y);
    assert(code[i] == Step::Inst(insts[a]));
    assert(code[j] == Step::Inst(insts[b]));
}

/// A block that does not end in an instruction that says where control goes is
/// not listed.
pub proof fn law_endless_block(flow: FunctionFlow, place: Place)
    requires
        flow.opened_loop(place.context, place.block) is None,
        ({
            let blocks = flow.body.order.blocks@;
            let b = place.block.0 as int;
            ||| place.block.0 >= blocks.len()
            ||| blocks[b]@.len() == 0
            ||| flow.body.store.insts@[blocks[b]@[blocks[b]@.len() - 1].0 as int] is Nop
            ||| flow.body.store.insts@[blocks[b]@[blocks[b]@.len() - 1].0 as int] is Plain
        }),
    ensures
        !flow.ends(place),
{
    law_ends_next(flow, place);
}

/// A block that leaves the function lists its instructions, and at last the one
/// that does.
pub proof fn law_return_listed(flow: FunctionFlow, place: Place, last: InstId)
    requires
        flow.opened_loop(place.context, place.block) is None,
        place.block.0 < flow.body.order.blocks@.len(),
        flow.body.order.blocks@[place.block.0 as int]@.len() > 0,
        flow.body.order.blocks@[place.block.0 as int]@.last() == last,
        flow.body.store.insts@[last.0 as int] is Return,
    ensures
        flow.ends(place),
        flow.steps_at(place) == flow.block_code(place.block) + seq![Step::Inst(last)],
{
    law_ends_next(flow, place);
    law_block_steps(flow, place);
    assert(flow.block_code(place.block).push(Step::Inst(last)) =~= flow.block_code(place.block)
        + seq![Step::Inst(last)]);
}

/// A block that ends in a jump lists its instructions, and then what the jump
/// becomes: `Continue` to the header of the innermost loop, `Break` to its exit,
/// nothing to where the branches around meet, and else all that its destination
/// lists in the same place.
pub proof fn law_jump_listed(flow: FunctionFlow, place: Place, last: InstId, dest: BasicBlockId)
    requires
        flow.opened_loop(place.context, place.block) is None,
        place.block.0 < flow.body.order.blocks@.len(),
        flow.body.order.blocks@[place.block.0 as int]@.len() > 0,
        flow.body.order.blocks@[place.block.0 as int]@.last() == last,
        flow.body.store.insts@[last.0 as int] == (InstKind::Jump { dest }),
    ensures
        ({
            let code = flow.block_code(place.block);
            let next = Place { context: place.context, block: dest };
            if place.context.enclosing matches Some(l) && l.header == dest {
                flow.ends(place) && flow.steps_at(place) == code + seq![Step::Continue]
            } else if place.context.enclosing matches Some(l) && l.exit == Some(dest) {
                flow.ends(place) && flow.steps_at(place) == code + seq![Step::Break]
            } else if place.context.merge == Some(dest) {
                flow.ends(place) && flow.steps_at(place) == code
            } else {
                &&& flow.ends(place) <==> flow.ends(next)
                &&& flow.ends(place) ==> flow.steps_at(place) == code + flow.steps_at(next)
            }
        }),
{
    law_ends_next(flow, place);
    let context = place.context;
    let info = dest_info(context, dest);
    let places = flow.next_places(place)->0;
    assert(places == dest_places(context, info, None));
    if info is FallThrough {
        assert(places =~= seq![Place { context, block: dest }]);
        assert(places[0] == (Place { context, block: dest }));
    }
    if flow.ends(place) {
        law_block_steps(flow, place);
        assert(flow.block_code(place.block) + Seq::<Step>::empty() =~= flow.block_code(
            place.block,
        ));
    }
}

/// A block that ends in a branch lists its instructions, then a conditional on
/// the branch's condition whose first list is what the branch's `then` becomes
/// and whose second is what its `else_` becomes, and then where the two meet.
pub proof fn law_branch_listed(
    flow: FunctionFlow,
    place: Place,
    last: InstId,
    cond: ValueId,
    then: BasicBlockId,
    else_: BasicBlockId,
)
    requires
        flow.opened_loop(place.context, place.block) is None,
        place.block.0 < flow.body.order.blocks@.len(),
        flow.body.order.blocks@[place.block.0 as int]@.len() > 0,
        flow.body.order.blocks@[place.block.0 as int]@.last() == last,
        flow.body.store.insts@[last.0 as int] == (InstKind::Branch { cond, then, else_ }),
    ensures
        ({
            let context = place.context;
            let merge = flow.merge_of(context, place.block);
            let inner = Context { merge, header: None, enclosing: context.enclosing };
            let arm_ends = |dest: BasicBlockId|
                dest_info(context, dest) is FallThrough && merge != Some(dest) ==> flow.ends(
                    Place { context: inner, block: dest },
                );
            let arm = |dest: BasicBlockId|
                match dest_info(context, dest) {
                    TerminatorInfo::Continue => seq![Step::Continue],
                    TerminatorInfo::Break => seq![Step::Break],
                    TerminatorInfo::FallThrough(_) => if merge == Some(dest) {
                        Seq::<Step>::empty()
                    } else {
                        flow.steps_at(Place { context: inner, block: dest })
                    },
                    _ => Seq::<Step>::empty(),
                };
            let rest = match merge {
                Some(m) => flow.steps_at(Place { context, block: m }),
                None => Seq::<Step>::empty(),
            };
            &&& flow.ends(place) <==> {
                &&& place.block.0 < flow.pd_tree.post_idoms@.len()
                &&& arm_ends(then)
                &&& arm_ends(else_)
                &&& merge matches Some(m) ==> flow.ends(Place { context, block: m })
            }
            &&& flow.ends(place) ==> flow.steps_at(place) == flow.block_code(place.block) + seq![
                Step::If { cond, then: arm(then), else_: arm(else_) },
            ] + rest
        }),
{
    law_ends_next(flow, place);
    let context = place.context;
    let merge = flow.merge_of(context, place.block);
    let inner = context.in_if(merge);
    if place.block.0 < flow.pd_tree.post_idoms@.len() {
        let p = dest_places(inner, dest_info(context, then), merge);
        let q = dest_places(inner, dest_info(context, else_), merge);
        let r = rest_places(context, merge);
        let places = flow.next_places(place)->0;
        assert(places == p + q + r);
        assert forall|i: int| 0 <= i < p.len() implies places[i] == #[trigger] p[i] by {}
        assert forall|i: int| 0 <= i < q.len() implies places[p.len() + i] == #[trigger] q[i] by {}
        assert forall|i: int| 0 <= i < r.len() implies places[p.len() + q.len() + i]
            == #[trigger] r[i] by {}
        if dest_info(context, then) is FallThrough && merge != Some(then) {
            assert(p[0] == (Place { context: inner, block: then }));
        }
        if dest_info(context, else_) is FallThrough && merge != Some(else_) {
            assert(q[0] == (Place { context: inner, block: else_ }));
        }
        if let Some(m) = merge {
            assert(r[0] == (Place { context, block: m }));
        }
        if flow.ends(place) {
            law_block_steps(flow, place);
            let steps = flow.if_steps(
                context,
                cond,
                dest_info(context, then),
                dest_info(context, else_),
                merge,
            );
            assert(flow.steps_at(place) == flow.block_code(place.block) + steps);
            assert(flow.block_code(place.block) + steps =~= flow.block_code(place.block) + seq![
                Step::If {
                    cond,
                    then: flow.dest_steps(inner, dest_info(context, then), merge),
                    else_: flow.dest_steps(inner, dest_info(context, else_), merge),
                },
            ] + flow.rest_steps(context, merge));
        }
    }
}

/// The header of a loop lists the loop, whose body is what the header lists
/// inside of it, and then the loop's exit, unless the branches around meet there.
/// It is listed just if the exit is settled and both of these are.
pub proof fn law_loop_listed(flow: FunctionFlow, place: Place, lp: LoopId)
    requires
        flow.opened_loop(place.context, place.block) == Some(lp),
    ensures
        ({
            let context = place.context;
            let exit = flow.loop_exit(lp);
            let inner = Place {
                context: Context {
                    merge: None,
                    header: Some(place.block),
                    enclosing: Some(EnclosingLoop { lp, header: place.block, exit }),
                },
                block: place.block,
            };
            &&& flow.ends(place) <==> {
                &&& flow.exit_determined(lp)
                &&& flow.ends(inner)
                &&& exit matches Some(x) ==> context.merge == Some(x) || flow.ends(
                    Place { context, block: x },
                )
            }
            &&& flow.ends(place) ==> flow.steps_at(place) == seq![
                Step::For { body: flow.steps_at(inner) },
            ] + match exit {
                Some(x) => if context.merge == Some(x) {
                    Seq::<Step>::empty()
                } else {
                    flow.steps_at(Place { context, block: x })
                },
                None => Seq::<Step>::empty(),
            }
        }),
{
    law_ends_next(flow, place);
    if flow.exit_determined(lp) {
        lemma_visits_loop(flow, place, lp);
        let places = flow.next_places(place)->0;
        let l = flow.around_body(lp);
        assert(places[0] == (Place { context: Context::in_loop(l), block: place.block }));
        if let Some(x) = l.exit {
            if place.context.merge != Some(x) {
                assert(places[1] == (Place { context: place.context, block: x }));
            }
        }
    }
    if flow.ends(place) {
        law_loop_steps(flow, place, lp);
    }
}

/// What is appended for a conditional: one list for each branch, each inside of
/// the conditional, and then all that is listed where they meet.
pub proof fn law_conditional_listed(
    flow: FunctionFlow,
    context: Context,
    cond: ValueId,
    then: TerminatorInfo,
    else_: TerminatorInfo,
    merge: Option<BasicBlockId>,
)
    ensures
        ({
            let inner = Context { merge, header: None, enclosing: context.enclosing };
            let arm_ends = |info: TerminatorInfo|
                match info {
                    TerminatorInfo::FallThrough(dest) => merge == Some(dest) || flow.ends(
                        Place { context: inner, block: dest },
                    ),
                    _ => true,
                };
            let arm = |info: TerminatorInfo|
                match info {
                    TerminatorInfo::Continue => seq![Step::Continue],
                    TerminatorInfo::Break => seq![Step::Break],
                    TerminatorInfo::FallThrough(dest) => if merge == Some(dest) {
                        Seq::<Step>::empty()
                    } else {
                        flow.steps_at(Place { context: inner, block: dest })
                    },
                    _ => Seq::<Step>::empty(),
                };
            &&& flow.if_ends(context, then, else_, merge) <==> {
                &&& arm_ends(then)
                &&& arm_ends(else_)
                &&& merge matches Some(m) ==> flow.ends(Place { context, block: m })
            }
            &&& flow.if_steps(context, cond, then, else_, merge) == seq![
                Step::If { cond, then: arm(then), else_: arm(else_) },
            ] + match merge {
                Some(m) => flow.steps_at(Place { context, block: m }),
                None => Seq::<Step>::empty(),
            }
        }),
{
}

/// A place is visited right after another just if the listing of the other is
/// made of it: the body of a loop and what comes after the loop, where control
/// goes from a block, and where branches meet.
pub proof fn law_visited_next(flow: FunctionFlow, place: Place, next: Place)
    requires
        flow.visits(place, next),
    ensures
        flow.opened_loop(place.context, place.block) matches Some(lp) ==> {
            ||| next == (Place {
                context: Context {
                    merge: None,
                    header: Some(place.block),
                    enclosing: Some(
                        EnclosingLoop { lp, header: place.block, exit: flow.loop_exit(lp) },
                    ),
                },
                block: place.block,
            })
            ||| next.context == place.context && flow.loop_exit(lp) == Some(next.block)
        },
        flow.opened_loop(place.context, place.block) is None ==> {
            let insts = flow.body.order.blocks@[place.block.0 as int]@;
            match flow.body.store.insts@[insts[insts.len() - 1].0 as int] {
                InstKind::Jump { dest } => next.block == dest && next.context == place.context,
                InstKind::Branch { cond, then, else_ } => {
                    ||| next.block == then || next.block == else_
                    ||| flow.merge_of(place.context, place.block) == Some(next.block)
                },
                _ => false,
            }
        },
{
    lemma_four_ways(flow, place, next);
}

/// Where the listing of a place goes on, that is visited next: from the header of
/// a loop its body, and its exit unless the branches around meet there.
pub proof fn law_visits_loop(flow: FunctionFlow, place: Place, lp: LoopId)
    requires
        flow.opened_loop(place.context, place.block) == Some(lp),
        flow.exit_determined(lp),
    ensures
        flow.visits(
            place,
            Place {
                context: Context {
                    merge: None,
                    header: Some(place.block),
                    enclosing: Some(
                        EnclosingLoop { lp, header: place.block, exit: flow.loop_exit(lp) },
                    ),
                },
                block: place.block,
            },
        ),
        flow.loop_exit(lp) matches Some(exit) ==> place.context.merge == Some(exit)
            || flow.visits(place, Place { context: place.context, block: exit }),
{
    lemma_visits_loop(flow, place, lp);
}

/// From a jump its destination is visited next in the same place, if it is not
/// the header or exit of the innermost loop, nor where the branches around meet.
pub proof fn law_visits_jump(flow: FunctionFlow, place: Place, last: InstId, dest: BasicBlockId)
    requires
        flow.opened_loop(place.context, place.block) is None,
        place.block.0 < flow.body.order.blocks@.len(),
        flow.body.order.blocks@[place.block.0 as int]@.len() > 0,
        flow.body.order.blocks@[place.block.0 as int]@.last() == last,
        flow.body.store.insts@[last.0 as int] == (InstKind::Jump { dest }),
        place.context.merge != Some(dest),
        place.context.enclosing matches Some(l) ==> l.header != dest && l.exit != Some(dest),
    ensures
        flow.visits(place, Place { context: place.context, block: dest }),
{
    let places = flow.next_places(place)->0;
    assert(places[0] == (Place { context: place.context, block: dest }));
}

/// From a branch either destination is visited next inside of the conditional, if
/// it is not the header or exit of the innermost loop, nor where the branches
/// around meet, nor where its own do; and where its own meet is visited in the
/// same place.
pub proof fn law_visits_branch(
    flow: FunctionFlow,
    place: Place,
    last: InstId,
    cond: ValueId,
    then: BasicBlockId,
    else_: BasicBlockId,
    dest: BasicBlockId,
)
    requires
        flow.opened_loop(place.context, place.block) is None,
        place.block.0 < flow.body.order.blocks@.len(),
        flow.body.order.blocks@[place.block.0 as int]@.len() > 0,
        flow.body.order.blocks@[place.block.0 as int]@.last() == last,
        flow.body.store.insts@[last.0 as int] == (InstKind::Branch { cond, then, else_ }),
        place.block.0 < flow.pd_tree.post_idoms@.len(),
        dest == then || dest == else_,
    ensures
        ({
            let context = place.context;
            let merge = flow.merge_of(context, place.block);
            &&& context.merge != Some(dest) && merge != Some(dest) && (
            context.enclosing matches Some(l) ==> l.header != dest && l.exit != Some(dest))
                ==> flow.visits(
                place,
                Place {
                    context: Context { merge, header: None, enclosing: context.enclosing },
                    block: dest,
                },
            )
            &&& merge matches Some(m) ==> flow.visits(place, Place { context, block: m })
        }),
{
    let context = place.context;
    let merge = flow.merge_of(context, place.block);
    let inner = context.in_if(merge);
    lemma_visits_branch(flow, place, cond, then, else_);
    let info = dest_info(context, dest);
    if info is FallThrough && merge != Some(dest) {
        assert(dest_places(inner, info, merge)[0] == (Place { context: inner, block: dest }));
    }
}

} // verus!
