//! When a search ends: once its simulations or its time are used up, or once no sample is worth
//! its cost any more, and at no other time of its own accord.

use crate::arith::{evaluates, Arithmetic};
use crate::double::{greatest_above, Double};
use crate::live::{Action, Phase, SearchRun};
use crate::search::{simulated, SearchCfg};
use crate::select::are_vocs;
use crate::snapshot::is_max_voc;
use crate::span::Span;
use crate::tree::Node;
use rand::rngs::SmallRng;
use vstd::prelude::*;

verus! {

/// The simulations of a search are used up, or its time: what passed since it started, less what
/// went to the keyboard and the screen.
pub open spec fn used_up(run: SearchRun, wall: Span) -> bool {
    ||| run.active.simulation_limit matches Some(limit) && run.sims_done >= limit.size()
    ||| run.active.time_limit matches Some(limit) && (limit.nanos == 0 || wall.nanos >= run.excluded.nanos
        + limit.nanos)
}

/// `cost` is the least value that is worth a sample, in the units of the returns: the cost in
/// score units times the scale.
pub open spec fn is_cost<K: Arithmetic>(k: &K, cfg: SearchCfg, run: SearchRun, cost: Double) -> bool {
    run.active.min_voc matches Some(min) && call_ensures(
        K::times,
        (k, min, cfg.reward_transform.scale),
        cost,
    )
}

/// The moves of a node can be compared: there is one at most, or each has three samples.
pub open spec fn comparable_moves(root: Node) -> bool {
    root.edges@.len() <= 1 || forall|i: int|
        0 <= i < root.edges@.len() ==> (#[trigger] root.edges@[i]).stats.n >= 3
}

/// `v` is the value of one more sample of a move, out of those of all moves; a lone move has none
/// to offer.
pub open spec fn on_offer<K: Arithmetic>(k: &K, root: Node, vocs: Seq<Double>, v: Double) -> bool {
    root.edges@.len() > 1 && are_vocs(k, root.edges@, vocs) && vocs.contains(v)
}

/// The greatest of the numbers and zero: a number that is zero or one of them, and no number among
/// them is greater.
pub proof fn lemma_greatest_above(floor: Double, xs: Seq<Double>)
    requires
        !floor.nan(),
    ensures
        !greatest_above(floor, xs).nan(),
        !greatest_above(floor, xs).below(floor),
        forall|i: int| 0 <= i < xs.len() ==> !greatest_above(floor, xs).below(#[trigger] xs[i]),
        greatest_above(floor, xs) == floor || xs.contains(greatest_above(floor, xs)),
    decreases xs.len(),
{
    if xs.len() > 0 {
        let rest = xs.drop_last();
        lemma_greatest_above(floor, rest);
        let g = greatest_above(floor, xs);
        assert forall|i: int| 0 <= i < xs.len() implies !g.below(#[trigger] xs[i]) by {
            if i < rest.len() {
                assert(!greatest_above(floor, rest).below(rest[i]));
            }
        }
        if g == xs.last() {
            assert(xs[xs.len() - 1] == g);
        } else if rest.contains(g) {
            let i = choose|i: int| 0 <= i < rest.len() && rest[i] == g;
            assert(xs[i] == g);
        }
    }
}

/// What the greatest value on offer is held against the cost for.
proof fn lemma_greatest_on_offer<K: Arithmetic>(k: &K, root: Node, max: Double, cost: Double)
    requires
        is_max_voc(k, root, max),
        comparable_moves(root),
    ensures
        !max.nan(),
        max.at_most(cost) ==> Double::zero().at_most(cost) && (root.edges@.len() > 1 ==> exists|
            vocs: Seq<Double>,
        | #[trigger]
            are_vocs(k, root.edges@, vocs) && forall|i: int|
                0 <= i < vocs.len() ==> !cost.below(#[trigger] vocs[i])),
        !max.at_most(cost) ==> cost.nan() || cost.below(Double::zero()) || exists|
            vocs: Seq<Double>,
            v: Double,
        | #[trigger] on_offer(k, root, vocs, v) && cost.below(v),
{
    if root.edges@.len() > 1 {
        let vocs = choose|vocs: Seq<Double>|
            #[trigger] are_vocs(k, root.edges@, vocs) && max == greatest_above(Double::zero(), vocs);
        lemma_greatest_above(Double::zero(), vocs);
        if max.at_most(cost) {
            assert forall|i: int| 0 <= i < vocs.len() implies !cost.below(#[trigger] vocs[i]) by {
                assert(!max.below(vocs[i]));
            }
        } else if vocs.contains(max) {
            assert(on_offer(k, root, vocs, max));
        }
    }
}

/// What a search does at a look at its limits: it ends where its simulations or its time are used
/// up, and where the moves can be compared and the greatest value of another sample is at most
/// its cost; else it simulates once more.
proof fn lemma_look<K: Arithmetic>(
    k: &K,
    cfg: SearchCfg,
    before: SearchRun,
    wall: Span,
    action: Action,
    after: SearchRun,
    start: SmallRng,
    end: SmallRng,
)
    requires
        before.phase == Phase::Limits,
        before.stepped(k, cfg, wall, action, after, start, end),
    ensures
        used_up(before, wall) ==> action == Action::Finish && after.stopped_by_voc
            == before.stopped_by_voc && after.session == before.session,
        action == Action::Finish ==> after.phase == Phase::Ended && after.root == before.root
            && after.sims_done == before.sims_done && end == start,
        action != Action::Finish ==> action == Action::Again && after.phase == Phase::Frames
            && after.sims_done == (before.sims_done + 1) as u32 && after.stopped_by_voc
            == before.stopped_by_voc && exists|total: u64| #[trigger]
            simulated(k, cfg, before.root, after.root, total, start, end),
        !used_up(before, wall) && action == Action::Finish ==> before.active.min_voc is Some
            && comparable_moves(before.root) && after.stopped_by_voc && exists|max: Double, cost: Double|
            #[trigger] is_max_voc(k, before.root, max) && #[trigger] is_cost(k, cfg, before, cost)
                && max.at_most(cost),
        !used_up(before, wall) && action != Action::Finish && before.active.min_voc is Some
            && comparable_moves(before.root) ==> exists|max: Double, cost: Double|
            #[trigger] is_max_voc(k, before.root, max) && #[trigger] is_cost(k, cfg, before, cost)
                && !max.at_most(cost),
{
    assert(used_up(before, wall) == before.exhausted(wall));
    let (stop, mid) = choose|stop: bool, mid: SearchRun|
        {
            &&& #[trigger] before.decides(k, cfg, wall, stop, mid)
            &&& if stop {
                &&& action == Action::Finish
                &&& after == (SearchRun { phase: Phase::Ended, ..mid })
                &&& end == start
            } else {
                &&& action == Action::Again
                &&& after == (SearchRun {
                    phase: Phase::Frames,
                    root: after.root,
                    sims_done: (before.sims_done + 1) as u32,
                    ..before
                })
                &&& exists|total: u64| #[trigger]
                    simulated(k, cfg, before.root, after.root, total, start, end)
            }
        };
    if !used_up(before, wall) && before.active.min_voc is Some && comparable_moves(before.root) {
        let (max, cost) = choose|max: Double, cost: Double|
            #[trigger] before.voc_against(k, cfg, max, cost) && stop == max.at_most(cost);
        assert(is_cost(k, cfg, before, cost)) by {
            reveal_with_fuel(evaluates, 2);
        }
        assert(is_max_voc(k, before.root, max));
    }
}

/// A search that ends though neither its simulations nor its time are used up has a cost, and no
/// sample is worth it: every move has three samples, unless there is but one, and the value of
/// one more sample of any of them is at most the cost, as is zero. It says that it ended for want
/// of value.
pub proof fn law_stopped_searches_have_no_value_left<K: Arithmetic>(
    k: &K,
    cfg: SearchCfg,
    before: SearchRun,
    wall: Span,
    action: Action,
    after: SearchRun,
    start: SmallRng,
    end: SmallRng,
)
    requires
        before.phase == Phase::Limits,
        before.stepped(k, cfg, wall, action, after, start, end),
        action == Action::Finish,
        !used_up(before, wall),
    ensures
        after.stopped_by_voc,
        comparable_moves(before.root),
        exists|cost: Double|
            {
                &&& #[trigger] is_cost(k, cfg, before, cost)
                &&& Double::zero().at_most(cost)
                &&& before.root.edges@.len() > 1 ==> exists|vocs: Seq<Double>| #[trigger]
                    are_vocs(k, before.root.edges@, vocs) && forall|i: int|
                        0 <= i < vocs.len() ==> !cost.below(#[trigger] vocs[i])
            },
{
    lemma_look(k, cfg, before, wall, action, after, start, end);
    let (max, cost) = choose|max: Double, cost: Double|
        #[trigger] is_max_voc(k, before.root, max) && #[trigger] is_cost(k, cfg, before, cost)
            && max.at_most(cost);
    lemma_greatest_on_offer(k, before.root, max, cost);
}

/// A search simulates once more where its simulations and its time are not used up and a sample is
/// still worth its cost: where it has no cost, where some move has fewer than three samples, or
/// where one more sample of some move is worth more than the cost. It takes in the simulation and
/// says nothing of a want of value.
pub proof fn law_worthwhile_searches_go_on<K: Arithmetic>(
    k: &K,
    cfg: SearchCfg,
    before: SearchRun,
    wall: Span,
    action: Action,
    after: SearchRun,
    start: SmallRng,
    end: SmallRng,
)
    requires
        before.phase == Phase::Limits,
        before.stepped(k, cfg, wall, action, after, start, end),
        !used_up(before, wall),
        before.active.min_voc is Some && comparable_moves(before.root) ==> before.root.edges@.len() > 1
            && forall|vocs: Seq<Double>, cost: Double| #[trigger]
            are_vocs(k, before.root.edges@, vocs) && #[trigger] is_cost(k, cfg, before, cost)
                ==> exists|i: int| 0 <= i < vocs.len() && cost.below(#[trigger] vocs[i]),
    ensures
        action == Action::Again,
        after.sims_done == (before.sims_done + 1) as u32,
        after.stopped_by_voc == before.stopped_by_voc,
        exists|total: u64| #[trigger]
            simulated(k, cfg, before.root, after.root, total, start, end),
{
    lemma_look(k, cfg, before, wall, action, after, start, end);
    if action == Action::Finish {
        let (max, cost) = choose|max: Double, cost: Double|
            #[trigger] is_max_voc(k, before.root, max) && #[trigger] is_cost(k, cfg, before, cost)
                && max.at_most(cost);
        lemma_greatest_on_offer(k, before.root, max, cost);
        let vocs = choose|vocs: Seq<Double>| #[trigger]
            are_vocs(k, before.root.edges@, vocs) && forall|i: int|
                0 <= i < vocs.len() ==> !cost.below(#[trigger] vocs[i]);
    }
}

/// A search that goes on though it has a cost and its moves can be compared has a move of which
/// one more sample is worth more than the cost, or its cost is negative or no number; and one
/// whose simulations or time are used up ends, and does not say that it ended for want of value.
pub proof fn law_going_on_is_worth_it<K: Arithmetic>(
    k: &K,
    cfg: SearchCfg,
    before: SearchRun,
    wall: Span,
    action: Action,
    after: SearchRun,
    start: SmallRng,
    end: SmallRng,
)
    requires
        before.phase == Phase::Limits,
        before.stepped(k, cfg, wall, action, after, start, end),
    ensures
        used_up(before, wall) ==> action == Action::Finish && after.stopped_by_voc
            == before.stopped_by_voc,
        action != Action::Finish && before.active.min_voc is Some && comparable_moves(before.root)
            ==> exists|cost: Double|
            {
                &&& #[trigger] is_cost(k, cfg, before, cost)
                &&& cost.nan() || cost.below(Double::zero()) || exists|vocs: Seq<Double>, v: Double|
                    #[trigger] on_offer(k, before.root, vocs, v) && cost.below(v)
            },
{
    lemma_look(k, cfg, before, wall, action, after, start, end);
    if action != Action::Finish && before.active.min_voc is Some && comparable_moves(before.root) {
        let (max, cost) = choose|max: Double, cost: Double|
            #[trigger] is_max_voc(k, before.root, max) && #[trigger] is_cost(k, cfg, before, cost)
                && !max.at_most(cost);
        lemma_greatest_on_offer(k, before.root, max, cost);
    }
}

/// Only a look at the limits ends a search for want of value, and only one that ends it: whatever
/// else is done, what was said of it stays.
pub proof fn law_only_the_verdict_speaks_of_value<K: Arithmetic>(
    k: &K,
    cfg: SearchCfg,
    before: SearchRun,
    wall: Span,
    action: Action,
    after: SearchRun,
    start: SmallRng,
    end: SmallRng,
)
    requires
        before.stepped(k, cfg, wall, action, after, start, end),
        after.stopped_by_voc != before.stopped_by_voc,
    ensures
        before.phase == Phase::Limits,
        action == Action::Finish,
        after.phase == Phase::Ended,
        after.stopped_by_voc,
        !used_up(before, wall),
        after.root == before.root,
        end == start,
{
    if before.phase == Phase::Limits {
        lemma_look(k, cfg, before, wall, action, after, start, end);
    }
}

} // verus!
