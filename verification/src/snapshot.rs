//! What a search shows of its root: the state of each action and of the whole.

use crate::arith::{count, evaluates, num, Arithmetic, Formula, Term};
use crate::board::{Board, Dir};
use crate::double::{
    greatest, greatest_above, greatest_above_of, greatest_of, greatest_other, greatest_other_than,
    index_of_last_greatest, index_of_runner_up, last_greatest, runner_up, Double,
};
use crate::estimate::{is_deviation, is_voc_and_switch, one_step_voc_and_switch};
use crate::search::{best_move, is_best_move};
use crate::select::{all_sampled, are_vocs, exact_vocs};
use crate::tree::{edge_means, means, sampled_at_least, samples, Edge, Node};
use vstd::prelude::*;

verus! {

/// `r` is the greatest value of one more sample among the moves. With one move at most
/// there is nothing to decide, and with fewer than three samples of some move the value
/// has no bound.
pub open spec fn is_max_voc<K: Arithmetic>(k: &K, node: Node, r: Double) -> bool {
    if node.edges@.len() <= 1 {
        r == Double::zero()
    } else if !sampled_at_least(node.edges@, 3) {
        r == Double::infinity()
    } else {
        exists|vocs: Seq<Double>|
            #[trigger] are_vocs(k, node.edges@, vocs) && r == greatest_above(Double::zero(), vocs)
    }
}

/// The greatest value of one more sample among the moves of a node.
pub fn max_exact_voc<K: Arithmetic>(node: &Node, k: &K) -> (r: Double)
    ensures
        is_max_voc(k, *node, r),
{
    if node.edges.len() <= 1 {
        return Double::zero();
    }
    if !all_sampled(&node.edges, 3) {
        return Double::infinity();
    }
    let vocs = exact_vocs(&node.edges, k);
    greatest_above_of(Double::zero(), &vocs)
}

/// The state of one action at the root.
#[derive(Clone, Copy, Debug)]
pub struct RootActionSnapshot {
    pub dir: Dir,
    pub moved: Board,
    pub samples: u32,
    pub share: Double,
    pub mean: Double,
    pub sd: Double,
    pub gap_to_best: Double,
    pub voc: Double,
    pub switch_prob: Double,
}

/// The state of the root.
#[derive(Clone, Debug)]
pub struct RootSnapshot {
    pub actions: Vec<RootActionSnapshot>,
    pub total_samples: u32,
    pub best_dir: Dir,
    pub top_mean_gap: Double,
    pub allocation_entropy: Double,
}

/// `share` is the part of the samples that an action got, zero before the first one.
pub open spec fn is_share<K: Arithmetic>(k: &K, n: u32, total: u32, share: Double) -> bool {
    if total > 0 {
        evaluates(k, count(n as u64).over(count(total as u64)), share)
    } else {
        share == Double::zero()
    }
}

/// `a` is the state of the move number `i`.
pub open spec fn is_action<K: Arithmetic>(k: &K, root: Node, total: u32, i: int, a: RootActionSnapshot) -> bool {
    let e = root.edges@[i];
    let ms = means(root.edges@);
    &&& a.dir == e.dir
    &&& a.moved == e.moved
    &&& a.samples == e.stats.n
    &&& is_share(k, e.stats.n, total, a.share)
    &&& a.mean == e.stats.mean
    &&& is_deviation(k, e.stats, a.sd)
    &&& evaluates(k, num(e.stats.mean).minus(num(greatest(ms))), a.gap_to_best)
    &&& if root.edges@.len() > 1 {
        is_voc_and_switch(k, e.stats, greatest_other(ms, i), a.voc, a.switch_prob)
    } else {
        a.voc == Double::zero() && a.switch_prob == Double::zero()
    }
}

/// `gap` is the distance of the two greatest means, zero where there is only one.
pub open spec fn is_top_gap<K: Arithmetic>(k: &K, ms: Seq<Double>, gap: Double) -> bool {
    if ms.len() < 2 {
        gap == Double::zero()
    } else {
        exists|i: int, j: int|
            {
                &&& #[trigger] last_greatest(ms, i)
                &&& #[trigger] runner_up(ms, i, j)
                &&& evaluates(k, num(ms[i]).minus(num(ms[j])), gap)
            }
    }
}

/// The shares of the actions.
pub open spec fn shares(actions: Seq<RootActionSnapshot>) -> Seq<Double> {
    Seq::new(actions.len(), |i: int| actions[i].share)
}

/// The shares that are positive, in order.
pub open spec fn positive(xs: Seq<Double>) -> Seq<Double> {
    xs.filter(|x: Double| Double::zero().below(x))
}

/// The entropy of shares, the sum of `-p ln(p)` over them.
pub open spec fn entropy_of(xs: Seq<Double>) -> Formula
    decreases xs.len(),
{
    if xs.len() == 0 {
        num(Double::neg_zero())
    } else {
        entropy_of(xs.drop_last()).plus(num(xs.last().negated()).times(num(xs.last()).log()))
    }
}

/// `h` is the entropy of the shares relative to that of equal ones, zero where nothing
/// was sampled or there is one action only.
pub open spec fn is_entropy<K: Arithmetic>(k: &K, total: u32, xs: Seq<Double>, h: Double) -> bool {
    if total > 0 && xs.len() > 1 {
        evaluates(k, entropy_of(positive(xs)).over(count(xs.len() as u64).log()), h)
    } else {
        h == Double::zero()
    }
}

/// `s` is the state of the root.
pub open spec fn is_snapshot<K: Arithmetic>(k: &K, root: Node, s: RootSnapshot) -> bool {
    &&& s.actions@.len() == root.edges@.len()
    &&& forall|i: int|
        0 <= i < s.actions@.len() ==> is_action(k, root, s.total_samples, i, #[trigger] s.actions@[i])
    &&& s.total_samples == samples(root.edges@)
    &&& is_best_move(root, s.best_dir)
    &&& is_top_gap(k, means(root.edges@), s.top_mean_gap)
    &&& is_entropy(k, s.total_samples, shares(s.actions@), s.allocation_entropy)
}

fn count_samples(edges: &Vec<Edge>) -> (r: u32)
    requires
        samples(edges@) <= u32::MAX,
    ensures
        r == samples(edges@),
{
    let mut total: u32 = 0;
    for i in 0..edges.len()
        invariant
            samples(edges@) <= u32::MAX,
            total == samples(edges@.take(i as int)),
    {
        proof {
            assert(edges@.take(i + 1).drop_last() =~= edges@.take(i as int));
            lemma_samples_prefix(edges@, i + 1);
        }
        total = total + edges[i].stats.n;
    }
    assert(edges@.take(edges@.len() as int) =~= edges@);
    total
}

proof fn lemma_samples_prefix(edges: Seq<Edge>, n: int)
    requires
        0 <= n <= edges.len(),
    ensures
        samples(edges.take(n)) <= samples(edges),
    decreases edges.len() - n,
{
    if n < edges.len() {
        assert(edges.take(n + 1).drop_last() =~= edges.take(n));
        lemma_samples_prefix(edges, n + 1);
    } else {
        assert(edges.take(n) =~= edges);
    }
}

fn top_gap<K: Arithmetic>(ms: &Vec<Double>, k: &K) -> (r: Double)
    ensures
        is_top_gap(k, ms@, r),
{
    if ms.len() < 2 {
        return Double::zero();
    }
    let i = index_of_last_greatest(ms);
    let j = index_of_runner_up(ms, i);
    assert(last_greatest(ms@, i as int) && runner_up(ms@, i as int, j as int));
    Term::num(k, ms[i]).minus(k, Term::num(k, ms[j])).value
}

fn entropy<K: Arithmetic>(total: u32, actions: &Vec<RootActionSnapshot>, k: &K) -> (r: Double)
    ensures
        is_entropy(k, total, shares(actions@), r),
{
    if total == 0 || actions.len() <= 1 {
        return Double::zero();
    }
    let ghost xs = shares(actions@);
    let mut sum = Term::num(k, Double::neg_zero());
    proof {
        reveal(Seq::filter);
        assert(positive(xs.take(0)) =~= seq![]);
    }
    for i in 0..actions.len()
        invariant
            xs == shares(actions@),
            sum.holds(k),
            sum.formula@ == entropy_of(positive(xs.take(i as int))),
    {
        let share = actions[i].share;
        proof {
            reveal(Seq::filter);
            assert(xs.take(i + 1).drop_last() =~= xs.take(i as int));
            assert(xs.take(i + 1).last() == share);
        }
        if Double::zero().lt(share) {
            let term = Term::num(k, share.neg()).times(k, Term::num(k, share).log(k));
            sum = sum.plus(k, term);
            proof {
                let more = positive(xs.take(i + 1));
                assert(more.drop_last() =~= positive(xs.take(i as int)));
                assert(more.last() == share);
            }
        }
    }
    assert(xs.take(xs.len() as int) =~= xs);
    sum.over(k, Term::count(k, actions.len() as u64).log(k)).value
}

/// The state of the root of a search.
pub fn snapshot_root<K: Arithmetic>(root: &Node, k: &K) -> (r: RootSnapshot)
    requires
        root.edges@.len() > 0,
        samples(root.edges@) <= u32::MAX,
    ensures
        is_snapshot(k, *root, r),
{
    let ms = edge_means(&root.edges);
    let best_mean = greatest_of(&ms);
    let total = count_samples(&root.edges);
    let mut actions: Vec<RootActionSnapshot> = Vec::new();
    for i in 0..root.edges.len()
        invariant
            ms@ == means(root.edges@),
            best_mean == greatest(ms@),
            actions@.len() == i,
            forall|j: int| 0 <= j < i ==> is_action(k, *root, total, j, #[trigger] actions@[j]),
    {
        let s = root.edges[i].stats;
        let (voc, switch_prob) = if root.edges.len() > 1 {
            let other = greatest_other_than(&ms, i);
            one_step_voc_and_switch(k, s, other)
        } else {
            (Double::zero(), Double::zero())
        };
        let share = if total > 0 {
            Term::count(k, s.n as u64).over(k, Term::count(k, total as u64)).value
        } else {
            Double::zero()
        };
        let sd = s.sd(k);
        let gap_to_best = Term::num(k, s.mean).minus(k, Term::num(k, best_mean)).value;
        actions.push(
            RootActionSnapshot {
                dir: root.edges[i].dir,
                moved: root.edges[i].moved,
                samples: s.n,
                share,
                mean: s.mean,
                sd,
                gap_to_best,
                voc,
                switch_prob,
            },
        );
    }
    let best_dir = best_move(root);
    let top_mean_gap = top_gap(&ms, k);
    let allocation_entropy = entropy(total, &actions, k);
    RootSnapshot { actions, total_samples: total, best_dir, top_mean_gap, allocation_entropy }
}

impl RootSnapshot {
    /// The place of the first action in a direction, or the number of actions.
    pub open spec fn place(self, dir: Dir) -> int {
        first_place(self.actions@, dir)
    }

    /// The place of the first action in a direction, or the number of actions.
    pub fn find(&self, dir: Dir) -> (r: usize)
        ensures
            r == self.place(dir),
            r <= self.actions@.len(),
    {
        for i in 0..self.actions.len()
            invariant
                forall|j: int| 0 <= j < i ==> (#[trigger] self.actions@[j]).dir != dir,
        {
            if self.actions[i].dir == dir {
                proof {
                    lemma_first_place(self.actions@, dir, i as int);
                }
                return i;
            }
        }
        proof {
            lemma_first_place(self.actions@, dir, self.actions@.len() as int);
        }
        self.actions.len()
    }

    /// The state of the action in a direction, or nothing where it is not legal.
    pub fn action(&self, dir: Dir) -> (r: Option<RootActionSnapshot>)
        ensures
            match r {
                Some(a) => self.place(dir) < self.actions@.len() && a == self.actions@[self.place(dir)],
                None => self.place(dir) == self.actions@.len(),
            },
    {
        let i = self.find(dir);
        if i < self.actions.len() {
            Some(self.actions[i])
        } else {
            None
        }
    }

    /// The state of the best action.
    pub fn best_action(&self) -> (r: RootActionSnapshot)
        requires
            self.place(self.best_dir) < self.actions@.len(),
        ensures
            r == self.actions@[self.place(self.best_dir)],
            r.dir == self.best_dir,
    {
        proof {
            lemma_place_is_found(self.actions@, self.best_dir);
        }
        self.actions[self.find(self.best_dir)]
    }

    /// The greatest value of one more sample among the actions, at least zero.
    pub fn max_voc(&self) -> (r: Double)
        ensures
            r == greatest_above(
                Double::zero(),
                Seq::new(self.actions@.len(), |i: int| self.actions@[i].voc),
            ),
    {
        let mut vocs: Vec<Double> = Vec::new();
        for i in 0..self.actions.len()
            invariant
                vocs@.len() == i,
                forall|j: int| 0 <= j < i ==> #[trigger] vocs@[j] == self.actions@[j].voc,
        {
            vocs.push(self.actions[i].voc);
        }
        assert(vocs@ =~= Seq::new(self.actions@.len(), |i: int| self.actions@[i].voc));
        greatest_above_of(Double::zero(), &vocs)
    }
}

/// The place of the first action in a direction, or the number of actions.
pub open spec fn first_place(actions: Seq<RootActionSnapshot>, dir: Dir) -> int
    decreases actions.len(),
{
    if actions.len() == 0 {
        0
    } else if actions[0].dir == dir {
        0
    } else {
        1 + first_place(actions.skip(1), dir)
    }
}

proof fn lemma_first_place(actions: Seq<RootActionSnapshot>, dir: Dir, i: int)
    requires
        0 <= i <= actions.len(),
        i < actions.len() ==> actions[i].dir == dir,
        forall|j: int| 0 <= j < i ==> (#[trigger] actions[j]).dir != dir,
    ensures
        first_place(actions, dir) == i,
    decreases actions.len(),
{
    if i > 0 {
        assert(actions[0].dir != dir);
        assert forall|j: int| 0 <= j < i - 1 implies (#[trigger] actions.skip(1)[j]).dir != dir by {
            assert(actions[j + 1].dir != dir);
        }
        lemma_first_place(actions.skip(1), dir, i - 1);
    }
}

proof fn lemma_place_is_found(actions: Seq<RootActionSnapshot>, dir: Dir)
    ensures
        0 <= first_place(actions, dir) <= actions.len(),
        first_place(actions, dir) < actions.len() ==> actions[first_place(actions, dir)].dir == dir,
        (exists|i: int| 0 <= i < actions.len() && (#[trigger] actions[i]).dir == dir) ==> first_place(
            actions,
            dir,
        ) < actions.len(),
    decreases actions.len(),
{
    if actions.len() > 0 && actions[0].dir != dir {
        let rest = actions.skip(1);
        lemma_place_is_found(rest, dir);
        if exists|i: int| 0 <= i < actions.len() && (#[trigger] actions[i]).dir == dir {
            let i = choose|i: int| 0 <= i < actions.len() && (#[trigger] actions[i]).dir == dir;
            assert(rest[i - 1].dir == dir);
        }
    }
}

/// The best move of a snapshot is one of its actions.
pub proof fn law_best_action_is_legal<K: Arithmetic>(k: &K, root: Node, s: RootSnapshot)
    requires
        is_snapshot(k, root, s),
    ensures
        s.place(s.best_dir) < s.actions@.len(),
{
    let i = choose|i: int|
        #[trigger] last_greatest(means(root.edges@), i) && root.edges@[i].dir == s.best_dir;
    assert(is_action(k, root, s.total_samples, i, s.actions@[i]));
    assert(s.actions@[i].dir == s.best_dir);
    lemma_place_is_found(s.actions@, s.best_dir);
}

/// With a single legal action another sample has no value, whatever was sampled: it
/// cannot change the move that will be played.
pub proof fn law_single_action_has_no_voc<K: Arithmetic>(k: &K, root: Node, s: RootSnapshot, r: Double)
    requires
        is_snapshot(k, root, s),
        is_max_voc(k, root, r),
        root.edges@.len() == 1,
    ensures
        r == Double::zero(),
        s.actions@[0].voc == Double::zero(),
        s.actions@[0].switch_prob == Double::zero(),
{
    assert(is_action(k, root, s.total_samples, 0, s.actions@[0]));
}

} // verus!
