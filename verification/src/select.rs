//! Which move of a node to sample next.

use crate::arith::{count, evaluates, num, Arithmetic, Formula, Term};
use crate::double::{
    first_greatest, greatest, greatest_of, greatest_other, greatest_other_than,
    index_of_first_greatest, law_greatest_bounds, least, least_of, Double,
};
use crate::estimate::{
    certain, exact_voc, is_mean_draw, is_return_draw, is_voc, mean_with, Stats,
};
use crate::policy::Policy;
use crate::random::{draw_below, draws_below};
use crate::tree::{edge_means, means, sampled_at_least, Edge, Node};
use rand::rngs::SmallRng;
use vstd::prelude::*;

verus! {

/// `r` is the first of the moves with the fewest samples.
pub open spec fn is_least_sampled(edges: Seq<Edge>, r: int) -> bool {
    &&& 0 <= r < edges.len()
    &&& forall|i: int| 0 <= i < edges.len() ==> edges[r].stats.n <= (#[trigger] edges[i]).stats.n
    &&& forall|i: int| 0 <= i < r ==> edges[r].stats.n < (#[trigger] edges[i]).stats.n
}

/// The smallest returns sampled for the moves.
pub open spec fn minima(edges: Seq<Edge>) -> Seq<Double> {
    Seq::new(edges.len(), |i: int| edges[i].stats.min)
}

/// The largest returns sampled for the moves.
pub open spec fn maxima(edges: Seq<Edge>) -> Seq<Double> {
    Seq::new(edges.len(), |i: int| edges[i].stats.max)
}

/// The place of a mean in a range of returns: `(mean - low) / range`.
pub open spec fn level(mean: Double, low: Double, range: Double) -> Formula {
    num(mean).minus(num(low)).over(num(range))
}

/// `q` is the place of a mean in the range of the returns seen at the node, one half
/// where the range is a point.
pub open spec fn is_level<K: Arithmetic>(k: &K, s: Stats, low: Double, range: Double, q: Double) -> bool {
    if Double::zero().below(range) {
        evaluates(k, level(s.mean, low, range), q)
    } else {
        q == Double::half()
    }
}

/// The visits of a node, counting a node never visited as visited once.
pub open spec fn at_least_one(visits: u32) -> u32 {
    if visits == 0 {
        1
    } else {
        visits
    }
}

/// The bonus of a move with `n` of the `visits` samples: `sqrt(2 ln(visits) / n)`.
pub open spec fn bonus(visits: u32, n: u32) -> Formula {
    num(Double::two()).times(count(visits as u64).log()).over(count(n as u64)).root()
}

/// `score` is the upper confidence bound of a move: its level and its bonus.
pub open spec fn is_uct_score<K: Arithmetic>(
    k: &K,
    visits: u32,
    s: Stats,
    low: Double,
    range: Double,
    score: Double,
) -> bool {
    exists|q: Double|
        #[trigger] is_level(k, s, low, range, q) && evaluates(
            k,
            num(q).plus(bonus(at_least_one(visits), s.n)),
            score,
        )
}

/// `scores` are the upper confidence bounds of the moves.
pub open spec fn are_uct_scores<K: Arithmetic>(k: &K, node: Node, scores: Seq<Double>) -> bool {
    let low = least(minima(node.edges@));
    let high = greatest(maxima(node.edges@));
    exists|range: Double|
        {
            &&& #[trigger] evaluates(k, num(high).minus(num(low)), range)
            &&& scores.len() == node.edges@.len()
            &&& forall|i: int|
                0 <= i < scores.len() ==> is_uct_score(
                    k,
                    node.visits,
                    node.edges@[i].stats,
                    low,
                    range,
                    #[trigger] scores[i],
                )
        }
}

/// `xs` are draws from the posteriors of the means of the first `n` moves, made one after
/// the other.
pub open spec fn are_mean_draws<K: Arithmetic>(
    k: &K,
    edges: Seq<Edge>,
    n: nat,
    before: SmallRng,
    xs: Seq<Double>,
    after: SmallRng,
) -> bool
    decreases n,
{
    &&& xs.len() == n
    &&& if n == 0 {
        after == before
    } else {
        exists|middle: SmallRng|
            are_mean_draws(k, edges, (n - 1) as nat, before, xs.drop_last(), middle)
                && #[trigger] is_mean_draw(k, edges[n - 1].stats, middle, xs.last(), after)
    }
}

/// `scores` are the values of one more sample of each move against the best of the
/// others.
pub open spec fn are_vocs<K: Arithmetic>(k: &K, edges: Seq<Edge>, scores: Seq<Double>) -> bool {
    &&& scores.len() == edges.len()
    &&& forall|i: int|
        0 <= i < scores.len() ==> is_voc(
            k,
            edges[i].stats,
            greatest_other(means(edges), i),
            #[trigger] scores[i],
        )
}

/// One draw of the estimate adds the better of the competitor and the updated mean.
pub open spec fn adds_best_after<K: Arithmetic>(
    k: &K,
    s: Stats,
    competitor: Double,
    sum: Double,
    before: SmallRng,
    total: Double,
    after: SmallRng,
) -> bool {
    exists|y: Double, mean: Double|
        {
            &&& #[trigger] is_return_draw(k, s, before, y, after)
            &&& #[trigger] evaluates(k, mean_with(s, y), mean)
            &&& evaluates(k, num(sum).plus(num(competitor.larger(mean))), total)
        }
}

/// `total` is the sum of the better outcome over `draws` draws, made one after the other.
pub open spec fn is_best_after_sum<K: Arithmetic>(
    k: &K,
    s: Stats,
    competitor: Double,
    draws: nat,
    before: SmallRng,
    total: Double,
    after: SmallRng,
) -> bool
    decreases draws,
{
    if draws == 0 {
        total == Double::zero() && after == before
    } else {
        exists|sum: Double, middle: SmallRng|
            is_best_after_sum(k, s, competitor, (draws - 1) as nat, before, sum, middle)
                && #[trigger] adds_best_after(k, s, competitor, sum, middle, total, after)
    }
}

/// By how much the average of `draws` numbers with the given sum exceeds `best`.
pub open spec fn average_rise(total: Double, draws: usize, best: Double) -> Formula {
    num(total).over(count(draws as u64)).minus(num(best))
}

/// `score` is the value of one more sample, estimated from `draws` draws: by how much
/// the best mean rises on average, and never less than zero.
pub open spec fn is_drawn_voc<K: Arithmetic>(
    k: &K,
    s: Stats,
    competitor: Double,
    best: Double,
    draws: usize,
    before: SmallRng,
    score: Double,
    after: SmallRng,
) -> bool {
    exists|total: Double, rise: Double|
        {
            &&& #[trigger] is_best_after_sum(k, s, competitor, draws as nat, before, total, after)
            &&& #[trigger] evaluates(k, average_rise(total, draws, best), rise)
            &&& score == rise.larger(Double::zero())
        }
}

/// `scores` are the drawn values of one more sample of each of the first `n` moves,
/// estimated one after the other.
pub open spec fn are_drawn_vocs<K: Arithmetic>(
    k: &K,
    edges: Seq<Edge>,
    draws: usize,
    n: nat,
    before: SmallRng,
    scores: Seq<Double>,
    after: SmallRng,
) -> bool
    decreases n,
{
    &&& scores.len() == n
    &&& if n == 0 {
        after == before
    } else {
        exists|middle: SmallRng|
            are_drawn_vocs(k, edges, draws, (n - 1) as nat, before, scores.drop_last(), middle)
                && #[trigger] is_drawn_voc(
                k,
                edges[n - 1].stats,
                greatest_other(means(edges), n - 1),
                greatest(means(edges)),
                draws,
                middle,
                scores.last(),
                after,
            )
    }
}

/// `eps` is by how much scores may differ and still count as equal: `10^-12`, or
/// `10^-12 (1 + |best|)` where the difference is relative.
pub open spec fn is_margin<K: Arithmetic>(k: &K, relative: bool, best: Double, eps: Double) -> bool {
    if relative {
        evaluates(
            k,
            num(Double::tolerance()).times(num(Double::one()).plus(num(best.unsigned()))),
            eps,
        )
    } else {
        eps == Double::tolerance()
    }
}

/// A score counts as equal to the best one.
pub open spec fn is_close<K: Arithmetic>(k: &K, relative: bool, score: Double, best: Double) -> bool {
    exists|gap: Double, eps: Double|
        {
            &&& #[trigger] evaluates(k, num(score).minus(num(best)), gap)
            &&& #[trigger] is_margin(k, relative, best, eps)
            &&& gap.unsigned().at_most(eps)
        }
}

/// A score does not count as equal to the best one.
pub open spec fn is_apart<K: Arithmetic>(k: &K, relative: bool, score: Double, best: Double) -> bool {
    exists|gap: Double, eps: Double|
        {
            &&& #[trigger] evaluates(k, num(score).minus(num(best)), gap)
            &&& #[trigger] is_margin(k, relative, best, eps)
            &&& !gap.unsigned().at_most(eps)
        }
}

/// Entry `r` is as good as the greatest score: it is that score or counts as equal to
/// it.
pub open spec fn is_tie<K: Arithmetic>(k: &K, relative: bool, scores: Seq<Double>, r: int) -> bool {
    &&& 0 <= r < scores.len()
    &&& scores[r] == greatest(scores) || is_close(k, relative, scores[r], greatest(scores))
}

/// `ties` lists the entries that are as good as the greatest score, and no others.
pub open spec fn are_ties<K: Arithmetic>(
    k: &K,
    relative: bool,
    scores: Seq<Double>,
    ties: Seq<usize>,
) -> bool {
    &&& forall|j: int| 0 <= j < ties.len() ==> is_tie(k, relative, scores, (#[trigger] ties[j]) as int)
    &&& forall|i: usize|
        i < scores.len() && !#[trigger] ties.contains(i) ==> scores[i as int] != greatest(scores)
            && is_apart(k, relative, scores[i as int], greatest(scores))
    &&& forall|i: int, j: int| 0 <= i < j < ties.len() ==> ties[i] < ties[j]
}

/// How many samples of every move a policy needs before it chooses by its scores.
pub open spec fn needed(policy: Policy) -> int {
    if policy == Policy::Uct {
        1
    } else {
        3
    }
}

/// `r` is one of the ties, drawn with the generator.
pub open spec fn is_drawn_tie(ties: Seq<usize>, before: SmallRng, r: int, after: SmallRng) -> bool {
    exists|pick: usize|
        {
            &&& pick < ties.len()
            &&& #[trigger] draws_below(before, ties.len() as usize, pick, after)
            &&& r == ties[pick as int]
        }
}

/// `r` is the move that the policy chooses at the node with the generator `before`, which
/// is `after` then. The upper confidence bounds need one sample of every move, the other
/// policies three, and until then the move with the fewest samples is next. Nothing is
/// drawn for it, nor for the upper confidence bounds.
pub open spec fn is_choice<K: Arithmetic>(
    k: &K,
    policy: Policy,
    node: Node,
    before: SmallRng,
    r: int,
    after: SmallRng,
) -> bool {
    let edges = node.edges@;
    &&& 0 <= r < edges.len()
    &&& if !sampled_at_least(edges, needed(policy)) {
        is_least_sampled(edges, r) && after == before
    } else {
        match policy {
            Policy::Uct => after == before && exists|scores: Seq<Double>|
                #[trigger] are_uct_scores(k, node, scores) && first_greatest(scores, r),
            Policy::Thompson => exists|xs: Seq<Double>|
                #[trigger] are_mean_draws(k, edges, edges.len(), before, xs, after)
                    && first_greatest(xs, r),
            Policy::ExactVoc => exists|scores: Seq<Double>, ties: Seq<usize>| #[trigger]
                are_vocs(k, edges, scores) && #[trigger] are_ties(k, true, scores, ties)
                    && is_drawn_tie(ties, before, r, after),
            Policy::McVoc(draws) => exists|
                scores: Seq<Double>,
                ties: Seq<usize>,
                middle: SmallRng,
            | #[trigger]
                are_drawn_vocs(k, edges, draws, edges.len(), before, scores, middle)
                    && #[trigger] are_ties(k, false, scores, ties) && is_drawn_tie(
                    ties,
                    middle,
                    r,
                    after,
                ),
        }
    }
}

/// The first of the moves with the fewest samples.
pub fn least_sampled(edges: &Vec<Edge>) -> (r: usize)
    requires
        edges@.len() > 0,
    ensures
        is_least_sampled(edges@, r as int),
{
    let mut best: usize = 0;
    for i in 1..edges.len()
        invariant
            best < i <= edges@.len(),
            forall|j: int| 0 <= j < i ==> edges@[best as int].stats.n <= (#[trigger] edges@[j]).stats.n,
            forall|j: int| 0 <= j < best ==> edges@[best as int].stats.n < (#[trigger] edges@[j]).stats.n,
    {
        if edges[i].stats.n < edges[best].stats.n {
            best = i;
        }
    }
    best
}

/// Whether every move has at least `n` samples.
pub fn all_sampled(edges: &Vec<Edge>, n: u32) -> (r: bool)
    ensures
        r == sampled_at_least(edges@, n as int),
{
    for i in 0..edges.len()
        invariant
            forall|j: int| 0 <= j < i ==> (#[trigger] edges@[j]).stats.n >= n,
    {
        if edges[i].stats.n < n {
            return false;
        }
    }
    true
}

fn uct_scores<K: Arithmetic>(node: &Node, k: &K) -> (r: Vec<Double>)
    ensures
        are_uct_scores(k, *node, r@),
{
    let mut mins: Vec<Double> = Vec::new();
    let mut maxs: Vec<Double> = Vec::new();
    for i in 0..node.edges.len()
        invariant
            mins@.len() == i,
            maxs@.len() == i,
            forall|j: int| 0 <= j < i ==> #[trigger] mins@[j] == node.edges@[j].stats.min,
            forall|j: int| 0 <= j < i ==> #[trigger] maxs@[j] == node.edges@[j].stats.max,
    {
        mins.push(node.edges[i].stats.min);
        maxs.push(node.edges[i].stats.max);
    }
    assert(mins@ =~= minima(node.edges@));
    assert(maxs@ =~= maxima(node.edges@));
    let low = least_of(&mins);
    let high = greatest_of(&maxs);
    let range = Term::num(k, high).minus(k, Term::num(k, low)).value;
    assert(evaluates(k, num(high).minus(num(low)), range));
    let visits: u32 = if node.visits == 0 {
        1
    } else {
        node.visits
    };
    let mut scores: Vec<Double> = Vec::new();
    for i in 0..node.edges.len()
        invariant
            visits == at_least_one(node.visits),
            scores@.len() == i,
            forall|j: int|
                0 <= j < i ==> is_uct_score(
                    k,
                    node.visits,
                    node.edges@[j].stats,
                    low,
                    range,
                    #[trigger] scores@[j],
                ),
    {
        let s = node.edges[i].stats;
        let q = if Double::zero().lt(range) {
            let above = Term::num(k, s.mean).minus(k, Term::num(k, low));
            above.over(k, Term::num(k, range)).value
        } else {
            Double::half()
        };
        assert(is_level(k, s, low, range, q));
        let twice = Term::num(k, Double::two()).times(k, Term::count(k, visits as u64).log(k));
        let extra = twice.over(k, Term::count(k, s.n as u64)).root(k);
        scores.push(Term::num(k, q).plus(k, extra).value);
    }
    scores
}

fn mean_draws<K: Arithmetic>(edges: &Vec<Edge>, k: &K, rng: &mut SmallRng) -> (r: Vec<Double>)
    ensures
        are_mean_draws(k, edges@, edges@.len(), *old(rng), r@, *final(rng)),
{
    let ghost start = *rng;
    let mut xs: Vec<Double> = Vec::new();
    for i in 0..edges.len()
        invariant
            are_mean_draws(k, edges@, i as nat, start, xs@, *rng),
    {
        let ghost middle = *rng;
        let ghost before = xs@;
        let x = edges[i].stats.mean_sample(k, rng);
        xs.push(x);
        assert(xs@.drop_last() =~= before);
        assert(is_mean_draw(k, edges@[i as int].stats, middle, xs@.last(), *rng));
    }
    xs
}

/// The values of one more sample of each move.
pub fn exact_vocs<K: Arithmetic>(edges: &Vec<Edge>, k: &K) -> (r: Vec<Double>)
    ensures
        are_vocs(k, edges@, r@),
{
    let ms = edge_means(edges);
    let mut scores: Vec<Double> = Vec::new();
    for i in 0..edges.len()
        invariant
            ms@ == means(edges@),
            scores@.len() == i,
            forall|j: int|
                0 <= j < i ==> is_voc(
                    k,
                    edges@[j].stats,
                    greatest_other(means(edges@), j),
                    #[trigger] scores@[j],
                ),
    {
        let other = greatest_other_than(&ms, i);
        let voc = exact_voc(k, edges[i].stats, other);
        scores.push(voc);
    }
    scores
}

/// No score is negative or a NaN.
pub open spec fn non_negative(scores: Seq<Double>) -> bool {
    forall|i: int| 0 <= i < scores.len() ==> Double::zero().at_most(#[trigger] scores[i])
}

fn drawn_voc<K: Arithmetic>(
    s: Stats,
    competitor: Double,
    best: Double,
    draws: usize,
    k: &K,
    rng: &mut SmallRng,
) -> (r: Double)
    ensures
        is_drawn_voc(k, s, competitor, best, draws, *old(rng), r, *final(rng)),
        Double::zero().at_most(r),
{
    let ghost start = *rng;
    let mut total = Double::zero();
    for i in 0..draws
        invariant
            is_best_after_sum(k, s, competitor, i as nat, start, total, *rng),
    {
        let ghost middle = *rng;
        let y = s.return_sample(k, rng);
        let mean = s.mean_with(k, y);
        let better = Term::num(k, competitor.max(mean));
        let next = Term::num(k, total).plus(k, better).value;
        assert(is_return_draw(k, s, middle, y, *rng) && evaluates(k, mean_with(s, y), mean));
        assert(adds_best_after(k, s, competitor, total, middle, next, *rng));
        total = next;
    }
    let average = Term::num(k, total).over(k, Term::count(k, draws as u64));
    let rise = average.minus(k, Term::num(k, best)).value;
    assert(evaluates(k, average_rise(total, draws, best), rise));
    rise.max(Double::zero())
}

fn drawn_vocs<K: Arithmetic>(edges: &Vec<Edge>, draws: usize, k: &K, rng: &mut SmallRng) -> (r: Vec<
    Double,
>)
    ensures
        are_drawn_vocs(k, edges@, draws, edges@.len(), *old(rng), r@, *final(rng)),
        non_negative(r@),
{
    let ghost start = *rng;
    let ms = edge_means(edges);
    let best = greatest_of(&ms);
    let mut scores: Vec<Double> = Vec::new();
    for i in 0..edges.len()
        invariant
            ms@ == means(edges@),
            best == greatest(means(edges@)),
            are_drawn_vocs(k, edges@, draws, i as nat, start, scores@, *rng),
            non_negative(scores@),
    {
        let ghost middle = *rng;
        let ghost before = scores@;
        let other = greatest_other_than(&ms, i);
        let voc = drawn_voc(edges[i].stats, other, best, draws, k, rng);
        scores.push(voc);
        assert(scores@.drop_last() =~= before);
        assert(is_drawn_voc(
            k,
            edges@[i as int].stats,
            greatest_other(means(edges@), i as int),
            greatest(means(edges@)),
            draws,
            middle,
            scores@.last(),
            *rng,
        ));
    }
    scores
}

fn close<K: Arithmetic>(score: Double, best: Double, relative: bool, k: &K) -> (r: bool)
    ensures
        r ==> is_close(k, relative, score, best),
        !r ==> is_apart(k, relative, score, best),
{
    let eps = if relative {
        let size = Term::num(k, Double::one()).plus(k, Term::num(k, best.abs()));
        Term::num(k, Double::tolerance()).times(k, size).value
    } else {
        Double::tolerance()
    };
    let gap = Term::num(k, score).minus(k, Term::num(k, best)).value;
    assert(evaluates(k, num(score).minus(num(best)), gap) && is_margin(k, relative, best, eps));
    gap.abs().le(eps)
}

/// The entries that are as good as the greatest score.
pub fn ties_of<K: Arithmetic>(scores: &Vec<Double>, relative: bool, k: &K) -> (r: Vec<usize>)
    ensures
        are_ties(k, relative, scores@, r@),
        non_negative(scores@) && scores@.len() > 0 ==> r@.len() > 0,
{
    let best = greatest_of(scores);
    let mut ties: Vec<usize> = Vec::new();
    for i in 0..scores.len()
        invariant
            best == greatest(scores@),
            forall|j: int| 0 <= j < ties@.len() ==> is_tie(k, relative, scores@, (#[trigger] ties@[j]) as int),
            forall|j: int| 0 <= j < ties@.len() ==> (#[trigger] ties@[j]) < i,
            forall|j: usize|
                j < i && !#[trigger] ties@.contains(j) ==> scores@[j as int] != best && is_apart(
                    k,
                    relative,
                    scores@[j as int],
                    best,
                ),
            forall|a: int, b: int| 0 <= a < b < ties@.len() ==> ties@[a] < ties@[b],
    {
        let ghost before = ties@;
        if scores[i].bits == best.bits || close(scores[i], best, relative, k) {
            ties.push(i);
            assert(ties@[before.len() as int] == i);
        }
        assert forall|j: usize| j < i + 1 && !#[trigger] ties@.contains(j) implies scores@[j as int]
            != best && is_apart(k, relative, scores@[j as int], best) by {
            if before.contains(j) {
                let n = choose|n: int| 0 <= n < before.len() && before[n] == j;
                assert(ties@[n] == j);
            }
        }
    }
    proof {
        if non_negative(scores@) && scores@.len() > 0 {
            law_greatest_bounds(scores@);
            assert(Double::zero().at_most(scores@[0]));
            assert(!best.below(scores@[0]));
            let i = choose|i: int| 0 <= i < scores@.len() && scores@[i] == best;
            assert(ties@.contains(i as usize));
        }
    }
    ties
}

proof fn lemma_voc_non_negative<K: Arithmetic>(k: &K, s: Stats, competitor: Double, voc: Double)
    requires
        is_voc(k, s, competitor, voc),
    ensures
        Double::zero().at_most(voc),
{
}

/// The draws of the mean leave the generator as it is where every move is certain.
proof fn lemma_certain_draws<K: Arithmetic>(
    k: &K,
    edges: Seq<Edge>,
    n: nat,
    before: SmallRng,
    xs: Seq<Double>,
    after: SmallRng,
)
    requires
        are_mean_draws(k, edges, n, before, xs, after),
        n <= edges.len(),
        all_certain(k, edges),
    ensures
        after == before,
    decreases n,
{
    if n > 0 {
        let middle = choose|middle: SmallRng|
            are_mean_draws(k, edges, (n - 1) as nat, before, xs.drop_last(), middle)
                && #[trigger] is_mean_draw(k, edges[n - 1].stats, middle, xs.last(), after);
        assert(certain(k, edges[n - 1].stats));
        lemma_certain_draws(k, edges, (n - 1) as nat, before, xs.drop_last(), middle);
    }
}

/// The samples of every move leave no uncertainty.
pub open spec fn all_certain<K: Arithmetic>(k: &K, edges: Seq<Edge>) -> bool {
    forall|i: int| 0 <= i < edges.len() ==> certain(k, (#[trigger] edges[i]).stats)
}

/// The move to sample next at a node.
pub fn select_edge<K: Arithmetic>(node: &Node, policy: Policy, k: &K, rng: &mut SmallRng) -> (r: usize)
    requires
        node.edges@.len() > 0,
    ensures
        is_choice(k, policy, *node, *old(rng), r as int, *final(rng)),
        !sampled_at_least(node.edges@, needed(policy)) ==> *final(rng) == *old(rng),
        policy == Policy::Uct ==> *final(rng) == *old(rng),
        policy == Policy::Thompson && all_certain(k, node.edges@) ==> *final(rng) == *old(rng),
{
    let ghost start = *rng;
    match policy {
        Policy::Uct => {
            if !all_sampled(&node.edges, 1) {
                return least_sampled(&node.edges);
            }
            let scores = uct_scores(node, k);
            index_of_first_greatest(&scores)
        },
        Policy::Thompson => {
            if !all_sampled(&node.edges, 3) {
                return least_sampled(&node.edges);
            }
            let xs = mean_draws(&node.edges, k, rng);
            proof {
                if all_certain(k, node.edges@) {
                    lemma_certain_draws(k, node.edges@, node.edges@.len(), start, xs@, *rng);
                }
            }
            index_of_first_greatest(&xs)
        },
        Policy::ExactVoc => {
            if !all_sampled(&node.edges, 3) {
                return least_sampled(&node.edges);
            }
            let scores = exact_vocs(&node.edges, k);
            proof {
                assert forall|i: int| 0 <= i < scores@.len() implies Double::zero().at_most(
                    #[trigger] scores@[i],
                ) by {
                    lemma_voc_non_negative(
                        k,
                        node.edges@[i].stats,
                        greatest_other(means(node.edges@), i),
                        scores@[i],
                    );
                }
            }
            let ties = ties_of(&scores, true, k);
            let pick = draw_below(rng, ties.len());
            assert(draws_below(start, ties@.len() as usize, pick, *rng));
            assert(is_drawn_tie(ties@, start, ties@[pick as int] as int, *rng));
            assert(is_tie(k, true, scores@, ties@[pick as int] as int));
            ties[pick]
        },
        Policy::McVoc(draws) => {
            if !all_sampled(&node.edges, 3) {
                return least_sampled(&node.edges);
            }
            let scores = drawn_vocs(&node.edges, draws, k, rng);
            let ghost middle = *rng;
            let ties = ties_of(&scores, false, k);
            let pick = draw_below(rng, ties.len());
            assert(draws_below(middle, ties@.len() as usize, pick, *rng));
            assert(is_drawn_tie(ties@, middle, ties@[pick as int] as int, *rng));
            assert(is_tie(k, false, scores@, ties@[pick as int] as int));
            ties[pick]
        },
    }
}

/// Wherever some move lacks the samples that the policy needs, the choice is fixed and
/// nothing is drawn for it.
pub proof fn law_forced_choice_is_unique<K: Arithmetic>(
    k: &K,
    policy: Policy,
    node: Node,
    before: SmallRng,
    a: int,
    after_a: SmallRng,
    b: int,
    after_b: SmallRng,
)
    requires
        is_choice(k, policy, node, before, a, after_a),
        is_choice(k, policy, node, before, b, after_b),
        !sampled_at_least(node.edges@, needed(policy)),
    ensures
        a == b,
        after_a == before,
        after_b == before,
{
}

} // verus!
