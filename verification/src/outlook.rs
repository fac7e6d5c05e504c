//! Values of one more sample estimated from draws, in exact arithmetic: each draw supposes one
//! more return of a move, and looks at the best mean that would be then.

use crate::arith::{evaluates, num, Arithmetic};
use crate::bounds::{all_plain, is_top, lemma_greatest_is_top};
use crate::double::{greatest, greatest_other, Double};
use crate::estimate::{is_return_draw, mean_with, Stats};
use crate::exact::{lemma_quotient, Exact};
use crate::gain::positive_part;
use crate::posterior::{is_about_mean, law_returns_are_drawn_about_the_mean, spread_samples};
use crate::rescale::{exact_addition, exact_drawn_value, exact_drawn_values, exact_sum};
use crate::select::{adds_best_after, are_drawn_vocs, average_rise, is_best_after_sum, is_drawn_voc};
use crate::tree::{means, Edge};
use crate::units::{exact_at, lemma_against_zero, plain};
use rand::rngs::SmallRng;
use vstd::prelude::*;

verus! {

/// `mean` is the mean of the samples and of one more return `y`: all of them together are
/// `n + 1` times it.
pub open spec fn is_mean_with(m: Exact, s: Stats, y: Double, mean: Double) -> bool {
    (s.n as real + 1 as real) * m.at(mean) == (s.n as real) * m.at(s.mean) + m.at(y)
}

/// `g` is the best mean after one more return of the move `i` was drawn: the greatest of the
/// means, with that of the move replaced by its mean with that return.
pub open spec fn is_outcome<K: Arithmetic>(
    k: &K,
    m: Exact,
    edges: Seq<Edge>,
    i: int,
    before: SmallRng,
    g: real,
    after: SmallRng,
) -> bool {
    exists|y: Double, mean: Double|
        {
            &&& #[trigger] is_about_mean(
                k,
                m,
                edges[i].stats,
                edges[i].stats.n as real + 1 as real,
                before,
                y,
                after,
            )
            &&& #[trigger] is_mean_with(m, edges[i].stats, y, mean)
            &&& is_top(m, means(edges).update(i, mean), g)
        }
}

/// The best means after draws that were made one after the other.
pub open spec fn are_outcomes<K: Arithmetic>(
    k: &K,
    m: Exact,
    edges: Seq<Edge>,
    i: int,
    gens: Seq<SmallRng>,
    gs: Seq<real>,
) -> bool {
    &&& gens.len() == gs.len() + 1
    &&& forall|d: int|
        0 <= d < gs.len() ==> is_outcome(k, m, edges, i, gens[d], #[trigger] gs[d], gens[d + 1])
}

/// The sum of the numbers.
pub open spec fn real_sum(gs: Seq<real>) -> real
    decreases gs.len(),
{
    if gs.len() == 0 {
        0 as real
    } else {
        real_sum(gs.drop_last()) + gs.last()
    }
}

/// `rise` is by how much the average of the numbers lies above `best`.
pub open spec fn is_average_rise(gs: Seq<real>, best: real, rise: real) -> bool {
    (gs.len() as real) * (best + rise) == real_sum(gs)
}

/// `v` is by how much the best mean rises on average over `draws` draws of one more return of
/// the move `i`, and zero where it falls.
pub open spec fn is_outlook<K: Arithmetic>(
    k: &K,
    m: Exact,
    edges: Seq<Edge>,
    i: int,
    draws: nat,
    before: SmallRng,
    v: real,
    after: SmallRng,
) -> bool {
    exists|gens: Seq<SmallRng>, gs: Seq<real>, best: real, rise: real|
        {
            &&& #[trigger] are_outcomes(k, m, edges, i, gens, gs)
            &&& gs.len() == draws
            &&& gens[0] == before
            &&& gens[draws as int] == after
            &&& is_top(m, means(edges), best)
            &&& #[trigger] is_average_rise(gs, best, rise)
            &&& v == positive_part(rise)
        }
}

/// The best of the other means or a number in the place of the mean at `i`, whichever is greater,
/// is the best of the means with that number in that place.
pub proof fn law_rivals_are_the_other_moves(m: Exact, xs: Seq<Double>, i: int, x: Double)
    requires
        m.ordered(),
        xs.len() > 1,
        0 <= i < xs.len(),
        all_plain(xs),
        plain(x),
    ensures
        is_top(m, xs.update(i, x), m.at(greatest_other(xs, i).larger(x))),
        plain(greatest_other(xs, i)),
        plain(greatest_other(xs, i).larger(x)),
{
    let rest = xs.remove(i);
    let ys = xs.update(i, x);
    assert forall|j: int| 0 <= j < rest.len() implies plain(#[trigger] rest[j]) by {
        assert(rest[j] == if j < i { xs[j] } else { xs[j + 1] });
    }
    lemma_greatest_is_top(m, rest);
    let c = greatest(rest);
    assert(c.below(x) <==> m.at(c) < m.at(x));
    let g = m.at(c.larger(x));
    assert forall|j: int| 0 <= j < ys.len() implies m.at(#[trigger] ys[j]) <= g by {
        if j < i {
            assert(ys[j] == rest[j]);
        } else if j > i {
            assert(ys[j] == rest[j - 1]);
        }
    }
    let w = choose|j: int| 0 <= j < rest.len() && m.at(#[trigger] rest[j]) == m.at(c);
    assert(ys[i] == x);
    if w < i {
        assert(ys[w] == rest[w]);
    } else {
        assert(ys[w + 1] == rest[w]);
    }
}

proof fn lemma_means_are_plain(m: Exact, edges: Seq<Edge>)
    requires
        spread_samples(m, edges),
    ensures
        all_plain(means(edges)),
{
    assert forall|i: int| 0 <= i < means(edges).len() implies plain(#[trigger] means(edges)[i]) by {
        assert(plain(edges[i].stats.mean));
    }
}

proof fn lemma_mean_with(m: Exact, s: Stats, y: Double, mean: Double)
    requires
        m.sound(),
        m.at(mean) == m.of(mean_with(s, y)),
    ensures
        is_mean_with(m, s, y, mean),
{
    let n = s.n as real;
    assert(s.n as u64 as real == n);
    assert(m.at(mean) == (n * m.at(s.mean) + m.at(y)) / (n + 1 as real)) by {
        reveal_with_fuel(Exact::of, 4);
    }
    let q = m.at(mean);
    lemma_quotient(n * m.at(s.mean) + m.at(y), n + 1 as real, q);
    assert(q * (n + 1 as real) == (n + 1 as real) * q) by (nonlinear_arith);
}

/// One draw of an estimate.
proof fn lemma_outcome<K: Arithmetic>(
    k: &K,
    m: Exact,
    edges: Seq<Edge>,
    i: int,
    sum: Double,
    before: SmallRng,
    total: Double,
    after: SmallRng,
)
    requires
        m.sound(),
        m.ordered(),
        edges.len() > 1,
        0 <= i < edges.len(),
        spread_samples(m, edges),
        exact_addition(k, m, edges[i].stats, greatest_other(means(edges), i), sum, before),
        adds_best_after(k, edges[i].stats, greatest_other(means(edges), i), sum, before, total, after),
    ensures
        is_outcome(k, m, edges, i, before, m.at(total) - m.at(sum), after),
{
    let s = edges[i].stats;
    let c = greatest_other(means(edges), i);
    assert(plain(s.m2) && plain(s.mean) && m.at(edges[i].stats.m2) >= 0 as real);
    let (y, mean) = choose|y: Double, mean: Double|
        {
            &&& #[trigger] is_return_draw(k, s, before, y, after)
            &&& #[trigger] evaluates(k, mean_with(s, y), mean)
            &&& evaluates(k, num(sum).plus(num(c.larger(mean))), total)
        };
    lemma_means_are_plain(m, edges);
    lemma_rival_is_plain(m, means(edges), i);
    assert(c.finite());
    assert(exact_at(k, m, mean_with(s, y)));
    assert(exact_at(k, m, num(sum).plus(num(c.larger(mean)))));
    law_returns_are_drawn_about_the_mean(k, m, s, before, y, after);
    lemma_mean_with(m, s, y, mean);
    law_rivals_are_the_other_moves(m, means(edges), i, mean);
    assert(m.at(total) == m.at(sum) + m.at(c.larger(mean))) by {
        reveal_with_fuel(Exact::of, 2);
    }
    assert(is_about_mean(k, m, edges[i].stats, edges[i].stats.n as real + 1 as real, before, y, after));
    assert(is_mean_with(m, edges[i].stats, y, mean));
}

proof fn lemma_rival_is_plain(m: Exact, xs: Seq<Double>, i: int)
    requires
        m.ordered(),
        xs.len() > 1,
        0 <= i < xs.len(),
        all_plain(xs),
    ensures
        plain(greatest_other(xs, i)),
{
    assert(plain(xs[i]));
    law_rivals_are_the_other_moves(m, xs, i, xs[i]);
}

/// The draws of an estimate, one after the other.
proof fn lemma_outcomes<K: Arithmetic>(
    k: &K,
    m: Exact,
    edges: Seq<Edge>,
    i: int,
    draws: nat,
    before: SmallRng,
    total: Double,
    after: SmallRng,
) -> (r: (Seq<SmallRng>, Seq<real>))
    requires
        m.sound(),
        m.ordered(),
        edges.len() > 1,
        0 <= i < edges.len(),
        spread_samples(m, edges),
        exact_sum(k, m, edges[i].stats, greatest_other(means(edges), i), draws, before),
        is_best_after_sum(k, edges[i].stats, greatest_other(means(edges), i), draws, before, total, after),
    ensures
        are_outcomes(k, m, edges, i, r.0, r.1),
        r.1.len() == draws,
        r.0[0] == before,
        r.0[draws as int] == after,
        real_sum(r.1) == m.at(total),
    decreases draws,
{
    let s = edges[i].stats;
    let c = greatest_other(means(edges), i);
    if draws == 0 {
        (seq![before], Seq::empty())
    } else {
        let (sum, middle) = choose|sum: Double, middle: SmallRng|
            is_best_after_sum(k, s, c, (draws - 1) as nat, before, sum, middle)
                && #[trigger] adds_best_after(k, s, c, sum, middle, total, after);
        let (gens, gs) = lemma_outcomes(k, m, edges, i, (draws - 1) as nat, before, sum, middle);
        lemma_outcome(k, m, edges, i, sum, middle, total, after);
        let g = m.at(total) - m.at(sum);
        let more = gens.push(after);
        let all = gs.push(g);
        assert(all.drop_last() =~= gs);
        assert forall|d: int| 0 <= d < all.len() implies is_outcome(
            k,
            m,
            edges,
            i,
            more[d],
            #[trigger] all[d],
            more[d + 1],
        ) by {
            if d < gs.len() {
                assert(all[d] == gs[d]);
                assert(more[d] == gens[d] && more[d + 1] == gens[d + 1]);
            } else {
                assert(more[d] == middle && more[d + 1] == after);
            }
        }
        (more, all)
    }
}

/// A number that is not negative, or zero.
proof fn lemma_positive_part(m: Exact, x: Double)
    requires
        m.ordered(),
        plain(x),
    ensures
        m.at(x.larger(Double::zero())) == positive_part(m.at(x)),
        plain(x.larger(Double::zero())),
{
    lemma_against_zero(m, x);
}

/// The estimated value of one more sample of a move.
proof fn lemma_outlook<K: Arithmetic>(
    k: &K,
    m: Exact,
    edges: Seq<Edge>,
    i: int,
    draws: usize,
    before: SmallRng,
    score: Double,
    after: SmallRng,
)
    requires
        m.sound(),
        m.ordered(),
        edges.len() > 1,
        0 <= i < edges.len(),
        draws > 0,
        spread_samples(m, edges),
        exact_drawn_value(
            k,
            m,
            edges[i].stats,
            greatest_other(means(edges), i),
            greatest(means(edges)),
            draws,
            before,
        ),
        is_drawn_voc(
            k,
            edges[i].stats,
            greatest_other(means(edges), i),
            greatest(means(edges)),
            draws,
            before,
            score,
            after,
        ),
    ensures
        is_outlook(k, m, edges, i, draws as nat, before, m.at(score), after),
        plain(score),
{
    let s = edges[i].stats;
    let c = greatest_other(means(edges), i);
    let best = greatest(means(edges));
    lemma_means_are_plain(m, edges);
    lemma_greatest_is_top(m, means(edges));
    lemma_rival_is_plain(m, means(edges), i);
    let (total, rise) = choose|total: Double, rise: Double|
        {
            &&& #[trigger] is_best_after_sum(k, s, c, draws as nat, before, total, after)
            &&& #[trigger] evaluates(k, average_rise(total, draws, best), rise)
            &&& score == rise.larger(Double::zero())
        };
    let (gens, gs) = lemma_outcomes(k, m, edges, i, draws as nat, before, total, after);
    let d = draws as real;
    assert(draws as u64 as real == d);
    assert(m.at(rise) == m.at(total) / d - m.at(best)) by {
        reveal_with_fuel(Exact::of, 3);
    }
    let q = m.at(total) / d;
    lemma_quotient(m.at(total), d, q);
    assert(q * d == d * q) by (nonlinear_arith);
    lemma_positive_part(m, rise);
    assert(is_average_rise(gs, m.at(best), m.at(rise)));
}

/// The values estimated for the moves, one move after the other.
pub open spec fn are_outlooks<K: Arithmetic>(
    k: &K,
    m: Exact,
    edges: Seq<Edge>,
    draws: nat,
    gens: Seq<SmallRng>,
    vs: Seq<real>,
) -> bool {
    &&& gens.len() == vs.len() + 1
    &&& forall|i: int|
        0 <= i < vs.len() ==> is_outlook(k, m, edges, i, draws, gens[i], #[trigger] vs[i], gens[i + 1])
}

/// What the numbers stand for.
pub open spec fn readings(m: Exact, xs: Seq<Double>) -> Seq<real> {
    Seq::new(xs.len(), |i: int| m.at(xs[i]))
}

proof fn lemma_outlooks<K: Arithmetic>(
    k: &K,
    m: Exact,
    edges: Seq<Edge>,
    draws: usize,
    n: nat,
    before: SmallRng,
    scores: Seq<Double>,
    after: SmallRng,
) -> (gens: Seq<SmallRng>)
    requires
        m.sound(),
        m.ordered(),
        edges.len() > 1,
        n <= edges.len(),
        draws > 0,
        spread_samples(m, edges),
        exact_drawn_values(k, m, edges, draws, before),
        are_drawn_vocs(k, edges, draws, n, before, scores, after),
    ensures
        are_outlooks(k, m, edges, draws as nat, gens, readings(m, scores)),
        scores.len() == n,
        gens[0] == before,
        gens[n as int] == after,
        all_plain(scores),
    decreases n,
{
    if n == 0 {
        seq![before]
    } else {
        let front = scores.drop_last();
        let middle = choose|middle: SmallRng|
            are_drawn_vocs(k, edges, draws, (n - 1) as nat, before, front, middle)
                && #[trigger] is_drawn_voc(
                k,
                edges[n - 1].stats,
                greatest_other(means(edges), n - 1),
                greatest(means(edges)),
                draws,
                middle,
                scores.last(),
                after,
            );
        let rest = lemma_outlooks(k, m, edges, draws, (n - 1) as nat, before, front, middle);
        let gens = rest.push(after);
        let vs = readings(m, scores);
        lemma_outlook(k, m, edges, n - 1, draws, middle, scores.last(), after);
        assert forall|i: int| 0 <= i < vs.len() implies is_outlook(
            k,
            m,
            edges,
            i,
            draws as nat,
            gens[i],
            #[trigger] vs[i],
            gens[i + 1],
        ) by {
            if i < n - 1 {
                assert(front[i] == scores[i]);
                assert(readings(m, front)[i] == vs[i]);
                assert(gens[i] == rest[i] && gens[i + 1] == rest[i + 1]);
            } else {
                assert(gens[i] == middle && gens[i + 1] == after);
            }
        }
        assert forall|i: int| 0 <= i < scores.len() implies plain(#[trigger] scores[i]) by {
            if i < n - 1 {
                assert(front[i] == scores[i]);
            }
        }
        gens
    }
}

/// In exact arithmetic the values that are drawn for the moves hold each move against the others:
/// every draw looks at the greatest of the means with that of the move replaced by its mean with
/// one more return, and the value of the move is by how much these lie above the greatest mean
/// on average, zero where they do not. So the mean of the runner-up counts where the leading
/// move is drawn, and that of the leader does not.
pub proof fn law_drawn_values_look_ahead<K: Arithmetic>(
    k: &K,
    m: Exact,
    edges: Seq<Edge>,
    draws: usize,
    before: SmallRng,
    scores: Seq<Double>,
    after: SmallRng,
)
    requires
        m.sound(),
        m.ordered(),
        edges.len() > 1,
        draws > 0,
        spread_samples(m, edges),
        exact_drawn_values(k, m, edges, draws, before),
        are_drawn_vocs(k, edges, draws, edges.len(), before, scores, after),
    ensures
        scores.len() == edges.len(),
        all_plain(scores),
        exists|gens: Seq<SmallRng>|
            {
                &&& #[trigger] are_outlooks(k, m, edges, draws as nat, gens, readings(m, scores))
                &&& gens[0] == before
                &&& gens[edges.len() as int] == after
            },
{
    let gens = lemma_outlooks(k, m, edges, draws, edges.len(), before, scores, after);
    assert(are_outlooks(k, m, edges, draws as nat, gens, readings(m, scores)));
}

} // verus!
