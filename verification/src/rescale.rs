//! The choice of a move where the returns are observed in other units: it is the same where
//! nothing rounds and no margin bites.

use crate::arith::{evaluates, num, Arithmetic};
use crate::double::{first_greatest, greatest, greatest_other, least, Double};
use crate::estimate::{is_mean_draw, is_return_draw, mean_with, Stats};
use crate::exact::{
    in_units, law_estimate_follows_units, law_level_has_no_units, lemma_difference, scaled, Exact,
};
use crate::policy::Policy;
use crate::select::{
    adds_best_after, are_drawn_vocs, are_mean_draws, are_ties, are_uct_scores, are_vocs,
    at_least_one, average_rise, bonus, is_best_after_sum, is_choice, is_close, is_drawn_tie,
    is_drawn_voc, is_level, is_tie, is_uct_score, level, maxima, minima, needed,
};
use crate::steady::{
    generators_are_steady, lemma_drawn_tie_once, lemma_evaluates_once, lemma_first_greatest_once,
    lemma_rising_lists_agree, steady,
};
use crate::tree::{means, sampled_at_least, Edge, Node};
use crate::units::{
    exact_at, exact_mean_draw, exact_return_draw, exact_value, lemma_against_zero,
    lemma_extremes_move, lemma_larger_scales, lemma_mean_draw_in_units, lemma_no_return,
    lemma_one_more_return, lemma_one_return, lemma_plain_is_unique, lemma_return_draw_in_units,
    lemma_sign, lemma_voc_in_units, plain, stats_in_units,
};
use rand::rngs::SmallRng;
use vstd::prelude::*;

verus! {

/// Two lists of numbers hold the same returns in other units.
pub open spec fn all_in_units(m: Exact, a: real, b: real, xs: Seq<Double>, ys: Seq<Double>) -> bool {
    &&& xs.len() == ys.len()
    &&& forall|i: int|
        0 <= i < xs.len() ==> in_units(m, a, b, #[trigger] xs[i], ys[i]) && plain(xs[i]) && plain(ys[i])
}

/// Two lists of moves have the same samples in other units.
pub open spec fn edges_in_units(m: Exact, a: real, b: real, e: Seq<Edge>, f: Seq<Edge>) -> bool {
    &&& e.len() == f.len()
    &&& forall|i: int|
        0 <= i < e.len() ==> stats_in_units(m, a, b, (#[trigger] e[i]).stats, f[i].stats)
}

/// Nothing rounds in the levels of the means at a node.
pub open spec fn exact_levels<K: Arithmetic>(k: &K, m: Exact, node: Node) -> bool {
    let low = least(minima(node.edges@));
    let high = greatest(maxima(node.edges@));
    &&& exact_at(k, m, num(high).minus(num(low)))
    &&& forall|range: Double, i: int| #[trigger]
        evaluates(k, num(high).minus(num(low)), range) && Double::zero().below(range) && 0 <= i
            < node.edges@.len() ==> exact_at(
            k,
            m,
            level((#[trigger] node.edges@[i]).stats.mean, low, range),
        )
}

/// Nothing rounds in the draws of the means that start from a generator.
pub open spec fn exact_mean_draws<K: Arithmetic>(
    k: &K,
    m: Exact,
    edges: Seq<Edge>,
    before: SmallRng,
) -> bool {
    forall|n: nat, xs: Seq<Double>, middle: SmallRng|
        n < edges.len() && #[trigger] are_mean_draws(k, edges, n, before, xs, middle)
            ==> exact_mean_draw(k, m, edges[n as int].stats, middle)
}

/// Nothing rounds in the values of one more sample of each move. The value of a lone move is
/// not looked at.
pub open spec fn exact_values<K: Arithmetic>(k: &K, m: Exact, edges: Seq<Edge>) -> bool {
    edges.len() > 1 ==> forall|i: int|
        0 <= i < edges.len() ==> exact_value(
            k,
            m,
            (#[trigger] edges[i]).stats,
            greatest_other(means(edges), i),
        )
}

/// Nothing rounds in one draw of an estimate.
pub open spec fn exact_addition<K: Arithmetic>(
    k: &K,
    m: Exact,
    s: Stats,
    competitor: Double,
    sum: Double,
    before: SmallRng,
) -> bool {
    &&& exact_return_draw(k, m, s, before)
    &&& competitor.finite() ==> forall|y: Double, after: SmallRng| #[trigger]
        is_return_draw(k, s, before, y, after) ==> {
            &&& exact_at(k, m, mean_with(s, y))
            &&& forall|mean: Double| #[trigger]
                evaluates(k, mean_with(s, y), mean) ==> exact_at(
                    k,
                    m,
                    num(sum).plus(num(competitor.larger(mean))),
                )
        }
}

/// Nothing rounds in the sum of so many draws of an estimate.
pub open spec fn exact_sum<K: Arithmetic>(
    k: &K,
    m: Exact,
    s: Stats,
    competitor: Double,
    draws: nat,
    before: SmallRng,
) -> bool {
    forall|n: nat, sum: Double, middle: SmallRng|
        n < draws && #[trigger] is_best_after_sum(k, s, competitor, n, before, sum, middle)
            ==> exact_addition(k, m, s, competitor, sum, middle)
}

/// Nothing rounds in the drawn value of one more sample.
pub open spec fn exact_drawn_value<K: Arithmetic>(
    k: &K,
    m: Exact,
    s: Stats,
    competitor: Double,
    best: Double,
    draws: usize,
    before: SmallRng,
) -> bool {
    &&& exact_sum(k, m, s, competitor, draws as nat, before)
    &&& competitor.finite() ==> forall|total: Double, after: SmallRng| #[trigger]
        is_best_after_sum(k, s, competitor, draws as nat, before, total, after) ==> exact_at(
            k,
            m,
            average_rise(total, draws, best),
        )
}

/// Nothing rounds in the drawn values of one more sample of each move.
pub open spec fn exact_drawn_values<K: Arithmetic>(
    k: &K,
    m: Exact,
    edges: Seq<Edge>,
    draws: usize,
    before: SmallRng,
) -> bool {
    forall|n: nat, xs: Seq<Double>, middle: SmallRng|
        n < edges.len() && #[trigger] are_drawn_vocs(k, edges, draws, n, before, xs, middle)
            ==> exact_drawn_value(
            k,
            m,
            edges[n as int].stats,
            greatest_other(means(edges), n as int),
            greatest(means(edges)),
            draws,
            middle,
        )
}

/// Nothing rounds where the policy chooses a move at the node with the generator `before`.
/// While some move lacks the samples that the policy needs nothing is computed.
pub open spec fn exact_choice<K: Arithmetic>(
    k: &K,
    m: Exact,
    policy: Policy,
    node: Node,
    before: SmallRng,
) -> bool {
    sampled_at_least(node.edges@, needed(policy)) ==> match policy {
        Policy::Uct => exact_levels(k, m, node),
        Policy::Thompson => exact_mean_draws(k, m, node.edges@, before),
        Policy::ExactVoc => exact_values(k, m, node.edges@),
        Policy::McVoc(draws) => exact_drawn_values(k, m, node.edges@, draws, before),
    }
}

/// The greatest and the least of returns move with them.
proof fn lemma_ends_move(m: Exact, a: real, b: real, xs: Seq<Double>, ys: Seq<Double>)
    requires
        m.ordered(),
        a > 0 as real,
        all_in_units(m, a, b, xs, ys),
        xs.len() > 0,
    ensures
        in_units(m, a, b, greatest(xs), greatest(ys)),
        in_units(m, a, b, least(xs), least(ys)),
        plain(greatest(xs)) && plain(greatest(ys)) && plain(least(xs)) && plain(least(ys)),
    decreases xs.len(),
{
    let p = xs.drop_last();
    let q = ys.drop_last();
    assert(xs[xs.len() - 1] == xs.last());
    if p.len() == 0 {
        assert(greatest(p) == Double::neg_infinity() && greatest(q) == Double::neg_infinity());
        assert(least(p) == Double::infinity() && least(q) == Double::infinity());
    } else {
        assert forall|i: int| 0 <= i < p.len() implies in_units(m, a, b, #[trigger] p[i], q[i]) && plain(
            p[i],
        ) && plain(q[i]) by {
            assert(xs[i] == p[i]);
        }
        lemma_ends_move(m, a, b, p, q);
        lemma_extremes_move(m, a, b, greatest(p), xs.last(), greatest(q), ys.last());
        lemma_extremes_move(m, a, b, least(p), xs.last(), least(q), ys.last());
    }
}

proof fn lemma_means_in_units(m: Exact, a: real, b: real, e: Seq<Edge>, f: Seq<Edge>)
    requires
        edges_in_units(m, a, b, e, f),
        sampled_at_least(e, 1),
    ensures
        all_in_units(m, a, b, means(e), means(f)),
        all_in_units(m, a, b, minima(e), minima(f)),
        all_in_units(m, a, b, maxima(e), maxima(f)),
{
    assert forall|i: int| 0 <= i < e.len() implies stats_in_units(
        m,
        a,
        b,
        (#[trigger] e[i]).stats,
        f[i].stats,
    ) && e[i].stats.n >= 1 by {}
    assert forall|i: int| 0 <= i < e.len() implies in_units(
        m,
        a,
        b,
        #[trigger] means(e)[i],
        means(f)[i],
    ) && plain(means(e)[i]) && plain(means(f)[i]) by {
        assert(e[i].stats.n >= 1);
    }
    assert forall|i: int| 0 <= i < e.len() implies in_units(
        m,
        a,
        b,
        #[trigger] minima(e)[i],
        minima(f)[i],
    ) && plain(minima(e)[i]) && plain(minima(f)[i]) by {
        assert(e[i].stats.n >= 1);
    }
    assert forall|i: int| 0 <= i < e.len() implies in_units(
        m,
        a,
        b,
        #[trigger] maxima(e)[i],
        maxima(f)[i],
    ) && plain(maxima(e)[i]) && plain(maxima(f)[i]) by {
        assert(e[i].stats.n >= 1);
    }
}

/// The best of the other means moves with them.
proof fn lemma_other_moves(m: Exact, a: real, b: real, xs: Seq<Double>, ys: Seq<Double>, skip: int)
    requires
        m.ordered(),
        a > 0 as real,
        all_in_units(m, a, b, xs, ys),
        xs.len() > 1,
        0 <= skip < xs.len(),
    ensures
        in_units(m, a, b, greatest_other(xs, skip), greatest_other(ys, skip)),
        plain(greatest_other(xs, skip)) && plain(greatest_other(ys, skip)),
{
    let p = xs.remove(skip);
    let q = ys.remove(skip);
    assert forall|i: int| 0 <= i < p.len() implies in_units(m, a, b, #[trigger] p[i], q[i]) && plain(p[i])
        && plain(q[i]) by {
        if i < skip {
            assert(p[i] == xs[i] && q[i] == ys[i]);
        } else {
            assert(p[i] == xs[i + 1] && q[i] == ys[i + 1]);
        }
    }
    lemma_ends_move(m, a, b, p, q);
}

/// Two lists of numbers come in the same order.
pub open spec fn alike_in_order(xs: Seq<Double>, ys: Seq<Double>) -> bool {
    &&& xs.len() == ys.len()
    &&& forall|i: int| 0 <= i < xs.len() ==> plain(#[trigger] xs[i]) && plain(ys[i])
    &&& forall|i: int, j: int|
        0 <= i < xs.len() && 0 <= j < xs.len() ==> ((#[trigger] xs[i]).below(#[trigger] xs[j])
            <==> ys[i].below(ys[j]))
}

proof fn lemma_same_first(xs: Seq<Double>, ys: Seq<Double>, r: int, q: int)
    requires
        alike_in_order(xs, ys),
        xs.len() > 0,
        first_greatest(xs, r),
        first_greatest(ys, q),
    ensures
        r == q,
{
    let floor = Double::neg_infinity();
    assert forall|i: int| 0 <= i < xs.len() implies floor.below(#[trigger] xs[i]) && floor.below(ys[i]) by {}
    assert(floor.below(xs[0]) && floor.below(ys[0]));
    if r < q {
        assert(ys[r].below(ys[q]));
        assert(xs[r].below(xs[q]));
    } else if q < r {
        assert(xs[q].below(xs[r]));
        assert(ys[q].below(ys[r]));
    }
}

proof fn lemma_units_keep_order(m: Exact, a: real, b: real, xs: Seq<Double>, ys: Seq<Double>)
    requires
        m.ordered(),
        a > 0 as real,
        all_in_units(m, a, b, xs, ys),
    ensures
        alike_in_order(xs, ys),
{
    assert forall|i: int| 0 <= i < xs.len() implies plain(#[trigger] xs[i]) && plain(ys[i]) by {
        assert(in_units(m, a, b, xs[i], ys[i]));
    }
    assert forall|i: int, j: int| 0 <= i < xs.len() && 0 <= j < xs.len() implies ((
    #[trigger] xs[i]).below(#[trigger] xs[j]) <==> ys[i].below(ys[j])) by {
        assert(in_units(m, a, b, xs[i], ys[i]));
        assert(in_units(m, a, b, xs[j], ys[j]));
        lemma_extremes_move(m, a, b, xs[i], xs[j], ys[i], ys[j]);
    }
}

/// Upper confidence bounds have no units.
proof fn lemma_uct_has_no_units<K: Arithmetic>(
    k: &K,
    m: Exact,
    a: real,
    b: real,
    p: Node,
    q: Node,
    xs: Seq<Double>,
    ys: Seq<Double>,
)
    requires
        steady(k),
        m.ordered(),
        exact_levels(k, m, p),
        exact_levels(k, m, q),
        a > 0 as real,
        edges_in_units(m, a, b, p.edges@, q.edges@),
        p.visits == q.visits,
        p.edges@.len() > 0,
        sampled_at_least(p.edges@, 1),
        are_uct_scores(k, p, xs),
        are_uct_scores(k, q, ys),
    ensures
        xs == ys,
{
    let e = p.edges@;
    let f = q.edges@;
    lemma_means_in_units(m, a, b, e, f);
    lemma_ends_move(m, a, b, minima(e), minima(f));
    lemma_ends_move(m, a, b, maxima(e), maxima(f));
    let low = least(minima(e));
    let high = greatest(maxima(e));
    let other_low = least(minima(f));
    let other_high = greatest(maxima(f));
    let r = choose|r: Double|
        {
            &&& #[trigger] evaluates(k, num(high).minus(num(low)), r)
            &&& xs.len() == e.len()
            &&& forall|i: int|
                0 <= i < xs.len() ==> is_uct_score(k, p.visits, e[i].stats, low, r, #[trigger] xs[i])
        };
    let s = choose|s: Double|
        {
            &&& #[trigger] evaluates(k, num(other_high).minus(num(other_low)), s)
            &&& ys.len() == f.len()
            &&& forall|i: int|
                0 <= i < ys.len() ==> is_uct_score(
                    k,
                    q.visits,
                    f[i].stats,
                    other_low,
                    s,
                    #[trigger] ys[i],
                )
        };
    assert(scaled(m, a, r, s)) by {
        reveal_with_fuel(Exact::of, 3);
        lemma_difference(a, b, m.at(high), m.at(low));
    }
    lemma_against_zero(m, r);
    lemma_against_zero(m, s);
    lemma_sign(a, m.at(r));
    assert forall|i: int| 0 <= i < xs.len() implies xs[i] == ys[i] by {
        assert(is_uct_score(k, p.visits, e[i].stats, low, r, xs[i]));
        assert(is_uct_score(k, q.visits, f[i].stats, other_low, s, ys[i]));
        assert(stats_in_units(m, a, b, e[i].stats, f[i].stats) && e[i].stats.n >= 1);
        lemma_uct_score_has_no_units(
            k,
            m,
            a,
            b,
            p.visits,
            e[i].stats,
            low,
            r,
            xs[i],
            f[i].stats,
            other_low,
            s,
            ys[i],
        );
    }
    assert(xs =~= ys);
}

proof fn lemma_uct_score_has_no_units<K: Arithmetic>(
    k: &K,
    m: Exact,
    a: real,
    b: real,
    visits: u32,
    s: Stats,
    low: Double,
    range: Double,
    x: Double,
    t: Stats,
    other_low: Double,
    other_range: Double,
    y: Double,
)
    requires
        steady(k),
        m.ordered(),
        m.at(range) > 0 as real ==> exact_at(k, m, level(s.mean, low, range)),
        m.at(range) > 0 as real ==> exact_at(k, m, level(t.mean, other_low, other_range)),
        a > 0 as real,
        stats_in_units(m, a, b, s, t),
        s.n >= 1,
        in_units(m, a, b, low, other_low),
        scaled(m, a, range, other_range),
        Double::zero().below(range) <==> m.at(range) > 0 as real,
        Double::zero().below(other_range) <==> m.at(range) > 0 as real,
        is_uct_score(k, visits, s, low, range, x),
        is_uct_score(k, visits, t, other_low, other_range, y),
    ensures
        x == y,
{
    let top = bonus(at_least_one(visits), s.n);
    let u = choose|u: Double|
        #[trigger] is_level(k, s, low, range, u) && evaluates(k, num(u).plus(top), x);
    let v = choose|v: Double|
        #[trigger] is_level(k, t, other_low, other_range, v) && evaluates(k, num(v).plus(top), y);
    if m.at(range) > 0 as real {
        law_level_has_no_units(m, a, b, s.mean, low, range, t.mean, other_low, other_range);
        assert(m.at(u) == m.at(v));
        lemma_plain_is_unique(m, u, v);
    }
    lemma_evaluates_once(k, num(u).plus(top), x, y);
}

proof fn lemma_mean_draws_in_units<K: Arithmetic>(
    k: &K,
    m: Exact,
    a: real,
    b: real,
    e: Seq<Edge>,
    f: Seq<Edge>,
    n: nat,
    before: SmallRng,
    xs: Seq<Double>,
    after_x: SmallRng,
    ys: Seq<Double>,
    after_y: SmallRng,
)
    requires
        steady(k),
        m.sound(),
        m.ordered(),
        exact_mean_draws(k, m, e, before),
        exact_mean_draws(k, m, f, before),
        a > 0 as real,
        edges_in_units(m, a, b, e, f),
        sampled_at_least(e, 1),
        n <= e.len(),
        are_mean_draws(k, e, n, before, xs, after_x),
        are_mean_draws(k, f, n, before, ys, after_y),
    ensures
        all_in_units(m, a, b, xs, ys),
        after_x == after_y,
    decreases n,
{
    if n > 0 {
        let g = choose|g: SmallRng|
            are_mean_draws(k, e, (n - 1) as nat, before, xs.drop_last(), g) && #[trigger] is_mean_draw(
                k,
                e[n - 1].stats,
                g,
                xs.last(),
                after_x,
            );
        let h = choose|h: SmallRng|
            are_mean_draws(k, f, (n - 1) as nat, before, ys.drop_last(), h) && #[trigger] is_mean_draw(
                k,
                f[n - 1].stats,
                h,
                ys.last(),
                after_y,
            );
        let p = xs.drop_last();
        let q = ys.drop_last();
        lemma_mean_draws_in_units(k, m, a, b, e, f, (n - 1) as nat, before, p, g, q, h);
        assert(e[n - 1].stats.n >= 1);
        lemma_mean_draw_in_units(
            k,
            m,
            a,
            b,
            e[n - 1].stats,
            f[n - 1].stats,
            g,
            xs.last(),
            after_x,
            ys.last(),
            after_y,
        );
        assert forall|i: int| 0 <= i < xs.len() implies in_units(m, a, b, #[trigger] xs[i], ys[i])
            && plain(xs[i]) && plain(ys[i]) by {
            if i < n - 1 {
                assert(p[i] == xs[i]);
                assert(q[i] == ys[i]);
                assert(0 <= i < p.len());
                assert(in_units(m, a, b, p[i], q[i]));
            }
        }
    }
}

proof fn lemma_vocs_in_units<K: Arithmetic>(
    k: &K,
    m: Exact,
    a: real,
    b: real,
    e: Seq<Edge>,
    f: Seq<Edge>,
    xs: Seq<Double>,
    ys: Seq<Double>,
)
    requires
        m.sound(),
        m.ordered(),
        exact_values(k, m, e),
        exact_values(k, m, f),
        a > 0 as real,
        edges_in_units(m, a, b, e, f),
        sampled_at_least(e, 1),
        e.len() > 1,
        are_vocs(k, e, xs),
        are_vocs(k, f, ys),
    ensures
        all_in_units(m, a, 0 as real, xs, ys),
{
    lemma_means_in_units(m, a, b, e, f);
    assert forall|i: int| 0 <= i < xs.len() implies in_units(m, a, 0 as real, #[trigger] xs[i], ys[i])
        && plain(xs[i]) && plain(ys[i]) by {
        lemma_other_moves(m, a, b, means(e), means(f), i);
        assert(e[i].stats.n >= 1);
        lemma_voc_in_units(
            k,
            m,
            a,
            b,
            e[i].stats,
            greatest_other(means(e), i),
            xs[i],
            f[i].stats,
            greatest_other(means(f), i),
            ys[i],
        );
    }
}

/// The draws of an estimate are made alike whatever the units, and their sum moves with the
/// units where the competitor does.
proof fn lemma_best_after_in_units<K: Arithmetic>(
    k: &K,
    m: Exact,
    a: real,
    b: real,
    s: Stats,
    c: Double,
    t: Stats,
    d: Double,
    draws: nat,
    before: SmallRng,
    x: Double,
    after_x: SmallRng,
    y: Double,
    after_y: SmallRng,
)
    requires
        steady(k),
        m.sound(),
        m.ordered(),
        exact_sum(k, m, s, c, draws, before),
        exact_sum(k, m, t, d, draws, before),
        a > 0 as real,
        stats_in_units(m, a, b, s, t),
        s.n > 0,
        is_best_after_sum(k, s, c, draws, before, x, after_x),
        is_best_after_sum(k, t, d, draws, before, y, after_y),
    ensures
        after_x == after_y,
        in_units(m, a, b, c, d) && plain(c) && plain(d) ==> m.at(y) == a * m.at(x) + (draws as real) * b,
    decreases draws,
{
    if draws == 0 {
        lemma_no_return(a, b, draws as real);
    } else {
        let (p, g) = choose|p: Double, g: SmallRng|
            is_best_after_sum(k, s, c, (draws - 1) as nat, before, p, g)
                && #[trigger] adds_best_after(k, s, c, p, g, x, after_x);
        let (q, h) = choose|q: Double, h: SmallRng|
            is_best_after_sum(k, t, d, (draws - 1) as nat, before, q, h)
                && #[trigger] adds_best_after(k, t, d, q, h, y, after_y);
        lemma_best_after_in_units(k, m, a, b, s, c, t, d, (draws - 1) as nat, before, p, g, q, h);
        let (u, v) = choose|u: Double, v: Double|
            {
                &&& #[trigger] is_return_draw(k, s, g, u, after_x)
                &&& #[trigger] evaluates(k, mean_with(s, u), v)
                &&& evaluates(k, num(p).plus(num(c.larger(v))), x)
            };
        let (w, z) = choose|w: Double, z: Double|
            {
                &&& #[trigger] is_return_draw(k, t, h, w, after_y)
                &&& #[trigger] evaluates(k, mean_with(t, w), z)
                &&& evaluates(k, num(q).plus(num(d.larger(z))), y)
            };
        lemma_return_draw_in_units(k, m, a, b, s, t, g, u, after_x, w, after_y);
        if in_units(m, a, b, c, d) && plain(c) && plain(d) {
            lemma_one_return(b, 1usize as u64 as real);
            law_estimate_follows_units(
                m,
                a,
                b,
                s,
                u,
                t,
                w,
                s.mean,
                s.mean,
                t.mean,
                t.mean,
                1,
            );
            lemma_extremes_move(m, a, b, c, v, d, z);
            lemma_one_more_return(
                a,
                b,
                (draws - 1) as nat as real,
                m.at(p),
                m.at(c.larger(v)),
            );
            assert(m.at(x) == m.at(p) + m.at(c.larger(v))) by {
                reveal_with_fuel(Exact::of, 3);
            }
            assert(m.at(y) == m.at(q) + m.at(d.larger(z))) by {
                reveal_with_fuel(Exact::of, 3);
            }
        }
    }
}

/// The drawn values of a sample scale with the units.
proof fn lemma_drawn_vocs_in_units<K: Arithmetic>(
    k: &K,
    m: Exact,
    a: real,
    b: real,
    e: Seq<Edge>,
    f: Seq<Edge>,
    draws: usize,
    n: nat,
    before: SmallRng,
    xs: Seq<Double>,
    after_x: SmallRng,
    ys: Seq<Double>,
    after_y: SmallRng,
)
    requires
        steady(k),
        m.sound(),
        m.ordered(),
        exact_drawn_values(k, m, e, draws, before),
        exact_drawn_values(k, m, f, draws, before),
        a > 0 as real,
        edges_in_units(m, a, b, e, f),
        sampled_at_least(e, 1),
        draws > 0,
        n <= e.len(),
        are_drawn_vocs(k, e, draws, n, before, xs, after_x),
        are_drawn_vocs(k, f, draws, n, before, ys, after_y),
    ensures
        after_x == after_y,
        xs.len() == n && ys.len() == n,
        e.len() > 1 ==> all_in_units(m, a, 0 as real, xs, ys),
    decreases n,
{
    if n > 0 {
        let s = e[n - 1].stats;
        let t = f[n - 1].stats;
        let c = greatest_other(means(e), n - 1);
        let d = greatest_other(means(f), n - 1);
        let best = greatest(means(e));
        let other_best = greatest(means(f));
        let p = xs.drop_last();
        let q = ys.drop_last();
        let g = choose|g: SmallRng|
            are_drawn_vocs(k, e, draws, (n - 1) as nat, before, p, g) && #[trigger] is_drawn_voc(
                k,
                s,
                c,
                best,
                draws,
                g,
                xs.last(),
                after_x,
            );
        let h = choose|h: SmallRng|
            are_drawn_vocs(k, f, draws, (n - 1) as nat, before, q, h) && #[trigger] is_drawn_voc(
                k,
                t,
                d,
                other_best,
                draws,
                h,
                ys.last(),
                after_y,
            );
        lemma_drawn_vocs_in_units(k, m, a, b, e, f, draws, (n - 1) as nat, before, p, g, q, h);
        let (u, v) = choose|u: Double, v: Double|
            {
                &&& #[trigger] is_best_after_sum(k, s, c, draws as nat, g, u, after_x)
                &&& #[trigger] evaluates(k, average_rise(u, draws, best), v)
                &&& xs.last() == v.larger(Double::zero())
            };
        let (w, z) = choose|w: Double, z: Double|
            {
                &&& #[trigger] is_best_after_sum(k, t, d, draws as nat, h, w, after_y)
                &&& #[trigger] evaluates(k, average_rise(w, draws, other_best), z)
                &&& ys.last() == z.larger(Double::zero())
            };
        assert(s.n >= 1);
        lemma_best_after_in_units(k, m, a, b, s, c, t, d, draws as nat, g, u, after_x, w, after_y);
        if e.len() > 1 {
            lemma_means_in_units(m, a, b, e, f);
            lemma_ends_move(m, a, b, means(e), means(f));
            lemma_other_moves(m, a, b, means(e), means(f), n - 1);
            assert(draws as nat as real == draws as u64 as real);
            law_estimate_follows_units(
                m,
                a,
                b,
                s,
                s.mean,
                t,
                t.mean,
                u,
                best,
                w,
                other_best,
                draws,
            );
            lemma_larger_scales(m, a, v, z);
            assert forall|i: int| 0 <= i < xs.len() implies in_units(
                m,
                a,
                0 as real,
                #[trigger] xs[i],
                ys[i],
            ) && plain(xs[i]) && plain(ys[i]) by {
                if i < n - 1 {
                    assert(p[i] == xs[i]);
                    assert(q[i] == ys[i]);
                    assert(0 <= i < p.len());
                    assert(in_units(m, a, 0 as real, p[i], q[i]));
                }
            }
        }
    }
}

/// No score counts as equal to the greatest but those that are.
pub open spec fn clear_of_margins<K: Arithmetic>(k: &K, relative: bool, scores: Seq<Double>) -> bool {
    forall|i: int|
        0 <= i < scores.len() && is_close(k, relative, #[trigger] scores[i], greatest(scores))
            ==> scores[i] == greatest(scores)
}

/// The margins within which values count as equal do not bite where the policy chooses a move
/// at the node with the generator `before`.
pub open spec fn clear_choice<K: Arithmetic>(k: &K, policy: Policy, node: Node, before: SmallRng) -> bool {
    let edges = node.edges@;
    sampled_at_least(edges, needed(policy)) && edges.len() > 1 ==> match policy {
        Policy::ExactVoc => forall|scores: Seq<Double>| #[trigger]
            are_vocs(k, edges, scores) ==> clear_of_margins(k, true, scores),
        Policy::McVoc(draws) => forall|scores: Seq<Double>, after: SmallRng| #[trigger]
            are_drawn_vocs(k, edges, draws, edges.len(), before, scores, after) ==> clear_of_margins(
                k,
                false,
                scores,
            ),
        _ => true,
    }
}

proof fn lemma_tie_has_no_units<K: Arithmetic>(
    k: &K,
    relative: bool,
    xs: Seq<Double>,
    ys: Seq<Double>,
    p: Seq<usize>,
    q: Seq<usize>,
    x: usize,
)
    requires
        xs.len() == ys.len(),
        forall|i: int|
            0 <= i < xs.len() ==> (#[trigger] xs[i] == greatest(xs) <==> ys[i] == greatest(ys)),
        clear_of_margins(k, relative, xs),
        are_ties(k, relative, xs, p),
        are_ties(k, relative, ys, q),
        p.contains(x),
    ensures
        q.contains(x),
{
    let i = choose|i: int| 0 <= i < p.len() && p[i] == x;
    assert(is_tie(k, relative, xs, p[i] as int));
    assert(xs[x as int] == greatest(xs));
    if !q.contains(x) {
        assert(ys[x as int] != greatest(ys));
    }
}

proof fn lemma_ties_have_no_units<K: Arithmetic>(
    k: &K,
    m: Exact,
    a: real,
    relative: bool,
    xs: Seq<Double>,
    ys: Seq<Double>,
    p: Seq<usize>,
    q: Seq<usize>,
)
    requires
        m.ordered(),
        a > 0 as real,
        xs.len() > 0,
        all_in_units(m, a, 0 as real, xs, ys),
        clear_of_margins(k, relative, xs),
        clear_of_margins(k, relative, ys),
        are_ties(k, relative, xs, p),
        are_ties(k, relative, ys, q),
    ensures
        p == q,
{
    lemma_ends_move(m, a, 0 as real, xs, ys);
    assert forall|i: int| 0 <= i < xs.len() implies (#[trigger] xs[i] == greatest(xs) <==> ys[i]
        == greatest(ys)) by {
        assert(in_units(m, a, 0 as real, xs[i], ys[i]));
        assert(plain(xs[i]) && plain(ys[i]));
        if xs[i] == greatest(xs) {
            lemma_plain_is_unique(m, ys[i], greatest(ys));
        }
        if ys[i] == greatest(ys) {
            lemma_sign(a, m.at(xs[i]) - m.at(greatest(xs)));
            lemma_difference(a, 0 as real, m.at(xs[i]), m.at(greatest(xs)));
            lemma_plain_is_unique(m, xs[i], greatest(xs));
        }
    }
    assert forall|x: usize| p.contains(x) <==> q.contains(x) by {
        if p.contains(x) {
            lemma_tie_has_no_units(k, relative, xs, ys, p, q, x);
        }
        if q.contains(x) {
            assert forall|i: int| 0 <= i < ys.len() implies (#[trigger] ys[i] == greatest(ys) <==> xs[i]
                == greatest(xs)) by {
                assert(xs[i] == greatest(xs) <==> ys[i] == greatest(ys));
            }
            lemma_tie_has_no_units(k, relative, ys, xs, q, p, x);
        }
    }
    lemma_rising_lists_agree(p, q);
}

/// A lone move ties with itself alone.
proof fn lemma_lone_tie<K: Arithmetic>(k: &K, relative: bool, scores: Seq<Double>, ties: Seq<usize>)
    requires
        scores.len() == 1,
        are_ties(k, relative, scores, ties),
        ties.len() > 0,
    ensures
        ties == seq![0usize],
{
    assert(is_tie(k, relative, scores, ties[0] as int));
    if ties.len() > 1 {
        assert(is_tie(k, relative, scores, ties[1] as int));
        assert(ties[0] < ties[1]);
    }
    assert(ties =~= seq![0usize]);
}

/// The choice of a move has no units: at two nodes with the same samples in other units a
/// policy chooses the same move and draws the same from the generator, wherever nothing
/// rounds in what it computes at the two nodes. The policies that draw among ties do so
/// wherever no margin bites there.
pub proof fn law_choice_has_no_units<K: Arithmetic>(
    k: &K,
    m: Exact,
    a: real,
    b: real,
    policy: Policy,
    p: Node,
    q: Node,
    before: SmallRng,
    r: int,
    after_r: SmallRng,
    s: int,
    after_s: SmallRng,
)
    requires
        steady(k),
        generators_are_steady(),
        m.sound(),
        m.ordered(),
        exact_choice(k, m, policy, p, before),
        exact_choice(k, m, policy, q, before),
        a > 0 as real,
        edges_in_units(m, a, b, p.edges@, q.edges@),
        p.visits == q.visits,
        clear_choice(k, policy, p, before),
        clear_choice(k, policy, q, before),
        policy matches Policy::McVoc(draws) ==> draws > 0,
        is_choice(k, policy, p, before, r, after_r),
        is_choice(k, policy, q, before, s, after_s),
    ensures
        r == s,
        after_r == after_s,
{
    let e = p.edges@;
    let f = q.edges@;
    let want = needed(policy);
    assert forall|i: int| 0 <= i < e.len() implies (#[trigger] e[i]).stats.n == f[i].stats.n by {
        assert(stats_in_units(m, a, b, e[i].stats, f[i].stats));
    }
    assert(sampled_at_least(e, want) == sampled_at_least(f, want)) by {
        if sampled_at_least(e, want) {
            assert forall|i: int| 0 <= i < f.len() implies (#[trigger] f[i]).stats.n >= want by {
                assert(e[i].stats.n == f[i].stats.n);
            }
        }
        if sampled_at_least(f, want) {
            assert forall|i: int| 0 <= i < e.len() implies (#[trigger] e[i]).stats.n >= want by {
                assert(e[i].stats.n == f[i].stats.n);
            }
        }
    }
    if !sampled_at_least(e, want) {
        assert(e[r].stats.n == f[r].stats.n);
        assert(e[s].stats.n == f[s].stats.n);
    } else {
        assert(sampled_at_least(e, 1)) by {
            assert forall|i: int| 0 <= i < e.len() implies (#[trigger] e[i]).stats.n >= 1 by {}
        }
        match policy {
            Policy::Uct => {
                let xs = choose|xs: Seq<Double>|
                    #[trigger] are_uct_scores(k, p, xs) && first_greatest(xs, r);
                let ys = choose|ys: Seq<Double>|
                    #[trigger] are_uct_scores(k, q, ys) && first_greatest(ys, s);
                lemma_uct_has_no_units(k, m, a, b, p, q, xs, ys);
                lemma_first_greatest_once(xs, r, s);
            },
            Policy::Thompson => {
                let xs = choose|xs: Seq<Double>|
                    #[trigger] are_mean_draws(k, e, e.len(), before, xs, after_r)
                        && first_greatest(xs, r);
                let ys = choose|ys: Seq<Double>|
                    #[trigger] are_mean_draws(k, f, f.len(), before, ys, after_s)
                        && first_greatest(ys, s);
                lemma_mean_draws_in_units(k, m, a, b, e, f, e.len(), before, xs, after_r, ys, after_s);
                lemma_units_keep_order(m, a, b, xs, ys);
                lemma_same_first(xs, ys, r, s);
            },
            Policy::ExactVoc => {
                let (xs, u) = choose|xs: Seq<Double>, u: Seq<usize>| #[trigger]
                    are_vocs(k, e, xs) && #[trigger] are_ties(k, true, xs, u) && is_drawn_tie(
                        u,
                        before,
                        r,
                        after_r,
                    );
                let (ys, v) = choose|ys: Seq<Double>, v: Seq<usize>| #[trigger]
                    are_vocs(k, f, ys) && #[trigger] are_ties(k, true, ys, v) && is_drawn_tie(
                        v,
                        before,
                        s,
                        after_s,
                    );
                if e.len() > 1 {
                    lemma_vocs_in_units(k, m, a, b, e, f, xs, ys);
                    lemma_ties_have_no_units(k, m, a, true, xs, ys, u, v);
                } else {
                    lemma_lone_tie(k, true, xs, u);
                    lemma_lone_tie(k, true, ys, v);
                }
                lemma_drawn_tie_once(u, before, r, after_r, s, after_s);
            },
            Policy::McVoc(draws) => {
                let (xs, u, g) = choose|xs: Seq<Double>, u: Seq<usize>, g: SmallRng| #[trigger]
                    are_drawn_vocs(k, e, draws, e.len(), before, xs, g) && #[trigger] are_ties(
                        k,
                        false,
                        xs,
                        u,
                    ) && is_drawn_tie(u, g, r, after_r);
                let (ys, v, h) = choose|ys: Seq<Double>, v: Seq<usize>, h: SmallRng| #[trigger]
                    are_drawn_vocs(k, f, draws, f.len(), before, ys, h) && #[trigger] are_ties(
                        k,
                        false,
                        ys,
                        v,
                    ) && is_drawn_tie(v, h, s, after_s);
                lemma_drawn_vocs_in_units(
                    k,
                    m,
                    a,
                    b,
                    e,
                    f,
                    draws,
                    e.len(),
                    before,
                    xs,
                    g,
                    ys,
                    h,
                );
                if e.len() > 1 {
                    lemma_ties_have_no_units(k, m, a, false, xs, ys, u, v);
                } else {
                    lemma_lone_tie(k, false, xs, u);
                    lemma_lone_tie(k, false, ys, v);
                }
                lemma_drawn_tie_once(u, g, r, after_r, s, after_s);
            },
        }
    }
}

} // verus!
