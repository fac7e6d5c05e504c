//! Upper confidence bounds in exact arithmetic: the place of a mean in the range of the
//! returns, and a bonus whose square falls with the samples of the move and grows with the
//! logarithm of the visits.

use crate::arith::{evaluates, num, Arithmetic};
use crate::double::{first_greatest, greatest, least, Double};
use crate::estimate::Stats;
use crate::exact::{lemma_quotient, Exact};
use crate::policy::Policy;
use crate::rescale::exact_levels;
use crate::select::{
    are_uct_scores, at_least_one, bonus, is_choice, is_level, is_uct_score, level, maxima, minima,
};
use crate::tree::{sampled_at_least, Edge, Node};
use crate::units::{exact_at, lemma_against_zero, plain};
use rand::rngs::SmallRng;
use vstd::prelude::*;

verus! {

/// `g` is the greatest of the numbers.
pub open spec fn is_top(m: Exact, xs: Seq<Double>, g: real) -> bool {
    &&& forall|i: int| 0 <= i < xs.len() ==> m.at(#[trigger] xs[i]) <= g
    &&& exists|i: int| 0 <= i < xs.len() && m.at(#[trigger] xs[i]) == g
}

/// `g` is the least of the numbers.
pub open spec fn is_bottom(m: Exact, xs: Seq<Double>, g: real) -> bool {
    &&& forall|i: int| 0 <= i < xs.len() ==> m.at(#[trigger] xs[i]) >= g
    &&& exists|i: int| 0 <= i < xs.len() && m.at(#[trigger] xs[i]) == g
}

/// All of the numbers are plain.
pub open spec fn all_plain(xs: Seq<Double>) -> bool {
    forall|i: int| 0 <= i < xs.len() ==> plain(#[trigger] xs[i])
}

/// The greatest of plain numbers is one of them, and none of them is greater.
pub proof fn lemma_greatest_is_top(m: Exact, xs: Seq<Double>)
    requires
        m.ordered(),
        xs.len() > 0,
        all_plain(xs),
    ensures
        is_top(m, xs, m.at(greatest(xs))),
        plain(greatest(xs)),
    decreases xs.len(),
{
    let rest = xs.drop_last();
    let last = xs.last();
    assert(plain(xs[xs.len() - 1]));
    assert forall|i: int| 0 <= i < rest.len() implies plain(#[trigger] rest[i]) by {
        assert(rest[i] == xs[i]);
    }
    if rest.len() == 0 {
        assert(greatest(rest) == Double::neg_infinity());
        assert(greatest(xs) == last);
        assert(m.at(xs[0]) == m.at(last));
    } else {
        lemma_greatest_is_top(m, rest);
        let g = greatest(rest);
        assert(g.below(last) <==> m.at(g) < m.at(last));
        assert forall|i: int| 0 <= i < xs.len() implies m.at(#[trigger] xs[i]) <= m.at(greatest(xs)) by {
            if i < rest.len() {
                assert(rest[i] == xs[i]);
            }
        }
        let w = choose|i: int| 0 <= i < rest.len() && m.at(#[trigger] rest[i]) == m.at(g);
        assert(m.at(xs[w]) == m.at(g));
        assert(xs[xs.len() - 1] == last);
    }
}

/// The least of plain numbers is one of them, and none of them is less.
pub proof fn lemma_least_is_bottom(m: Exact, xs: Seq<Double>)
    requires
        m.ordered(),
        xs.len() > 0,
        all_plain(xs),
    ensures
        is_bottom(m, xs, m.at(least(xs))),
        plain(least(xs)),
    decreases xs.len(),
{
    let rest = xs.drop_last();
    let last = xs.last();
    assert(plain(xs[xs.len() - 1]));
    assert forall|i: int| 0 <= i < rest.len() implies plain(#[trigger] rest[i]) by {
        assert(rest[i] == xs[i]);
    }
    if rest.len() == 0 {
        assert(least(rest) == Double::infinity());
        assert(least(xs) == last);
        assert(m.at(xs[0]) == m.at(last));
    } else {
        lemma_least_is_bottom(m, rest);
        let g = least(rest);
        assert(last.below(g) <==> m.at(last) < m.at(g));
        assert forall|i: int| 0 <= i < xs.len() implies m.at(#[trigger] xs[i]) >= m.at(least(xs)) by {
            if i < rest.len() {
                assert(rest[i] == xs[i]);
            }
        }
        let w = choose|i: int| 0 <= i < rest.len() && m.at(#[trigger] rest[i]) == m.at(g);
        assert(m.at(xs[w]) == m.at(g));
        assert(xs[xs.len() - 1] == last);
    }
}

/// The first greatest of plain numbers is greater than all before it, and none after it is
/// greater.
pub proof fn lemma_first_greatest_is_top(m: Exact, xs: Seq<Double>, r: int)
    requires
        m.ordered(),
        xs.len() > 0,
        all_plain(xs),
        first_greatest(xs, r),
    ensures
        is_top(m, xs, m.at(xs[r])),
        forall|i: int| 0 <= i < r ==> m.at(#[trigger] xs[i]) < m.at(xs[r]),
        0 <= r < xs.len(),
{
    let floor = Double::neg_infinity();
    assert forall|i: int| 0 <= i < xs.len() implies floor.below(#[trigger] xs[i]) by {
        assert(plain(xs[i]));
    }
    assert(floor.below(xs[0]));
    assert(plain(xs[r]));
    assert forall|i: int| 0 <= i < xs.len() implies m.at(#[trigger] xs[i]) <= m.at(xs[r]) by {
        assert(plain(xs[i]));
        assert(!xs[r].below(xs[i]));
    }
    assert forall|i: int| 0 <= i < r implies m.at(#[trigger] xs[i]) < m.at(xs[r]) by {
        assert(plain(xs[i]));
        assert(floor.below(xs[i]));
    }
}

/// The returns sampled at the moves are finite numbers.
pub open spec fn plain_samples(edges: Seq<Edge>) -> bool {
    forall|i: int|
        0 <= i < edges.len() ==> plain((#[trigger] edges[i]).stats.mean) && plain(edges[i].stats.m2)
            && plain(edges[i].stats.min) && plain(edges[i].stats.max)
}

/// `q` is the place of a mean between the least return and the greatest: `0` at the least, `1`
/// at the greatest, and one half where they are the same.
pub open spec fn is_place(low: real, high: real, mean: real, q: real) -> bool {
    if low < high {
        q * (high - low) == mean - low
    } else {
        q + q == 1 as real
    }
}

/// `b` is the bonus of a move with `n` samples where `visits` are all: `n` times its square is
/// twice the natural logarithm of the visits.
pub open spec fn is_bonus(m: Exact, visits: u32, n: u32, b: real) -> bool {
    &&& b >= 0 as real
    &&& (n as real) * (b * b) == (2 as real) * (m.log)(visits as real)
}

/// `u` is a place and a bonus.
pub open spec fn is_bound(m: Exact, visits: u32, s: Stats, low: real, high: real, u: real) -> bool {
    exists|q: real, b: real|
        #[trigger] is_place(low, high, m.at(s.mean), q) && #[trigger] is_bonus(m, visits, s.n, b) && u == q
            + b
}

/// The numbers are the bounds of the moves, in order.
pub open spec fn are_bounds(m: Exact, node: Node, low: real, high: real, us: Seq<real>) -> bool {
    &&& us.len() == node.edges@.len()
    &&& forall|i: int|
        0 <= i < us.len() ==> is_bound(
            m,
            node.visits,
            node.edges@[i].stats,
            low,
            high,
            #[trigger] us[i],
        )
}

/// No number is greater than the one at `r`, and none before it is as great.
pub open spec fn is_first_top(us: Seq<real>, r: int) -> bool {
    &&& 0 <= r < us.len()
    &&& forall|i: int| 0 <= i < us.len() ==> #[trigger] us[i] <= us[r]
    &&& forall|i: int| 0 <= i < r ==> #[trigger] us[i] < us[r]
}

/// `low` is the least of the returns sampled at the moves, and `high` the greatest.
pub open spec fn is_range(m: Exact, edges: Seq<Edge>, low: real, high: real) -> bool {
    &&& forall|i: int|
        0 <= i < edges.len() ==> low <= m.at((#[trigger] edges[i]).stats.min) && m.at(
            edges[i].stats.max,
        ) <= high
    &&& exists|i: int| 0 <= i < edges.len() && m.at((#[trigger] edges[i]).stats.min) == low
    &&& exists|i: int| 0 <= i < edges.len() && m.at((#[trigger] edges[i]).stats.max) == high
}

/// The range of the returns, from the least and the greatest of each move.
proof fn lemma_range(m: Exact, edges: Seq<Edge>, low: real, high: real)
    requires
        is_bottom(m, minima(edges), low),
        is_top(m, maxima(edges), high),
    ensures
        is_range(m, edges, low, high),
{
    assert forall|i: int| 0 <= i < edges.len() implies low <= m.at((#[trigger] edges[i]).stats.min)
        && m.at(edges[i].stats.max) <= high by {
        assert(minima(edges)[i] == edges[i].stats.min);
        assert(maxima(edges)[i] == edges[i].stats.max);
    }
    let a = choose|i: int| 0 <= i < minima(edges).len() && m.at(#[trigger] minima(edges)[i]) == low;
    let b = choose|i: int| 0 <= i < maxima(edges).len() && m.at(#[trigger] maxima(edges)[i]) == high;
    assert(m.at(edges[a].stats.min) == low);
    assert(m.at(edges[b].stats.max) == high);
}

/// Nothing rounds in the upper confidence bounds at a node.
pub open spec fn exact_bounds<K: Arithmetic>(k: &K, m: Exact, node: Node) -> bool {
    &&& exact_levels(k, m, node)
    &&& forall|i: int, range: Double, q: Double|
        {
            &&& 0 <= i < node.edges@.len()
            &&& #[trigger] evaluates(
                k,
                num(greatest(maxima(node.edges@))).minus(num(least(minima(node.edges@)))),
                range,
            )
            &&& #[trigger] is_level(k, node.edges@[i].stats, least(minima(node.edges@)), range, q)
        } ==> exact_at(k, m, num(q).plus(bonus(at_least_one(node.visits), node.edges@[i].stats.n)))
}

proof fn lemma_bonus_square(m: Exact, two_logs: real, n: real)
    requires
        m.sound(),
        two_logs >= 0 as real,
        n > 0 as real,
    ensures
        (m.root)(two_logs / n) >= 0 as real,
        n * ((m.root)(two_logs / n) * (m.root)(two_logs / n)) == two_logs,
{
    let q = two_logs / n;
    lemma_quotient(two_logs, n, q);
    assert(q >= 0 as real) by (nonlinear_arith)
        requires
            q * n == two_logs,
            two_logs >= 0 as real,
            n > 0 as real,
    ;
    let r = (m.root)(q);
    assert(r * r == q);
    assert(n * q == q * n) by (nonlinear_arith);
}

/// In exact arithmetic `n` times the square of the bonus of a move with `n` samples is twice
/// the natural logarithm of the visits, and the bonus is not negative.
pub proof fn law_bonus_is_of_the_logarithm(m: Exact, visits: u32, n: u32)
    requires
        m.sound(),
        m.at(Double::two()) == 2 as real,
        (m.log)(visits as real) >= 0 as real,
        n > 0,
    ensures
        is_bonus(m, visits, n, m.of(bonus(visits, n))),
{
    reveal_with_fuel(Exact::of, 5);
    let two_logs = (2 as real) * (m.log)(visits as real);
    assert(visits as u64 as real == visits as real);
    assert(n as u64 as real == n as real);
    lemma_bonus_square(m, two_logs, n as real);
}

/// The bonus grows with the visits as a logarithm does: `n` times its square at `v * w` visits is
/// the sum of those at `v` and at `w` visits, and at one visit it is zero.
pub proof fn law_bonus_adds_over_products(m: Exact, v: u32, w: u32, product: u32, n: u32)
    requires
        m.sound(),
        m.at(Double::two()) == 2 as real,
        product == v * w,
        v > 0,
        w > 0,
        n > 0,
        (m.log)(1 as real) == 0 as real,
        forall|x: real| x >= 1 as real ==> #[trigger] (m.log)(x) >= 0 as real,
        (m.log)((v as real) * (w as real)) == (m.log)(v as real) + (m.log)(w as real),
    ensures
        m.of(bonus(1, n)) == 0 as real,
        (n as real) * (m.of(bonus(product, n)) * m.of(bonus(product, n))) == (n as real) * (m.of(
            bonus(v, n),
        ) * m.of(bonus(v, n))) + (n as real) * (m.of(bonus(w, n)) * m.of(bonus(w, n))),
{
    assert(product as real == (v as real) * (w as real)) by (nonlinear_arith)
        requires
            product == v * w,
    ;
    assert(product >= 1) by (nonlinear_arith)
        requires
            product == v * w,
            v > 0,
            w > 0,
    ;
    law_bonus_is_of_the_logarithm(m, product, n);
    law_bonus_is_of_the_logarithm(m, v, n);
    law_bonus_is_of_the_logarithm(m, w, n);
    law_bonus_is_of_the_logarithm(m, 1, n);
    let b = m.of(bonus(1, n));
    assert(b == 0 as real) by (nonlinear_arith)
        requires
            (n as real) * (b * b) == 0 as real,
            n as real > 0 as real,
    ;
}

/// One upper confidence bound.
proof fn lemma_bound<K: Arithmetic>(
    k: &K,
    m: Exact,
    node: Node,
    i: int,
    low: Double,
    high: Double,
    range: Double,
    score: Double,
)
    requires
        m.sound(),
        m.ordered(),
        m.at(Double::two()) == 2 as real,
        m.at(Double::half()) + m.at(Double::half()) == 1 as real,
        node.visits > 0,
        (m.log)(node.visits as real) >= 0 as real,
        0 <= i < node.edges@.len(),
        node.edges@[i].stats.n > 0,
        exact_bounds(k, m, node),
        low == least(minima(node.edges@)),
        high == greatest(maxima(node.edges@)),
        evaluates(k, num(high).minus(num(low)), range),
        is_uct_score(k, node.visits, node.edges@[i].stats, low, range, score),
    ensures
        is_bound(m, node.visits, node.edges@[i].stats, m.at(low), m.at(high), m.at(score)),
        plain(score),
{
    let s = node.edges@[i].stats;
    let top = bonus(node.visits, s.n);
    let q = choose|q: Double|
        #[trigger] is_level(k, s, low, range, q) && evaluates(
            k,
            num(q).plus(bonus(at_least_one(node.visits), s.n)),
            score,
        );
    assert(node.edges@[i].stats == s);
    assert(exact_at(k, m, num(q).plus(top)));
    assert(m.at(range) == m.at(high) - m.at(low)) by {
        reveal_with_fuel(Exact::of, 3);
    }
    lemma_against_zero(m, range);
    if Double::zero().below(range) {
        assert(exact_at(k, m, level(node.edges@[i].stats.mean, low, range)));
        assert(m.at(q) == (m.at(s.mean) - m.at(low)) / m.at(range)) by {
            reveal_with_fuel(Exact::of, 4);
        }
        lemma_quotient(m.at(s.mean) - m.at(low), m.at(range), m.at(q));
    }
    assert(is_place(m.at(low), m.at(high), m.at(s.mean), m.at(q)));
    law_bonus_is_of_the_logarithm(m, node.visits, s.n);
    assert(m.at(score) == m.at(q) + m.of(top)) by {
        reveal_with_fuel(Exact::of, 2);
    }
    assert(is_bonus(m, node.visits, s.n, m.of(top)));
}

/// In exact arithmetic the upper confidence bounds are each the place of the mean of the move
/// between the least and the greatest of all returns at the node, and a bonus of which `n` times
/// the square is twice the natural logarithm of the visits. The move that is chosen has the
/// greatest bound, and is the first that has it.
pub proof fn law_greatest_bound_is_chosen<K: Arithmetic>(
    k: &K,
    m: Exact,
    node: Node,
    before: SmallRng,
    r: int,
    after: SmallRng,
)
    requires
        m.sound(),
        m.ordered(),
        m.at(Double::two()) == 2 as real,
        m.at(Double::half()) + m.at(Double::half()) == 1 as real,
        node.visits > 0,
        (m.log)(node.visits as real) >= 0 as real,
        plain_samples(node.edges@),
        sampled_at_least(node.edges@, 1),
        exact_bounds(k, m, node),
        is_choice(k, Policy::Uct, node, before, r, after),
    ensures
        after == before,
        exists|low: real, high: real, us: Seq<real>|
            {
                &&& is_range(m, node.edges@, low, high)
                &&& #[trigger] are_bounds(m, node, low, high, us)
                &&& is_first_top(us, r)
            },
{
    let edges = node.edges@;
    let scores = choose|scores: Seq<Double>|
        #[trigger] are_uct_scores(k, node, scores) && first_greatest(scores, r);
    let low = least(minima(edges));
    let high = greatest(maxima(edges));
    let range = choose|range: Double|
        {
            &&& #[trigger] evaluates(k, num(high).minus(num(low)), range)
            &&& scores.len() == edges.len()
            &&& forall|i: int|
                0 <= i < scores.len() ==> is_uct_score(
                    k,
                    node.visits,
                    edges[i].stats,
                    low,
                    range,
                    #[trigger] scores[i],
                )
        };
    assert(all_plain(minima(edges))) by {
        assert forall|i: int| 0 <= i < minima(edges).len() implies plain(#[trigger] minima(edges)[i]) by {
            assert(plain(edges[i].stats.min));
        }
    }
    assert(all_plain(maxima(edges))) by {
        assert forall|i: int| 0 <= i < maxima(edges).len() implies plain(#[trigger] maxima(edges)[i]) by {
            assert(plain(edges[i].stats.max));
        }
    }
    lemma_least_is_bottom(m, minima(edges));
    lemma_greatest_is_top(m, maxima(edges));
    lemma_range(m, edges, m.at(low), m.at(high));
    let us = Seq::new(scores.len(), |i: int| m.at(scores[i]));
    assert forall|i: int| 0 <= i < scores.len() implies plain(#[trigger] scores[i]) && is_bound(
        m,
        node.visits,
        edges[i].stats,
        m.at(low),
        m.at(high),
        us[i],
    ) by {
        assert(edges[i].stats.n >= 1);
        lemma_bound(k, m, node, i, low, high, range, scores[i]);
    }
    lemma_first_greatest_is_top(m, scores, r);
    assert forall|i: int| 0 <= i < us.len() implies #[trigger] us[i] <= us[r] by {
        assert(m.at(scores[i]) <= m.at(scores[r]));
    }
    assert forall|i: int| 0 <= i < r implies #[trigger] us[i] < us[r] by {
        assert(m.at(scores[i]) < m.at(scores[r]));
    }
    assert forall|i: int| 0 <= i < us.len() implies is_bound(
        m,
        node.visits,
        edges[i].stats,
        m.at(low),
        m.at(high),
        #[trigger] us[i],
    ) by {
        assert(plain(scores[i]));
    }
    assert(are_bounds(m, node, m.at(low), m.at(high), us));
}

} // verus!
