//! Draws of means and of returns in exact arithmetic: how far they fall from the mean of the
//! samples, and which of the moves a draw speaks for.

use crate::arith::{count, draws_t, evaluates, num, Arithmetic};
use crate::bounds::{all_plain, is_top, lemma_first_greatest_is_top, plain_samples};
use crate::double::{first_greatest, Double};
use crate::estimate::{
    is_deviation, is_mean_draw, is_return_draw, mean_draw, return_draw, uncertain, variance,
    Stats,
};
use crate::exact::{lemma_quotient, Exact};
use crate::policy::Policy;
use crate::rescale::exact_mean_draws;
use crate::select::{are_mean_draws, is_choice};
use crate::tree::{sampled_at_least, Edge, Node};
use crate::units::{
    exact_at, exact_deviation, exact_mean_draw, exact_return_draw, lemma_against_zero, plain,
};
use rand::rngs::SmallRng;
use vstd::prelude::*;

verus! {

/// The square of a number.
pub open spec fn square(x: real) -> real {
    x * x
}

/// `t` is drawn from Student's t distribution with `n - 1` degrees of freedom.
pub open spec fn is_student_draw<K: Arithmetic>(
    k: &K,
    n: u32,
    before: SmallRng,
    t: Double,
    after: SmallRng,
) -> bool {
    exists|freedom: Double|
        call_ensures(K::of_count, (k, (n - 1) as u64), freedom) && #[trigger] call_ensures(
            K::draw,
            (k, freedom, before),
            (t, after),
        )
}

/// A distance from the mean goes the way of the draw `t`, and `n (n - 1)` times its square is
/// `weight` times the squared deviations of the samples times the square of `t`.
pub open spec fn is_spread(m: Exact, s: Stats, weight: real, distance: real, t: Double) -> bool {
    let n = s.n as real;
    &&& (n * (n - 1 as real)) * square(distance) == weight * (m.at(s.m2) * square(m.at(t)))
    &&& distance * m.at(t) >= 0 as real
}

/// `x` is drawn about the mean of the samples: with one draw from Student's t distribution where
/// there are three samples at least and they differ, else it is the mean and nothing is drawn.
pub open spec fn is_about_mean<K: Arithmetic>(
    k: &K,
    m: Exact,
    s: Stats,
    weight: real,
    before: SmallRng,
    x: Double,
    after: SmallRng,
) -> bool {
    if s.n >= 3 && m.at(s.m2) != 0 as real {
        exists|t: Double|
            #[trigger] is_student_draw(k, s.n, before, t, after) && is_spread(
                m,
                s,
                weight,
                m.at(x) - m.at(s.mean),
                t,
            )
    } else {
        x == s.mean && after == before
    }
}

/// A square of a product is the product of the squares.
pub proof fn lemma_square_of_product(a: real, b: real)
    ensures
        square(a * b) == square(a) * square(b),
{
    assert((a * b) * (a * b) == (a * a) * (b * b)) by (nonlinear_arith);
}

pub proof fn lemma_square_is_positive(a: real)
    ensures
        square(a) >= 0 as real,
        a != 0 as real ==> square(a) > 0 as real,
        square(a) == 0 as real <==> a == 0 as real,
{
    assert(a * a >= 0 as real) by (nonlinear_arith);
    if a != 0 as real {
        assert(a * a > 0 as real) by (nonlinear_arith)
            requires
                a != 0 as real,
        ;
    } else {
        assert(a * a == 0 as real) by (nonlinear_arith)
            requires
                a == 0 as real,
        ;
    }
}

pub proof fn lemma_regroup(a: real, b: real, c: real)
    ensures
        a * (b * c) == (a * b) * c,
        a * b == b * a,
{
    assert(a * (b * c) == (a * b) * c) by (nonlinear_arith);
    assert(a * b == b * a) by (nonlinear_arith);
}

/// A product of numbers that are not negative is not negative.
pub proof fn lemma_not_negative(a: real, b: real)
    requires
        a >= 0 as real,
        b >= 0 as real,
    ensures
        a * b >= 0 as real,
{
    assert(a * b >= 0 as real) by (nonlinear_arith)
        requires
            a >= 0 as real,
            b >= 0 as real,
    ;
}

/// The standard deviation of the samples: `n - 1` times its square is the sum of their squared
/// deviations.
pub proof fn law_deviation_is_of_the_samples<K: Arithmetic>(k: &K, m: Exact, s: Stats, sd: Double)
    requires
        m.sound(),
        m.ordered(),
        s.n >= 2,
        plain(s.m2),
        m.at(s.m2) >= 0 as real,
        exact_deviation(k, m, s),
        is_deviation(k, s, sd),
    ensures
        m.at(sd) >= 0 as real,
        (s.n as real - 1 as real) * square(m.at(sd)) == m.at(s.m2),
        plain(sd),
{
    let v = choose|v: Double| #[trigger]
        evaluates(k, variance(s), v) && evaluates(k, num(v.larger(Double::zero())).root(), sd);
    let n1 = s.n as real - 1 as real;
    assert(((s.n - 1) as u64) as real == n1);
    assert(m.at(v) == m.at(s.m2) / n1) by {
        reveal_with_fuel(Exact::of, 3);
    }
    lemma_quotient(m.at(s.m2), n1, m.at(v));
    let q = m.at(v);
    assert(q >= 0 as real) by (nonlinear_arith)
        requires
            q * n1 == m.at(s.m2),
            m.at(s.m2) >= 0 as real,
            n1 > 0 as real,
    ;
    lemma_against_zero(m, v);
    assert(v.larger(Double::zero()) == v);
    assert(m.at(sd) == (m.root)(q)) by {
        reveal_with_fuel(Exact::of, 3);
    }
    assert(square(m.at(sd)) == q);
    lemma_regroup(n1, q, 1 as real);
}

proof fn lemma_parts_of_mean_draw(m: Exact, s: Stats, sd: Double, t: Double)
    ensures
        m.of(mean_draw(s, sd, t)) - m.at(s.mean) == (m.at(sd) / (m.root)(s.n as real)) * m.at(t),
{
    reveal_with_fuel(Exact::of, 5);
    assert(s.n as u64 as real == s.n as real);
}

proof fn lemma_parts_of_return_draw(m: Exact, s: Stats, sd: Double, t: Double)
    requires
        m.sound(),
    ensures
        m.of(return_draw(s, sd, t)) - m.at(s.mean) == (m.at(sd) * (m.root)(
            1 as real + 1 as real / s.n as real,
        )) * m.at(t),
{
    let one = num(Double::one());
    let n = count(s.n as u64);
    let spread = one.plus(one.over(n)).root();
    assert(s.n as u64 as real == s.n as real);
    assert(m.of(one.plus(one.over(n))) == 1 as real + 1 as real / s.n as real) by {
        reveal_with_fuel(Exact::of, 3);
    }
    assert(m.of(spread) == (m.root)(m.of(one.plus(one.over(n)))));
    assert(m.of(num(sd).times(spread)) == m.at(sd) * m.of(spread)) by {
        reveal_with_fuel(Exact::of, 2);
    }
    assert(m.of(num(sd).times(spread).times(num(t))) == m.of(num(sd).times(spread)) * m.at(t)) by {
        reveal_with_fuel(Exact::of, 2);
    }
    assert(m.of(return_draw(s, sd, t)) == m.at(s.mean) + m.of(num(sd).times(spread).times(num(t)))) by {
        reveal_with_fuel(Exact::of, 2);
    }
}

/// In exact arithmetic `n` times the squared distance of a draw of the mean from the mean is
/// `sd^2 t^2`, for every number `n` of samples, and the distance goes the way of `t`.
pub proof fn law_mean_draws_spread(m: Exact, s: Stats, sd: Double, t: Double)
    requires
        m.sound(),
        s.n > 0,
        m.at(sd) >= 0 as real,
    ensures
        (s.n as real) * square(m.of(mean_draw(s, sd, t)) - m.at(s.mean)) == square(m.at(sd)) * square(
            m.at(t),
        ),
        (m.of(mean_draw(s, sd, t)) - m.at(s.mean)) * m.at(t) >= 0 as real,
{
    let n = s.n as real;
    let w = (m.root)(n);
    assert(w * w == n);
    lemma_square_is_positive(w);
    assert(w != 0 as real);
    let d = m.at(sd) / w;
    lemma_quotient(m.at(sd), w, d);
    assert(d >= 0 as real) by (nonlinear_arith)
        requires
            d * w == m.at(sd),
            m.at(sd) >= 0 as real,
            w >= 0 as real,
            w != 0 as real,
    ;
    lemma_parts_of_mean_draw(m, s, sd, t);
    lemma_square_of_product(d, m.at(t));
    lemma_square_of_product(d, w);
    lemma_regroup(n, square(d), square(m.at(t)));
    lemma_regroup(square(d), n, 1 as real);
    lemma_regroup(d, m.at(t), m.at(t));
    lemma_square_is_positive(m.at(t));
    lemma_not_negative(d, square(m.at(t)));
}

/// In exact arithmetic `n` times the squared distance of a draw of the next return from the mean
/// is `(n + 1) sd^2 t^2`, for every number `n` of samples, and the distance goes the way of `t`.
pub proof fn law_return_draws_spread(m: Exact, s: Stats, sd: Double, t: Double)
    requires
        m.sound(),
        s.n > 0,
        m.at(sd) >= 0 as real,
    ensures
        (s.n as real) * square(m.of(return_draw(s, sd, t)) - m.at(s.mean)) == (s.n as real + 1 as real)
            * (square(m.at(sd)) * square(m.at(t))),
        (m.of(return_draw(s, sd, t)) - m.at(s.mean)) * m.at(t) >= 0 as real,
{
    let n = s.n as real;
    let one = 1 as real / n;
    lemma_quotient(1 as real, n, one);
    assert(one >= 0 as real) by (nonlinear_arith)
        requires
            one * n == 1 as real,
            n > 0 as real,
    ;
    let inside = 1 as real + one;
    let g = (m.root)(inside);
    assert(g * g == inside);
    assert(n * inside == n + one * n) by (nonlinear_arith)
        requires
            inside == 1 as real + one,
    ;
    let a = m.at(sd) * g;
    lemma_parts_of_return_draw(m, s, sd, t);
    lemma_square_of_product(a, m.at(t));
    lemma_square_of_product(m.at(sd), g);
    let ss = square(m.at(sd));
    let tt = square(m.at(t));
    assert(n * ((ss * inside) * tt) == (n * inside) * (ss * tt)) by (nonlinear_arith);
    lemma_not_negative(m.at(sd), g);
    lemma_square_is_positive(m.at(t));
    lemma_regroup(a, m.at(t), m.at(t));
    lemma_not_negative(a, tt);
}

/// From the deviation to the squared deviations of the samples.
proof fn lemma_spread(m: Exact, s: Stats, sd: real, weight: real, distance: real, t: Double)
    requires
        (s.n as real - 1 as real) * square(sd) == m.at(s.m2),
        (s.n as real) * square(distance) == weight * (square(sd) * square(m.at(t))),
        distance * m.at(t) >= 0 as real,
    ensures
        is_spread(m, s, weight, distance, t),
{
    let n = s.n as real;
    let n1 = n - 1 as real;
    let dd = square(distance);
    let ss = square(sd);
    let tt = square(m.at(t));
    assert((n * n1) * dd == n1 * (n * dd)) by (nonlinear_arith);
    assert(n1 * (weight * (ss * tt)) == weight * ((n1 * ss) * tt)) by (nonlinear_arith);
}

/// The samples leave the mean uncertain where they differ.
proof fn lemma_uncertain(m: Exact, s: Stats, sd: Double)
    requires
        m.ordered(),
        s.n >= 3,
        plain(sd),
        (s.n as real - 1 as real) * square(m.at(sd)) == m.at(s.m2),
    ensures
        uncertain(s, sd) <==> m.at(s.m2) != 0 as real,
{
    lemma_against_zero(m, sd);
    lemma_square_is_positive(m.at(sd));
    let n1 = s.n as real - 1 as real;
    let ss = square(m.at(sd));
    if ss == 0 as real {
        assert(n1 * ss == 0 as real) by (nonlinear_arith)
            requires
                ss == 0 as real,
        ;
    } else {
        assert(n1 * ss != 0 as real) by (nonlinear_arith)
            requires
                ss > 0 as real,
                n1 > 0 as real,
        ;
    }
}

proof fn lemma_student_draw<K: Arithmetic>(k: &K, n: u32, before: SmallRng, t: Double, after: SmallRng)
    requires
        draws_t(k, count((n - 1) as u64), before, t, after),
    ensures
        is_student_draw(k, n, before, t, after),
{
    reveal_with_fuel(evaluates, 2);
}

/// A draw of the mean: with one draw `t` from Student's t distribution with `n - 1` degrees of
/// freedom, where `n (n - 1)` times its squared distance from the mean of the samples is the sum
/// of their squared deviations times `t^2`. Without three samples that differ it is the mean.
pub proof fn law_means_are_drawn_about_the_mean<K: Arithmetic>(
    k: &K,
    m: Exact,
    s: Stats,
    before: SmallRng,
    x: Double,
    after: SmallRng,
)
    requires
        m.sound(),
        m.ordered(),
        plain(s.m2),
        m.at(s.m2) >= 0 as real,
        exact_mean_draw(k, m, s, before),
        is_mean_draw(k, s, before, x, after),
    ensures
        is_about_mean(k, m, s, 1 as real, before, x, after),
        plain(s.mean) ==> plain(x),
{
    let sd = choose|sd: Double|
        #[trigger] is_deviation(k, s, sd) && if uncertain(s, sd) {
            exists|t: Double|
                #[trigger] draws_t(k, count((s.n - 1) as u64), before, t, after) && evaluates(
                    k,
                    mean_draw(s, sd, t),
                    x,
                )
        } else {
            x == s.mean && after == before
        };
    if s.n >= 3 {
        law_deviation_is_of_the_samples(k, m, s, sd);
        lemma_uncertain(m, s, sd);
        if uncertain(s, sd) {
            let t = choose|t: Double|
                #[trigger] draws_t(k, count((s.n - 1) as u64), before, t, after) && evaluates(
                    k,
                    mean_draw(s, sd, t),
                    x,
                );
            assert(exact_at(k, m, mean_draw(s, sd, t)));
            law_mean_draws_spread(m, s, sd, t);
            let product = square(m.at(sd)) * square(m.at(t));
            assert((1 as real) * product == product) by (nonlinear_arith);
            lemma_spread(m, s, m.at(sd), 1 as real, m.at(x) - m.at(s.mean), t);
            lemma_student_draw(k, s.n, before, t, after);
        }
    }
}

/// A draw of the next return: with one draw `t` from Student's t distribution with `n - 1`
/// degrees of freedom, where `n (n - 1)` times its squared distance from the mean of the samples
/// is `n + 1` times the sum of their squared deviations times `t^2`. Without three samples that
/// differ it is the mean.
pub proof fn law_returns_are_drawn_about_the_mean<K: Arithmetic>(
    k: &K,
    m: Exact,
    s: Stats,
    before: SmallRng,
    x: Double,
    after: SmallRng,
)
    requires
        m.sound(),
        m.ordered(),
        plain(s.m2),
        m.at(s.m2) >= 0 as real,
        exact_return_draw(k, m, s, before),
        is_return_draw(k, s, before, x, after),
    ensures
        is_about_mean(k, m, s, s.n as real + 1 as real, before, x, after),
        plain(s.mean) ==> plain(x),
{
    let sd = choose|sd: Double|
        #[trigger] is_deviation(k, s, sd) && if uncertain(s, sd) {
            exists|t: Double|
                #[trigger] draws_t(k, count((s.n - 1) as u64), before, t, after) && evaluates(
                    k,
                    return_draw(s, sd, t),
                    x,
                )
        } else {
            x == s.mean && after == before
        };
    if s.n >= 3 {
        law_deviation_is_of_the_samples(k, m, s, sd);
        lemma_uncertain(m, s, sd);
        if uncertain(s, sd) {
            let t = choose|t: Double|
                #[trigger] draws_t(k, count((s.n - 1) as u64), before, t, after) && evaluates(
                    k,
                    return_draw(s, sd, t),
                    x,
                );
            assert(exact_at(k, m, return_draw(s, sd, t)));
            law_return_draws_spread(m, s, sd, t);
            lemma_spread(m, s, m.at(sd), s.n as real + 1 as real, m.at(x) - m.at(s.mean), t);
            lemma_student_draw(k, s.n, before, t, after);
        }
    }
}

/// The means of the first `n` moves were drawn one after the other, each about the mean of the
/// samples of its move.
pub open spec fn drawn_in_turn<K: Arithmetic>(
    k: &K,
    m: Exact,
    edges: Seq<Edge>,
    gens: Seq<SmallRng>,
    xs: Seq<Double>,
) -> bool {
    &&& gens.len() == xs.len() + 1
    &&& forall|i: int|
        0 <= i < xs.len() ==> is_about_mean(
            k,
            m,
            edges[i].stats,
            1 as real,
            gens[i],
            #[trigger] xs[i],
            gens[i + 1],
        )
}

/// The samples of the moves have squared deviations that are not negative.
pub open spec fn spread_samples(m: Exact, edges: Seq<Edge>) -> bool {
    &&& plain_samples(edges)
    &&& forall|i: int| 0 <= i < edges.len() ==> m.at((#[trigger] edges[i]).stats.m2) >= 0 as real
}

proof fn lemma_drawn_in_turn<K: Arithmetic>(
    k: &K,
    m: Exact,
    edges: Seq<Edge>,
    n: nat,
    before: SmallRng,
    xs: Seq<Double>,
    after: SmallRng,
) -> (gens: Seq<SmallRng>)
    requires
        m.sound(),
        m.ordered(),
        n <= edges.len(),
        spread_samples(m, edges),
        exact_mean_draws(k, m, edges, before),
        are_mean_draws(k, edges, n, before, xs, after),
    ensures
        drawn_in_turn(k, m, edges, gens, xs),
        xs.len() == n,
        gens[0] == before,
        gens[n as int] == after,
        all_plain(xs),
    decreases n,
{
    if n == 0 {
        seq![before]
    } else {
        let front = xs.drop_last();
        let middle = choose|middle: SmallRng|
            are_mean_draws(k, edges, (n - 1) as nat, before, front, middle) && #[trigger] is_mean_draw(
                k,
                edges[n - 1].stats,
                middle,
                xs.last(),
                after,
            );
        let rest = lemma_drawn_in_turn(k, m, edges, (n - 1) as nat, before, front, middle);
        let gens = rest.push(after);
        let e = edges[n - 1];
        assert(plain(e.stats.mean) && plain(e.stats.m2));
        assert(m.at(e.stats.m2) >= 0 as real);
        assert(exact_mean_draw(k, m, edges[(n - 1) as nat as int].stats, middle));
        law_means_are_drawn_about_the_mean(k, m, e.stats, middle, xs.last(), after);
        assert forall|i: int| 0 <= i < xs.len() implies is_about_mean(
            k,
            m,
            edges[i].stats,
            1 as real,
            gens[i],
            #[trigger] xs[i],
            gens[i + 1],
        ) by {
            if i < n - 1 {
                assert(front[i] == xs[i]);
                assert(gens[i] == rest[i] && gens[i + 1] == rest[i + 1]);
            } else {
                assert(gens[i] == middle && gens[i + 1] == after);
            }
        }
        assert forall|i: int| 0 <= i < xs.len() implies plain(#[trigger] xs[i]) by {
            if i < n - 1 {
                assert(front[i] == xs[i]);
            }
        }
        gens
    }
}

/// Thompson sampling in exact arithmetic: the mean of every move is drawn, one move after the
/// other, each about the mean of its own samples; the move that is chosen has the greatest draw,
/// and is the first that has it.
pub proof fn law_greatest_draw_is_chosen<K: Arithmetic>(
    k: &K,
    m: Exact,
    node: Node,
    before: SmallRng,
    r: int,
    after: SmallRng,
)
    requires
        m.sound(),
        m.ordered(),
        spread_samples(m, node.edges@),
        sampled_at_least(node.edges@, 3),
        exact_mean_draws(k, m, node.edges@, before),
        is_choice(k, Policy::Thompson, node, before, r, after),
    ensures
        exists|gens: Seq<SmallRng>, xs: Seq<Double>|
            {
                &&& xs.len() == node.edges@.len()
                &&& #[trigger] drawn_in_turn(k, m, node.edges@, gens, xs)
                &&& gens[0] == before
                &&& gens[xs.len() as int] == after
                &&& is_top(m, xs, m.at(xs[r]))
                &&& forall|i: int| 0 <= i < r ==> m.at(#[trigger] xs[i]) < m.at(xs[r])
            },
{
    let edges = node.edges@;
    let xs = choose|xs: Seq<Double>|
        #[trigger] are_mean_draws(k, edges, edges.len(), before, xs, after) && first_greatest(xs, r);
    let gens = lemma_drawn_in_turn(k, m, edges, edges.len(), before, xs, after);
    lemma_first_greatest_is_top(m, xs, r);
}

} // verus!
