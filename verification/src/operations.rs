//! Which operations are applied to what, and in which order: what rounds, rounds just there. What
//! the formulas come to exactly is in other modules; these laws hold of every number, infinities
//! and what is no number among them.

use crate::arith::{count, draws_t, evaluates, num, Arithmetic, Formula};
use crate::double::{greatest, greatest_other, law_greatest_bounds, least, Double};
use crate::estimate::{
    freedom, gain_from_above, gain_from_below, is_deviation, is_gain, is_mean_draw,
    is_return_draw, is_step_scale, is_voc, leading, mean_draw, mean_with, next_deviations,
    next_mean, proper, return_draw, steps_to, tau, uncertain, variance, Stats,
};
use crate::figures::{millis, percent, ratio};
use crate::posterior::is_student_draw;
use crate::select::{
    adds_best_after, are_drawn_vocs, are_uct_scores, at_least_one, average_rise, bonus, is_apart,
    is_best_after_sum, is_close, is_drawn_voc, is_level, is_margin, is_uct_score, level, maxima,
    minima,
};
use crate::snapshot::{entropy_of, is_action, is_snapshot, RootSnapshot};
use crate::span::Span;
use crate::summary::{mean_score, minutes, percent_of, Aggregate};
use crate::tree::{means, Edge, Node};
use rand::rngs::SmallRng;
use vstd::prelude::*;

verus! {

/// A quotient of a count: `a / n`.
pub open spec fn by_count<K: Arithmetic>(k: &K, a: Double, n: u64, r: Double) -> bool {
    exists|d: Double|
        call_ensures(K::of_count, (k, n), d) && #[trigger] call_ensures(K::over, (k, a, d), r)
}

/// The mean with one more sample: the distance of the sample from the mean by the number of samples,
/// added to the mean.
pub proof fn law_mean_moves_by_a_part_of_the_distance<K: Arithmetic>(
    k: &K,
    mean: Double,
    x: Double,
    n: u32,
    r: Double,
)
    requires
        evaluates(k, next_mean(mean, x, n), r),
    ensures
        exists|distance: Double, part: Double|
            {
                &&& #[trigger] call_ensures(K::minus, (k, x, mean), distance)
                &&& by_count(k, distance, n as u64, part)
                &&& #[trigger] call_ensures(K::plus, (k, mean, part), r)
            },
{
    reveal_with_fuel(evaluates, 4);
    let (a, part) = choose|a: Double, part: Double|
        evaluates(k, num(mean), a) && evaluates(k, num(x).minus(num(mean)).over(count(n as u64)), part)
            && #[trigger] call_ensures(K::plus, (k, a, part), r);
    let (distance, d) = choose|distance: Double, d: Double|
        evaluates(k, num(x).minus(num(mean)), distance) && evaluates(k, count(n as u64), d)
            && #[trigger] call_ensures(K::over, (k, distance, d), part);
    assert(by_count(k, distance, n as u64, part));
    assert(call_ensures(K::minus, (k, x, mean), distance));
    assert(call_ensures(K::plus, (k, mean, part), r));
}

/// The squared deviations with one more sample: the product of its distances from the means before
/// and after, added to them.
pub proof fn law_deviations_grow_by_a_product<K: Arithmetic>(
    k: &K,
    m2: Double,
    before: Double,
    after: Double,
    x: Double,
    r: Double,
)
    requires
        evaluates(k, next_deviations(m2, before, after, x), r),
    ensures
        exists|a: Double, b: Double, product: Double|
            {
                &&& #[trigger] call_ensures(K::minus, (k, x, before), a)
                &&& #[trigger] call_ensures(K::minus, (k, x, after), b)
                &&& #[trigger] call_ensures(K::times, (k, a, b), product)
                &&& call_ensures(K::plus, (k, m2, product), r)
            },
{
    reveal_with_fuel(evaluates, 4);
    let (z, product) = choose|z: Double, product: Double|
        evaluates(k, num(m2), z) && evaluates(
            k,
            num(x).minus(num(before)).times(num(x).minus(num(after))),
            product,
        ) && #[trigger] call_ensures(K::plus, (k, z, product), r);
    let (a, b) = choose|a: Double, b: Double|
        evaluates(k, num(x).minus(num(before)), a) && evaluates(k, num(x).minus(num(after)), b)
            && #[trigger] call_ensures(K::times, (k, a, b), product);
    assert(call_ensures(K::minus, (k, x, before), a));
    assert(call_ensures(K::minus, (k, x, after), b));
}

/// The standard deviation: the squared deviations by one less than the samples, zero where that
/// falls below zero, and the root of it. Fewer than two samples have none.
pub proof fn law_deviation_is_a_root<K: Arithmetic>(k: &K, s: Stats, sd: Double)
    requires
        is_deviation(k, s, sd),
    ensures
        s.n < 2 ==> sd == Double::zero(),
        s.n >= 2 ==> exists|v: Double, w: Double|
            {
                &&& #[trigger] by_count(k, s.m2, (s.n - 1) as u64, v)
                &&& v.nan() || v.below(Double::zero()) ==> w == Double::zero()
                &&& !v.nan() && !v.below(Double::zero()) ==> w == v
                &&& #[trigger] call_ensures(K::root, (k, w), sd)
            },
{
    reveal_with_fuel(evaluates, 3);
    if s.n >= 2 {
        let v = choose|v: Double| #[trigger]
            evaluates(k, variance(s), v) && evaluates(k, num(v.larger(Double::zero())).root(), sd);
        let (a, d) = choose|a: Double, d: Double|
            evaluates(k, num(s.m2), a) && evaluates(k, count((s.n - 1) as u64), d)
                && #[trigger] call_ensures(K::over, (k, a, d), v);
        assert(by_count(k, s.m2, (s.n - 1) as u64, v));
        let w = choose|w: Double|
            evaluates(k, num(v.larger(Double::zero())), w) && #[trigger] call_ensures(K::root, (k, w), sd);
        assert(w == v.larger(Double::zero()));
    }
}

/// The bonus of an upper confidence bound: twice the logarithm of the visits, by the samples of the
/// move, and the root of that.
pub proof fn law_bonus_is_a_root<K: Arithmetic>(k: &K, visits: u32, n: u32, r: Double)
    requires
        evaluates(k, bonus(visits, n), r),
    ensures
        exists|v: Double, l: Double, twice: Double, part: Double|
            {
                &&& call_ensures(K::of_count, (k, visits as u64), v)
                &&& #[trigger] call_ensures(K::log, (k, v), l)
                &&& #[trigger] call_ensures(K::times, (k, Double::two(), l), twice)
                &&& #[trigger] by_count(k, twice, n as u64, part)
                &&& call_ensures(K::root, (k, part), r)
            },
{
    reveal_with_fuel(evaluates, 6);
    let logs = num(Double::two()).times(count(visits as u64).log());
    let part = choose|part: Double|
        evaluates(k, logs.over(count(n as u64)), part) && #[trigger] call_ensures(K::root, (k, part), r);
    let (twice, d) = choose|twice: Double, d: Double|
        evaluates(k, logs, twice) && evaluates(k, count(n as u64), d) && #[trigger] call_ensures(
            K::over,
            (k, twice, d),
            part,
        );
    assert(by_count(k, twice, n as u64, part));
    let (two, l) = choose|two: Double, l: Double|
        evaluates(k, num(Double::two()), two) && evaluates(k, count(visits as u64).log(), l)
            && #[trigger] call_ensures(K::times, (k, two, l), twice);
    let v = choose|v: Double|
        evaluates(k, count(visits as u64), v) && #[trigger] call_ensures(K::log, (k, v), l);
    assert(call_ensures(K::log, (k, v), l));
    assert(call_ensures(K::times, (k, Double::two(), l), twice));
}

/// The place of a mean: its distance from the least return, by the range.
pub proof fn law_place_is_a_part_of_the_range<K: Arithmetic>(
    k: &K,
    mean: Double,
    low: Double,
    range: Double,
    r: Double,
)
    requires
        evaluates(k, level(mean, low, range), r),
    ensures
        exists|d: Double| #[trigger]
            call_ensures(K::minus, (k, mean, low), d) && call_ensures(K::over, (k, d, range), r),
{
    reveal_with_fuel(evaluates, 3);
    let (d, b) = choose|d: Double, b: Double|
        evaluates(k, num(mean).minus(num(low)), d) && evaluates(k, num(range), b)
            && #[trigger] call_ensures(K::over, (k, d, b), r);
    assert(call_ensures(K::minus, (k, mean, low), d));
}

/// A draw of the mean: the deviation by the root of the number of samples, times the draw of the
/// distribution, added to the mean.
pub proof fn law_mean_draw_is_a_scaled_draw<K: Arithmetic>(k: &K, s: Stats, sd: Double, t: Double, r: Double)
    requires
        evaluates(k, mean_draw(s, sd, t), r),
    ensures
        exists|n: Double, w: Double, scale: Double, step: Double|
            {
                &&& call_ensures(K::of_count, (k, s.n as u64), n)
                &&& #[trigger] call_ensures(K::root, (k, n), w)
                &&& #[trigger] call_ensures(K::over, (k, sd, w), scale)
                &&& #[trigger] call_ensures(K::times, (k, scale, t), step)
                &&& call_ensures(K::plus, (k, s.mean, step), r)
            },
{
    reveal_with_fuel(evaluates, 6);
    let by = num(sd).over(count(s.n as u64).root());
    let (a, step) = choose|a: Double, step: Double|
        evaluates(k, num(s.mean), a) && evaluates(k, by.times(num(t)), step) && #[trigger] call_ensures(
            K::plus,
            (k, a, step),
            r,
        );
    let (scale, b) = choose|scale: Double, b: Double|
        evaluates(k, by, scale) && evaluates(k, num(t), b) && #[trigger] call_ensures(
            K::times,
            (k, scale, b),
            step,
        );
    let (c, w) = choose|c: Double, w: Double|
        evaluates(k, num(sd), c) && evaluates(k, count(s.n as u64).root(), w)
            && #[trigger] call_ensures(K::over, (k, c, w), scale);
    let n = choose|n: Double|
        evaluates(k, count(s.n as u64), n) && #[trigger] call_ensures(K::root, (k, n), w);
    assert(call_ensures(K::root, (k, n), w));
    assert(call_ensures(K::over, (k, sd, w), scale));
    assert(call_ensures(K::times, (k, scale, t), step));
}

/// A draw of the next return: the deviation times the root of one and one by the number of samples,
/// times the draw of the distribution, added to the mean.
pub proof fn law_return_draw_is_a_scaled_draw<K: Arithmetic>(
    k: &K,
    s: Stats,
    sd: Double,
    t: Double,
    r: Double,
)
    requires
        evaluates(k, return_draw(s, sd, t), r),
    ensures
        exists|part: Double, inside: Double, w: Double, scale: Double, step: Double|
            {
                &&& by_count(k, Double::one(), s.n as u64, part)
                &&& #[trigger] call_ensures(K::plus, (k, Double::one(), part), inside)
                &&& #[trigger] call_ensures(K::root, (k, inside), w)
                &&& #[trigger] call_ensures(K::times, (k, sd, w), scale)
                &&& #[trigger] call_ensures(K::times, (k, scale, t), step)
                &&& call_ensures(K::plus, (k, s.mean, step), r)
            },
{
    reveal_with_fuel(evaluates, 7);
    let one = num(Double::one());
    let sum = one.plus(one.over(count(s.n as u64)));
    let by = num(sd).times(sum.root());
    let (a, step) = choose|a: Double, step: Double|
        evaluates(k, num(s.mean), a) && evaluates(k, by.times(num(t)), step) && #[trigger] call_ensures(
            K::plus,
            (k, a, step),
            r,
        );
    let (scale, b) = choose|scale: Double, b: Double|
        evaluates(k, by, scale) && evaluates(k, num(t), b) && #[trigger] call_ensures(
            K::times,
            (k, scale, b),
            step,
        );
    let (c, w) = choose|c: Double, w: Double|
        evaluates(k, num(sd), c) && evaluates(k, sum.root(), w) && #[trigger] call_ensures(
            K::times,
            (k, c, w),
            scale,
        );
    let inside = choose|inside: Double|
        evaluates(k, sum, inside) && #[trigger] call_ensures(K::root, (k, inside), w);
    let (u, part) = choose|u: Double, part: Double|
        evaluates(k, one, u) && evaluates(k, one.over(count(s.n as u64)), part)
            && #[trigger] call_ensures(K::plus, (k, u, part), inside);
    let (v, d) = choose|v: Double, d: Double|
        evaluates(k, one, v) && evaluates(k, count(s.n as u64), d) && #[trigger] call_ensures(
            K::over,
            (k, v, d),
            part,
        );
    assert(by_count(k, Double::one(), s.n as u64, part));
    assert(call_ensures(K::plus, (k, Double::one(), part), inside));
    assert(call_ensures(K::root, (k, inside), w));
    assert(call_ensures(K::times, (k, sd, w), scale));
    assert(call_ensures(K::times, (k, scale, t), step));
}

/// The mean and a return more: the number of samples times the mean, the return added, by the number
/// of samples and one.
pub proof fn law_updated_mean_is_a_weighted_mean<K: Arithmetic>(k: &K, s: Stats, x: Double, r: Double)
    requires
        evaluates(k, mean_with(s, x), r),
    ensures
        exists|n: Double, c: Double, sum: Double, all: Double, more: Double|
            {
                &&& call_ensures(K::of_count, (k, s.n as u64), n)
                &&& #[trigger] call_ensures(K::times, (k, n, s.mean), sum)
                &&& #[trigger] call_ensures(K::plus, (k, sum, x), all)
                &&& call_ensures(K::of_count, (k, s.n as u64), c)
                &&& #[trigger] call_ensures(K::plus, (k, c, Double::one()), more)
                &&& call_ensures(K::over, (k, all, more), r)
            },
{
    reveal_with_fuel(evaluates, 5);
    let f = count(s.n as u64);
    let (all, more) = choose|all: Double, more: Double|
        evaluates(k, f.times(num(s.mean)).plus(num(x)), all) && evaluates(
            k,
            f.plus(num(Double::one())),
            more,
        ) && #[trigger] call_ensures(K::over, (k, all, more), r);
    let (sum, b) = choose|sum: Double, b: Double|
        evaluates(k, f.times(num(s.mean)), sum) && evaluates(k, num(x), b) && #[trigger] call_ensures(
            K::plus,
            (k, sum, b),
            all,
        );
    let (n, d) = choose|n: Double, d: Double|
        evaluates(k, f, n) && evaluates(k, num(s.mean), d) && #[trigger] call_ensures(
            K::times,
            (k, n, d),
            sum,
        );
    let (c, e) = choose|c: Double, e: Double|
        evaluates(k, f, c) && evaluates(k, num(Double::one()), e) && #[trigger] call_ensures(
            K::plus,
            (k, c, e),
            more,
        );
    assert(call_ensures(K::times, (k, n, s.mean), sum));
    assert(call_ensures(K::plus, (k, sum, x), all));
    assert(call_ensures(K::plus, (k, c, Double::one()), more));
}

/// The scale of the steps: the deviation by the root of the number of samples times that and one.
pub proof fn law_step_is_by_a_root<K: Arithmetic>(k: &K, sd: Double, n: u32, r: Double)
    requires
        evaluates(k, tau(sd, n), r),
    ensures
        exists|a: Double, b: Double, more: Double, product: Double, w: Double|
            {
                &&& call_ensures(K::of_count, (k, n as u64), a)
                &&& call_ensures(K::of_count, (k, n as u64), b)
                &&& #[trigger] call_ensures(K::plus, (k, b, Double::one()), more)
                &&& #[trigger] call_ensures(K::times, (k, a, more), product)
                &&& #[trigger] call_ensures(K::root, (k, product), w)
                &&& call_ensures(K::over, (k, sd, w), r)
            },
{
    reveal_with_fuel(evaluates, 6);
    let f = count(n as u64);
    let both = f.times(f.plus(num(Double::one())));
    let (c, w) = choose|c: Double, w: Double|
        evaluates(k, num(sd), c) && evaluates(k, both.root(), w) && #[trigger] call_ensures(
            K::over,
            (k, c, w),
            r,
        );
    let product = choose|product: Double|
        evaluates(k, both, product) && #[trigger] call_ensures(K::root, (k, product), w);
    let (a, more) = choose|a: Double, more: Double|
        evaluates(k, f, a) && evaluates(k, f.plus(num(Double::one())), more) && #[trigger] call_ensures(
            K::times,
            (k, a, more),
            product,
        );
    let (b, d) = choose|b: Double, d: Double|
        evaluates(k, f, b) && evaluates(k, num(Double::one()), d) && #[trigger] call_ensures(
            K::plus,
            (k, b, d),
            more,
        );
    assert(call_ensures(K::plus, (k, b, Double::one()), more));
    assert(call_ensures(K::times, (k, a, more), product));
    assert(call_ensures(K::root, (k, product), w));
}

/// The distance of a competitor in steps: its distance from the mean, by the scale.
pub proof fn law_distance_is_in_steps<K: Arithmetic>(
    k: &K,
    competitor: Double,
    mean: Double,
    scale: Double,
    r: Double,
)
    requires
        evaluates(k, steps_to(competitor, mean, scale), r),
    ensures
        exists|d: Double| #[trigger]
            call_ensures(K::minus, (k, competitor, mean), d) && call_ensures(K::over, (k, d, scale), r),
{
    reveal_with_fuel(evaluates, 3);
    let (d, b) = choose|d: Double, b: Double|
        evaluates(k, num(competitor).minus(num(mean)), d) && evaluates(k, num(scale), b)
            && #[trigger] call_ensures(K::over, (k, d, b), r);
    assert(call_ensures(K::minus, (k, competitor, mean), d));
}

/// The rise of an average: the sum by the number of draws, less the best mean.
pub proof fn law_rise_is_over_the_best<K: Arithmetic>(k: &K, total: Double, draws: usize, best: Double, r: Double)
    requires
        evaluates(k, average_rise(total, draws, best), r),
    ensures
        exists|average: Double| #[trigger]
            by_count(k, total, draws as u64, average) && call_ensures(K::minus, (k, average, best), r),
{
    reveal_with_fuel(evaluates, 3);
    let (average, b) = choose|average: Double, b: Double|
        evaluates(k, num(total).over(count(draws as u64)), average) && evaluates(k, num(best), b)
            && #[trigger] call_ensures(K::minus, (k, average, b), r);
    let (a, d) = choose|a: Double, d: Double|
        evaluates(k, num(total), a) && evaluates(k, count(draws as u64), d) && #[trigger] call_ensures(
            K::over,
            (k, a, d),
            average,
        );
    assert(by_count(k, total, draws as u64, average));
}

/// The degrees of freedom: one less than the samples.
pub open spec fn is_freedom<K: Arithmetic>(k: &K, n: u32, nu: Double) -> bool {
    exists|c: Double|
        call_ensures(K::of_count, (k, n as u64), c) && #[trigger] call_ensures(
            K::minus,
            (k, c, Double::one()),
            nu,
        )
}

proof fn lemma_freedom<K: Arithmetic>(k: &K, n: u32, nu: Double)
    requires
        evaluates(k, freedom(n), nu),
    ensures
        is_freedom(k, n, nu),
{
    reveal_with_fuel(evaluates, 2);
    let (c, d) = choose|c: Double, d: Double|
        evaluates(k, count(n as u64), c) && evaluates(k, num(Double::one()), d)
            && #[trigger] call_ensures(K::minus, (k, c, d), nu);
    assert(call_ensures(K::minus, (k, c, Double::one()), nu));
}

/// The leading part of a gain: the degrees of freedom and the square of the distance, by the degrees
/// of freedom less one, times the density at the distance.
pub open spec fn is_leading<K: Arithmetic>(k: &K, n: u32, z: Double, r: Double) -> bool {
    exists|
        nu: Double,
        sq: Double,
        top: Double,
        mu: Double,
        below: Double,
        ratio: Double,
        xi: Double,
        f: Double,
    |
        {
            &&& is_freedom(k, n, nu)
            &&& call_ensures(K::times, (k, z, z), sq)
            &&& #[trigger] call_ensures(K::plus, (k, nu, sq), top)
            &&& is_freedom(k, n, mu)
            &&& #[trigger] call_ensures(K::minus, (k, mu, Double::one()), below)
            &&& #[trigger] call_ensures(K::over, (k, top, below), ratio)
            &&& is_freedom(k, n, xi)
            &&& #[trigger] call_ensures(K::density, (k, xi, z), f)
            &&& #[trigger] call_ensures(K::times, (k, ratio, f), r)
        }
}

proof fn lemma_leading<K: Arithmetic>(k: &K, n: u32, z: Double, r: Double)
    requires
        evaluates(k, leading(n, z), r),
    ensures
        is_leading(k, n, z, r),
{
    let nu_z = freedom(n).plus(num(z).times(num(z)));
    let less = freedom(n).minus(num(Double::one()));
    let dens = freedom(n).density(num(z));
    let (ratio, f) = choose|ratio: Double, f: Double|
        evaluates(k, nu_z.over(less), ratio) && evaluates(k, dens, f) && #[trigger] call_ensures(
            K::times,
            (k, ratio, f),
            r,
        );
    let (top, below) = choose|top: Double, below: Double|
        evaluates(k, nu_z, top) && evaluates(k, less, below) && #[trigger] call_ensures(
            K::over,
            (k, top, below),
            ratio,
        );
    let (nu, sq) = choose|nu: Double, sq: Double|
        evaluates(k, freedom(n), nu) && evaluates(k, num(z).times(num(z)), sq)
            && #[trigger] call_ensures(K::plus, (k, nu, sq), top);
    let (a, b) = choose|a: Double, b: Double|
        evaluates(k, num(z), a) && evaluates(k, num(z), b) && #[trigger] call_ensures(
            K::times,
            (k, a, b),
            sq,
        );
    assert(a == z && b == z);
    let (mu, one) = choose|mu: Double, one: Double|
        evaluates(k, freedom(n), mu) && evaluates(k, num(Double::one()), one)
            && #[trigger] call_ensures(K::minus, (k, mu, one), below);
    assert(one == Double::one());
    let (xi, c) = choose|xi: Double, c: Double|
        evaluates(k, freedom(n), xi) && evaluates(k, num(z), c) && #[trigger] call_ensures(
            K::density,
            (k, xi, c),
            f,
        );
    assert(c == z);
    lemma_freedom(k, n, nu);
    lemma_freedom(k, n, mu);
    lemma_freedom(k, n, xi);
    assert(call_ensures(K::plus, (k, nu, sq), top));
    assert(call_ensures(K::minus, (k, mu, Double::one()), below));
    assert(call_ensures(K::density, (k, xi, z), f));
}

/// The gain at a distance that is not negative: the leading part less the distance times the upper
/// tail, times the scale.
pub proof fn law_gain_from_below<K: Arithmetic>(k: &K, scale: Double, z: Double, n: u32, r: Double)
    requires
        evaluates(k, gain_from_below(scale, z, n), r),
    ensures
        exists|lead: Double, nu: Double, tail: Double, lost: Double, rest: Double|
            {
                &&& is_leading(k, n, z, lead)
                &&& is_freedom(k, n, nu)
                &&& #[trigger] call_ensures(K::upper_tail, (k, nu, z), tail)
                &&& #[trigger] call_ensures(K::times, (k, z, tail), lost)
                &&& #[trigger] call_ensures(K::minus, (k, lead, lost), rest)
                &&& call_ensures(K::times, (k, scale, rest), r)
            },
{
    let tails = num(z).times(freedom(n).upper_tail(num(z)));
    let (s, rest) = choose|s: Double, rest: Double|
        evaluates(k, num(scale), s) && evaluates(k, leading(n, z).minus(tails), rest)
            && #[trigger] call_ensures(K::times, (k, s, rest), r);
    let (lead, lost) = choose|lead: Double, lost: Double|
        evaluates(k, leading(n, z), lead) && evaluates(k, tails, lost) && #[trigger] call_ensures(
            K::minus,
            (k, lead, lost),
            rest,
        );
    let (a, tail) = choose|a: Double, tail: Double|
        evaluates(k, num(z), a) && evaluates(k, freedom(n).upper_tail(num(z)), tail)
            && #[trigger] call_ensures(K::times, (k, a, tail), lost);
    let (nu, b) = choose|nu: Double, b: Double|
        evaluates(k, freedom(n), nu) && evaluates(k, num(z), b) && #[trigger] call_ensures(
            K::upper_tail,
            (k, nu, b),
            tail,
        );
    assert(a == z && b == z && s == scale);
    lemma_leading(k, n, z, lead);
    lemma_freedom(k, n, nu);
    assert(call_ensures(K::upper_tail, (k, nu, z), tail));
    assert(call_ensures(K::times, (k, z, tail), lost));
}

/// The gain at a distance that is negative: the leading part and the distance times the lower tail,
/// times the scale.
pub proof fn law_gain_from_above<K: Arithmetic>(k: &K, scale: Double, z: Double, n: u32, r: Double)
    requires
        evaluates(k, gain_from_above(scale, z, n), r),
    ensures
        exists|lead: Double, nu: Double, tail: Double, lost: Double, rest: Double|
            {
                &&& is_leading(k, n, z, lead)
                &&& is_freedom(k, n, nu)
                &&& #[trigger] call_ensures(K::lower_tail, (k, nu, z), tail)
                &&& #[trigger] call_ensures(K::times, (k, z, tail), lost)
                &&& #[trigger] call_ensures(K::plus, (k, lead, lost), rest)
                &&& call_ensures(K::times, (k, scale, rest), r)
            },
{
    let tails = num(z).times(freedom(n).lower_tail(num(z)));
    let (s, rest) = choose|s: Double, rest: Double|
        evaluates(k, num(scale), s) && evaluates(k, leading(n, z).plus(tails), rest)
            && #[trigger] call_ensures(K::times, (k, s, rest), r);
    let (lead, lost) = choose|lead: Double, lost: Double|
        evaluates(k, leading(n, z), lead) && evaluates(k, tails, lost) && #[trigger] call_ensures(
            K::plus,
            (k, lead, lost),
            rest,
        );
    let (a, tail) = choose|a: Double, tail: Double|
        evaluates(k, num(z), a) && evaluates(k, freedom(n).lower_tail(num(z)), tail)
            && #[trigger] call_ensures(K::times, (k, a, tail), lost);
    let (nu, b) = choose|nu: Double, b: Double|
        evaluates(k, freedom(n), nu) && evaluates(k, num(z), b) && #[trigger] call_ensures(
            K::lower_tail,
            (k, nu, b),
            tail,
        );
    assert(a == z && b == z && s == scale);
    lemma_leading(k, n, z, lead);
    lemma_freedom(k, n, nu);
    assert(call_ensures(K::lower_tail, (k, nu, z), tail));
    assert(call_ensures(K::times, (k, z, tail), lost));
}

/// Draws of a mean and of a return are made alike: with fewer than three samples, or a deviation
/// that equals zero, both are the mean and nothing is drawn; else one draw of Student's t
/// distribution with one degree of freedom less than samples is made, also where the deviation is
/// no number.
pub proof fn law_draws_need_a_spread<K: Arithmetic>(
    k: &K,
    s: Stats,
    before: SmallRng,
    x: Double,
    after: SmallRng,
)
    requires
        is_mean_draw(k, s, before, x, after) || is_return_draw(k, s, before, x, after),
    ensures
        exists|sd: Double|
            {
                &&& #[trigger] is_deviation(k, s, sd)
                &&& s.n < 3 || sd.equals(Double::zero()) ==> x == s.mean && after == before
                &&& s.n >= 3 && !sd.equals(Double::zero()) ==> exists|t: Double|
                    #[trigger] is_student_draw(k, s.n, before, t, after)
            },
{
    reveal_with_fuel(evaluates, 2);
    let mean = is_mean_draw(k, s, before, x, after);
    let sd = if mean {
        choose|sd: Double|
            #[trigger] is_deviation(k, s, sd) && if uncertain(s, sd) {
                exists|t: Double|
                    #[trigger] draws_t(k, count((s.n - 1) as u64), before, t, after)
                        && evaluates(k, mean_draw(s, sd, t), x)
            } else {
                x == s.mean && after == before
            }
    } else {
        choose|sd: Double|
            #[trigger] is_deviation(k, s, sd) && if uncertain(s, sd) {
                exists|t: Double|
                    #[trigger] draws_t(k, count((s.n - 1) as u64), before, t, after)
                        && evaluates(k, return_draw(s, sd, t), x)
            } else {
                x == s.mean && after == before
            }
    };
    assert(is_deviation(k, s, sd));
    assert(sd.equals(Double::zero()) <==> !sd.nan() && sd.rank() == 0);
    if uncertain(s, sd) {
        let t = choose|t: Double| #[trigger]
            draws_t(k, count((s.n - 1) as u64), before, t, after);
        assert(is_student_draw(k, s.n, before, t, after));
    }
}

/// An upper confidence bound: the range is the greatest return at the node less the least; the place
/// of the mean in it is one half where the range is not positive; and the bonus is added, with a
/// node that was never visited counted as visited once.
pub proof fn law_bound_is_a_place_and_a_bonus<K: Arithmetic>(k: &K, node: Node, scores: Seq<Double>, i: int)
    requires
        are_uct_scores(k, node, scores),
        0 <= i < node.edges@.len(),
    ensures
        scores.len() == node.edges@.len(),
        ({
            let low = least(minima(node.edges@));
            let high = greatest(maxima(node.edges@));
            let s = node.edges@[i].stats;
            exists|range: Double, q: Double, b: Double|
                {
                    &&& #[trigger] call_ensures(K::minus, (k, high, low), range)
                    &&& !Double::zero().below(range) ==> q == Double::half()
                    &&& Double::zero().below(range) ==> evaluates(k, level(s.mean, low, range), q)
                    &&& node.visits > 0 ==> evaluates(k, bonus(node.visits, s.n), b)
                    &&& node.visits == 0 ==> evaluates(k, bonus(1, s.n), b)
                    &&& #[trigger] call_ensures(K::plus, (k, q, b), scores[i])
                }
        }),
{
    let low = least(minima(node.edges@));
    let high = greatest(maxima(node.edges@));
    let s = node.edges@[i].stats;
    let range = choose|range: Double|
        {
            &&& #[trigger] evaluates(k, num(high).minus(num(low)), range)
            &&& scores.len() == node.edges@.len()
            &&& forall|j: int|
                0 <= j < scores.len() ==> is_uct_score(
                    k,
                    node.visits,
                    node.edges@[j].stats,
                    low,
                    range,
                    #[trigger] scores[j],
                )
        };
    assert(is_uct_score(k, node.visits, s, low, range, scores[i]));
    let top = bonus(at_least_one(node.visits), s.n);
    let q = choose|q: Double|
        #[trigger] is_level(k, s, low, range, q) && evaluates(k, num(q).plus(top), scores[i]);
    let (a, b) = choose|a: Double, b: Double|
        evaluates(k, num(q), a) && evaluates(k, top, b) && #[trigger] call_ensures(
            K::plus,
            (k, a, b),
            scores[i],
        );
    assert(a == q);
    let (c, d) = choose|c: Double, d: Double|
        evaluates(k, num(high), c) && evaluates(k, num(low), d) && #[trigger] call_ensures(
            K::minus,
            (k, c, d),
            range,
        );
    assert(c == high && d == low);
    assert(call_ensures(K::minus, (k, high, low), range));
    assert(call_ensures(K::plus, (k, q, b), scores[i]));
}

/// The extremes and the means of the moves are those of their samples, in order.
pub proof fn law_moves_have_their_own_samples(edges: Seq<Edge>, i: int)
    requires
        0 <= i < edges.len(),
    ensures
        minima(edges).len() == edges.len() && minima(edges)[i] == edges[i].stats.min,
        maxima(edges).len() == edges.len() && maxima(edges)[i] == edges[i].stats.max,
        means(edges).len() == edges.len() && means(edges)[i] == edges[i].stats.mean,
{
}

/// The greater of a number and the greatest of the others equals the greatest of all with that number
/// in its place, also where some are no numbers.
pub proof fn law_number_in_place_of_another(xs: Seq<Double>, i: int, x: Double)
    requires
        0 <= i < xs.len(),
    ensures
        greatest_other(xs, i).larger(x).equals(greatest(xs.update(i, x))),
{
    let rest = xs.remove(i);
    let ys = xs.update(i, x);
    let c = greatest(rest);
    let g = greatest(ys);
    let r = c.larger(x);
    law_greatest_bounds(rest);
    law_greatest_bounds(ys);
    assert(ys[i] == x);
    assert(!r.below(g)) by {
        if g != Double::neg_infinity() {
            let j = choose|j: int| 0 <= j < ys.len() && ys[j] == g;
            if j < i {
                assert(rest[j] == g);
            } else if j > i {
                assert(rest[j - 1] == g);
            }
        }
    }
    assert(!g.below(r)) by {
        if r == x {
            assert(!g.below(ys[i]));
        } else if c != Double::neg_infinity() {
            let j = choose|j: int| 0 <= j < rest.len() && rest[j] == c;
            if j < i {
                assert(ys[j] == c);
            } else {
                assert(ys[j + 1] == c);
            }
        }
    }
}

/// Each draw of an estimate adds the greatest of the means with that of the sampled move replaced by
/// its mean with the drawn return.
pub proof fn law_draws_add_the_best_mean<K: Arithmetic>(
    k: &K,
    edges: Seq<Edge>,
    i: int,
    sum: Double,
    before: SmallRng,
    total: Double,
    after: SmallRng,
)
    requires
        0 <= i < edges.len(),
        adds_best_after(k, edges[i].stats, greatest_other(means(edges), i), sum, before, total, after),
    ensures
        exists|y: Double, mean: Double, best: Double|
            {
                &&& #[trigger] is_return_draw(k, edges[i].stats, before, y, after)
                &&& #[trigger] evaluates(k, mean_with(edges[i].stats, y), mean)
                &&& best.equals(greatest(means(edges).update(i, mean)))
                &&& #[trigger] call_ensures(K::plus, (k, sum, best), total)
            },
{
    let s = edges[i].stats;
    let c = greatest_other(means(edges), i);
    let (y, mean) = choose|y: Double, mean: Double|
        {
            &&& #[trigger] is_return_draw(k, s, before, y, after)
            &&& #[trigger] evaluates(k, mean_with(s, y), mean)
            &&& evaluates(k, num(sum).plus(num(c.larger(mean))), total)
        };
    let best = c.larger(mean);
    law_number_in_place_of_another(means(edges), i, mean);
    let (a, b) = choose|a: Double, b: Double|
        evaluates(k, num(sum), a) && evaluates(k, num(best), b) && #[trigger] call_ensures(
            K::plus,
            (k, a, b),
            total,
        );
    assert(a == sum && b == best);
    assert(is_return_draw(k, edges[i].stats, before, y, after));
    assert(evaluates(k, mean_with(edges[i].stats, y), mean));
    assert(call_ensures(K::plus, (k, sum, best), total));
}

/// The drawn values of the moves are made one move after the other, each against the best of the
/// other moves and in view of the best of all.
pub proof fn law_drawn_values_are_against_the_others<K: Arithmetic>(
    k: &K,
    edges: Seq<Edge>,
    draws: usize,
    n: nat,
    before: SmallRng,
    scores: Seq<Double>,
    after: SmallRng,
    i: int,
)
    requires
        are_drawn_vocs(k, edges, draws, n, before, scores, after),
        0 <= i < n,
        n <= edges.len(),
    ensures
        scores.len() == n,
        exists|total: Double, rise: Double, start: SmallRng, end: SmallRng|
            {
                &&& #[trigger] is_best_after_sum(
                    k,
                    edges[i].stats,
                    greatest(means(edges).remove(i)),
                    draws as nat,
                    start,
                    total,
                    end,
                )
                &&& #[trigger] evaluates(k, average_rise(total, draws, greatest(means(edges))), rise)
                &&& rise.nan() || rise.below(Double::zero()) ==> scores[i] == Double::zero()
                &&& !rise.nan() && !rise.below(Double::zero()) ==> scores[i] == rise
            },
    decreases n,
{
    let middle = choose|middle: SmallRng|
        are_drawn_vocs(k, edges, draws, (n - 1) as nat, before, scores.drop_last(), middle)
            && #[trigger] is_drawn_voc(
            k,
            edges[n - 1].stats,
            greatest_other(means(edges), n - 1),
            greatest(means(edges)),
            draws,
            middle,
            scores.last(),
            after,
        );
    if i < n - 1 {
        law_drawn_values_are_against_the_others(
            k,
            edges,
            draws,
            (n - 1) as nat,
            before,
            scores.drop_last(),
            middle,
            i,
        );
        assert(scores.drop_last()[i] == scores[i]);
    }
}

/// The value of one more sample: zero with fewer than three samples, or where the deviation or the
/// scale of the steps is not positive and finite; else the gain at the distance in steps, in the
/// form for its sign, and zero where that is negative or no number.
pub proof fn law_value_goes_by_its_cases<K: Arithmetic>(k: &K, s: Stats, competitor: Double, voc: Double)
    requires
        is_voc(k, s, competitor, voc),
    ensures
        s.n < 3 ==> voc == Double::zero(),
        s.n >= 3 ==> exists|sd: Double|
            {
                &&& #[trigger] is_deviation(k, s, sd)
                &&& !(sd.finite() && Double::zero().below(sd)) ==> voc == Double::zero()
                &&& sd.finite() && Double::zero().below(sd) ==> exists|step: Double|
                    {
                        &&& #[trigger] evaluates(k, tau(sd, s.n), step)
                        &&& !(step.finite() && Double::zero().below(step)) ==> voc == Double::zero()
                        &&& step.finite() && Double::zero().below(step) ==> is_turn(
                            k,
                            s,
                            competitor,
                            step,
                            voc,
                        )
                    }
            },
{
    let scale = choose|scale: Option<Double>|
        #[trigger] is_step_scale(k, s, scale) && match scale {
            Some(t) => exists|z: Double|
                #[trigger] evaluates(k, steps_to(competitor, s.mean, t), z) && is_gain(
                    k,
                    t,
                    z,
                    s.n,
                    voc,
                ),
            None => voc == Double::zero(),
        };
    if s.n >= 3 {
        let sd = choose|sd: Double|
            #[trigger] is_deviation(k, s, sd) && if !proper(sd) {
                scale == None::<Double>
            } else {
                exists|t: Double|
                    #[trigger] evaluates(k, tau(sd, s.n), t) && scale == (if proper(t) {
                        Some(t)
                    } else {
                        None
                    })
            };
        assert(proper(sd) <==> sd.finite() && Double::zero().below(sd));
        if proper(sd) {
            let t = choose|t: Double|
                #[trigger] evaluates(k, tau(sd, s.n), t) && scale == (if proper(t) {
                    Some(t)
                } else {
                    None
                });
            assert(proper(t) <==> t.finite() && Double::zero().below(t));
            if proper(t) {
                let z = choose|z: Double|
                    #[trigger] evaluates(k, steps_to(competitor, s.mean, t), z) && is_gain(
                        k,
                        t,
                        z,
                        s.n,
                        voc,
                    );
                assert(is_turn(k, s, competitor, t, voc)) by {
                    if Double::zero().at_most(z) {
                        let g = choose|g: Double|
                            #[trigger] evaluates(k, gain_from_below(t, z, s.n), g) && voc == g.larger(
                                Double::zero(),
                            );
                        assert(is_gain_form(k, t, z, s.n, g));
                    } else {
                        let g = choose|g: Double|
                            #[trigger] evaluates(k, gain_from_above(t, z, s.n), g) && voc == g.larger(
                                Double::zero(),
                            );
                        assert(is_gain_form(k, t, z, s.n, g));
                    }
                }
            }
        }
    }
}

/// The gain in the form for the sign of the distance.
pub open spec fn is_gain_form<K: Arithmetic>(k: &K, step: Double, z: Double, n: u32, g: Double) -> bool {
    &&& Double::zero().at_most(z) ==> evaluates(k, gain_from_below(step, z, n), g)
    &&& !Double::zero().at_most(z) ==> evaluates(k, gain_from_above(step, z, n), g)
}

/// `voc` is the gain at the distance of the competitor in steps, zero where that is negative or no
/// number.
pub open spec fn is_turn<K: Arithmetic>(k: &K, s: Stats, competitor: Double, step: Double, voc: Double) -> bool {
    exists|z: Double, g: Double|
        {
            &&& evaluates(k, steps_to(competitor, s.mean, step), z)
            &&& #[trigger] is_gain_form(k, step, z, s.n, g)
            &&& g.nan() || g.below(Double::zero()) ==> voc == Double::zero()
            &&& !g.nan() && !g.below(Double::zero()) ==> voc == g
        }
}

/// A value counts as equal to the greatest where its distance from it, without its sign, is at most
/// the margin: the tolerance, times one and the greatest without its sign where the margin is
/// relative.
pub proof fn law_ties_lie_within_the_margin<K: Arithmetic>(k: &K, relative: bool, score: Double, best: Double)
    requires
        is_close(k, relative, score, best),
    ensures
        exists|gap: Double, eps: Double|
            {
                &&& #[trigger] call_ensures(K::minus, (k, score, best), gap)
                &&& gap.unsigned().at_most(eps)
                &&& #[trigger] is_eps(k, relative, best, eps)
            },
{
    reveal_with_fuel(evaluates, 3);
    let (gap, eps) = choose|gap: Double, eps: Double|
        {
            &&& #[trigger] evaluates(k, num(score).minus(num(best)), gap)
            &&& #[trigger] is_margin(k, relative, best, eps)
            &&& gap.unsigned().at_most(eps)
        };
    let (a, b) = choose|a: Double, b: Double|
        evaluates(k, num(score), a) && evaluates(k, num(best), b) && #[trigger] call_ensures(
            K::minus,
            (k, a, b),
            gap,
        );
    assert(a == score && b == best);
    lemma_eps(k, relative, best, eps);
    assert(call_ensures(K::minus, (k, score, best), gap));
}

/// A value does not count as equal to the greatest where its distance from it is not within the
/// margin.
pub proof fn law_others_lie_beyond_the_margin<K: Arithmetic>(k: &K, relative: bool, score: Double, best: Double)
    requires
        is_apart(k, relative, score, best),
    ensures
        exists|gap: Double, eps: Double|
            {
                &&& #[trigger] call_ensures(K::minus, (k, score, best), gap)
                &&& !gap.unsigned().at_most(eps)
                &&& #[trigger] is_eps(k, relative, best, eps)
            },
{
    reveal_with_fuel(evaluates, 3);
    let (gap, eps) = choose|gap: Double, eps: Double|
        {
            &&& #[trigger] evaluates(k, num(score).minus(num(best)), gap)
            &&& #[trigger] is_margin(k, relative, best, eps)
            &&& !gap.unsigned().at_most(eps)
        };
    let (a, b) = choose|a: Double, b: Double|
        evaluates(k, num(score), a) && evaluates(k, num(best), b) && #[trigger] call_ensures(
            K::minus,
            (k, a, b),
            gap,
        );
    assert(a == score && b == best);
    lemma_eps(k, relative, best, eps);
    assert(call_ensures(K::minus, (k, score, best), gap));
}

/// The margin, from its operations.
pub open spec fn is_eps<K: Arithmetic>(k: &K, relative: bool, best: Double, eps: Double) -> bool {
    if relative {
        exists|size: Double| #[trigger]
            call_ensures(K::plus, (k, Double::one(), best.unsigned()), size) && call_ensures(
                K::times,
                (k, Double::tolerance(), size),
                eps,
            )
    } else {
        eps == Double::tolerance()
    }
}

proof fn lemma_eps<K: Arithmetic>(k: &K, relative: bool, best: Double, eps: Double)
    requires
        is_margin(k, relative, best, eps),
    ensures
        is_eps(k, relative, best, eps),
{
    if relative {
        let sum = num(Double::one()).plus(num(best.unsigned()));
        let (t, size) = choose|t: Double, size: Double|
            evaluates(k, num(Double::tolerance()), t) && evaluates(k, sum, size)
                && #[trigger] call_ensures(K::times, (k, t, size), eps);
        let (a, b) = choose|a: Double, b: Double|
            evaluates(k, num(Double::one()), a) && evaluates(k, num(best.unsigned()), b)
                && #[trigger] call_ensures(K::plus, (k, a, b), size);
        assert(call_ensures(K::plus, (k, Double::one(), best.unsigned()), size));
    }
}

/// The entropy is added up from the front: for each share, its negative times its logarithm.
pub proof fn law_entropy_is_added_up<K: Arithmetic>(k: &K, xs: Seq<Double>, p: Double, r: Double)
    requires
        evaluates(k, entropy_of(xs.push(p)), r),
    ensures
        exists|sum: Double, l: Double, term: Double|
            {
                &&& evaluates(k, entropy_of(xs), sum)
                &&& #[trigger] call_ensures(K::log, (k, p), l)
                &&& #[trigger] call_ensures(K::times, (k, p.negated(), l), term)
                &&& #[trigger] call_ensures(K::plus, (k, sum, term), r)
            },
        forall|none: Double| #[trigger]
            evaluates(k, entropy_of(Seq::<Double>::empty()), none) ==> none == Double::neg_zero(),
{
    let all = xs.push(p);
    assert(all.drop_last() =~= xs);
    let product = num(p.negated()).times(num(p).log());
    assert(entropy_of(all) == entropy_of(xs).plus(product));
    let (sum, term) = choose|sum: Double, term: Double|
        evaluates(k, entropy_of(xs), sum) && evaluates(k, product, term) && #[trigger] call_ensures(
            K::plus,
            (k, sum, term),
            r,
        );
    let (a, l) = choose|a: Double, l: Double|
        evaluates(k, num(p.negated()), a) && evaluates(k, num(p).log(), l) && #[trigger] call_ensures(
            K::times,
            (k, a, l),
            term,
        );
    let b = choose|b: Double| evaluates(k, num(p), b) && #[trigger] call_ensures(K::log, (k, b), l);
    assert(a == p.negated() && b == p);
    assert(call_ensures(K::log, (k, p), l));
    assert(call_ensures(K::times, (k, p.negated(), l), term));
}

/// What is shown of a move: its share is its samples by all samples, and its gap is its mean less the
/// greatest.
pub proof fn law_shares_and_gaps_are_computed_so<K: Arithmetic>(k: &K, root: Node, s: RootSnapshot, i: int)
    requires
        is_snapshot(k, root, s),
        0 <= i < root.edges@.len(),
    ensures
        s.total_samples > 0 ==> exists|n: Double| #[trigger]
            call_ensures(K::of_count, (k, root.edges@[i].stats.n as u64), n) && by_count(
                k,
                n,
                s.total_samples as u64,
                s.actions@[i].share,
            ),
        s.total_samples == 0 ==> s.actions@[i].share == Double::zero(),
        call_ensures(
            K::minus,
            (k, root.edges@[i].stats.mean, greatest(means(root.edges@))),
            s.actions@[i].gap_to_best,
        ),
{
    reveal_with_fuel(evaluates, 2);
    let e = root.edges@[i];
    let a = s.actions@[i];
    assert(is_action(k, root, s.total_samples, i, s.actions@[i]));
    if s.total_samples > 0 {
        let (n, d) = choose|n: Double, d: Double|
            evaluates(k, count(e.stats.n as u64), n) && evaluates(k, count(s.total_samples as u64), d)
                && #[trigger] call_ensures(K::over, (k, n, d), a.share);
        assert(call_ensures(K::of_count, (k, root.edges@[i].stats.n as u64), n));
        assert(by_count(k, n, s.total_samples as u64, a.share));
    }
}

/// Figures: a part times a hundred from the left, a count out of a total with the hundred times the
/// count first, seconds times a thousand, seconds by sixty, a count by a number, and a sum of
/// scores by their number.
pub proof fn law_figures_are_computed_so<K: Arithmetic>(
    k: &K,
    part: Double,
    n: usize,
    total: usize,
    span: Span,
    a: Aggregate,
    r: Double,
)
    ensures
        evaluates(k, percent(part), r) ==> call_ensures(K::times, (k, Double::hundred(), part), r),
        evaluates(k, percent_of(n, total), r) ==> exists|c: Double, h: Double|
            {
                &&& call_ensures(K::of_count, (k, n as u64), c)
                &&& #[trigger] call_ensures(K::times, (k, Double::hundred(), c), h)
                &&& by_count(k, h, total as u64, r)
            },
        evaluates(k, millis(span), r) ==> exists|s: Double| #[trigger]
            call_ensures(K::of_span, (k, span), s) && call_ensures(
                K::times,
                (k, s, Double::thousand()),
                r,
            ),
        evaluates(k, minutes(part), r) ==> call_ensures(K::over, (k, part, Double::sixty()), r),
        evaluates(k, ratio(n, part), r) ==> exists|c: Double| #[trigger]
            call_ensures(K::of_count, (k, n as u64), c) && call_ensures(K::over, (k, c, part), r),
        evaluates(k, mean_score(a), r) ==> exists|s: Double| #[trigger]
            call_ensures(K::of_sum, (k, a.score_sum), s) && by_count(k, s, a.count as u64, r),
{
    reveal_with_fuel(evaluates, 3);
    if evaluates(k, percent_of(n, total), r) {
        let top = num(Double::hundred()).times(count(n as u64));
        let (h, d) = choose|h: Double, d: Double|
            evaluates(k, top, h) && evaluates(k, count(total as u64), d) && #[trigger] call_ensures(
                K::over,
                (k, h, d),
                r,
            );
        let (b, c) = choose|b: Double, c: Double|
            evaluates(k, num(Double::hundred()), b) && evaluates(k, count(n as u64), c)
                && #[trigger] call_ensures(K::times, (k, b, c), h);
        assert(call_ensures(K::times, (k, Double::hundred(), c), h));
        assert(by_count(k, h, total as u64, r));
    }
    if evaluates(k, mean_score(a), r) {
        let (s, d) = choose|s: Double, d: Double|
            evaluates(k, Formula::TotalOf(a.score_sum), s) && evaluates(k, count(a.count as u64), d)
                && #[trigger] call_ensures(K::over, (k, s, d), r);
        assert(call_ensures(K::of_sum, (k, a.score_sum), s));
        assert(by_count(k, s, a.count as u64, r));
    }
}

} // verus!
