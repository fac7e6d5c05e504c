//! Where the operations of the arithmetic and the draws from a generator answer the same
//! question always in the same way, the estimates and the choice of a move are functions of
//! what they start from.

use crate::arith::{count, draws_t, evaluates, num, Arithmetic, Formula};
use crate::double::{first_greatest, greatest, greatest_above, greatest_other, least, Double};
use crate::estimate::{
    is_deviation, is_gain, is_mean_draw, is_return_draw, is_step_scale, is_switch, is_voc,
    is_voc_and_switch, law_values_are_bounded, mean_draw, mean_with, next_deviations, next_mean, proper, return_draw,
    steps_to, tau, uncertain, variance, with_sample, Stats,
};
use crate::policy::Policy;
use crate::random::{draws_below, draws_word, is_seeded};
use crate::select::{
    adds_best_after, are_drawn_vocs, are_mean_draws, are_ties, are_uct_scores, are_vocs,
    at_least_one, average_rise, bonus, is_apart, is_best_after_sum, is_choice, is_close,
    is_drawn_tie, is_drawn_voc, is_level, is_margin, is_tie, is_uct_score, maxima, minima, needed,
};
use crate::snapshot::{is_action, is_max_voc, is_snapshot, RootSnapshot};
use crate::span::Span;
use crate::tree::{means, sampled_at_least, Edge, Node};
use rand::rngs::SmallRng;
use vstd::prelude::*;

verus! {

/// The operations of the arithmetic are functions of what they are applied to.
pub open spec fn steady<K: Arithmetic>(k: &K) -> bool {
    &&& forall|a: Double, b: Double, x: Double, y: Double| #[trigger]
        call_ensures(K::plus, (k, a, b), x) && #[trigger] call_ensures(K::plus, (k, a, b), y) ==> x == y
    &&& forall|a: Double, b: Double, x: Double, y: Double| #[trigger]
        call_ensures(K::minus, (k, a, b), x) && #[trigger] call_ensures(K::minus, (k, a, b), y)
            ==> x == y
    &&& forall|a: Double, b: Double, x: Double, y: Double| #[trigger]
        call_ensures(K::times, (k, a, b), x) && #[trigger] call_ensures(K::times, (k, a, b), y)
            ==> x == y
    &&& forall|a: Double, b: Double, x: Double, y: Double| #[trigger]
        call_ensures(K::over, (k, a, b), x) && #[trigger] call_ensures(K::over, (k, a, b), y) ==> x == y
    &&& forall|a: Double, x: Double, y: Double| #[trigger]
        call_ensures(K::root, (k, a), x) && #[trigger] call_ensures(K::root, (k, a), y) ==> x == y
    &&& forall|a: Double, x: Double, y: Double| #[trigger]
        call_ensures(K::log, (k, a), x) && #[trigger] call_ensures(K::log, (k, a), y) ==> x == y
    &&& forall|n: u64, x: Double, y: Double| #[trigger]
        call_ensures(K::of_count, (k, n), x) && #[trigger] call_ensures(K::of_count, (k, n), y)
            ==> x == y
    &&& forall|n: u128, x: Double, y: Double| #[trigger]
        call_ensures(K::of_sum, (k, n), x) && #[trigger] call_ensures(K::of_sum, (k, n), y) ==> x == y
    &&& forall|s: Span, x: Double, y: Double| #[trigger]
        call_ensures(K::of_span, (k, s), x) && #[trigger] call_ensures(K::of_span, (k, s), y) ==> x == y
    &&& forall|a: Double, b: Double, x: Double, y: Double| #[trigger]
        call_ensures(K::density, (k, a, b), x) && #[trigger] call_ensures(K::density, (k, a, b), y)
            ==> x == y
    &&& forall|a: Double, b: Double, x: Double, y: Double| #[trigger]
        call_ensures(K::lower_tail, (k, a, b), x) && #[trigger] call_ensures(
            K::lower_tail,
            (k, a, b),
            y,
        ) ==> x == y
    &&& forall|a: Double, b: Double, x: Double, y: Double| #[trigger]
        call_ensures(K::upper_tail, (k, a, b), x) && #[trigger] call_ensures(
            K::upper_tail,
            (k, a, b),
            y,
        ) ==> x == y
    &&& forall|a: Double, rng: SmallRng, x: (Double, SmallRng), y: (Double, SmallRng)| #[trigger]
        call_ensures(K::draw, (k, a, rng), x) && #[trigger] call_ensures(K::draw, (k, a, rng), y)
            ==> x == y
}

/// What is drawn from a generator, and the state that it is left in, follow from its state,
/// and that from the seed.
pub open spec fn generators_are_steady() -> bool {
    &&& forall|rng: SmallRng, n: usize, a: usize, after_a: SmallRng, b: usize, after_b: SmallRng|
        #[trigger] draws_below(rng, n, a, after_a) && #[trigger] draws_below(rng, n, b, after_b)
            ==> a == b && after_a == after_b
    &&& forall|rng: SmallRng, a: u64, after_a: SmallRng, b: u64, after_b: SmallRng|
        #[trigger] draws_word(rng, a, after_a) && #[trigger] draws_word(rng, b, after_b) ==> a == b
            && after_a == after_b
    &&& forall|seed: u64, a: SmallRng, b: SmallRng|
        #[trigger] is_seeded(seed, a) && #[trigger] is_seeded(seed, b) ==> a == b
}

/// A formula comes to one number.
pub proof fn lemma_evaluates_once<K: Arithmetic>(k: &K, e: Formula, x: Double, y: Double)
    requires
        steady(k),
        evaluates(k, e, x),
        evaluates(k, e, y),
    ensures
        x == y,
    decreases e,
{
    match e {
        Formula::Number(_) => {},
        Formula::Count(_) => {},
        Formula::TotalOf(_) => {},
        Formula::Seconds(_) => {},
        Formula::Plus(a, b) => {
            let (p, q) = choose|p: Double, q: Double|
                evaluates(k, *a, p) && evaluates(k, *b, q) && #[trigger] call_ensures(K::plus, (k, p, q), x);
            let (r, s) = choose|r: Double, s: Double|
                evaluates(k, *a, r) && evaluates(k, *b, s) && #[trigger] call_ensures(K::plus, (k, r, s), y);
            lemma_evaluates_once(k, *a, p, r);
            lemma_evaluates_once(k, *b, q, s);
        },
        Formula::Minus(a, b) => {
            let (p, q) = choose|p: Double, q: Double|
                evaluates(k, *a, p) && evaluates(k, *b, q) && #[trigger] call_ensures(K::minus, (k, p, q), x);
            let (r, s) = choose|r: Double, s: Double|
                evaluates(k, *a, r) && evaluates(k, *b, s) && #[trigger] call_ensures(K::minus, (k, r, s), y);
            lemma_evaluates_once(k, *a, p, r);
            lemma_evaluates_once(k, *b, q, s);
        },
        Formula::Times(a, b) => {
            let (p, q) = choose|p: Double, q: Double|
                evaluates(k, *a, p) && evaluates(k, *b, q) && #[trigger] call_ensures(K::times, (k, p, q), x);
            let (r, s) = choose|r: Double, s: Double|
                evaluates(k, *a, r) && evaluates(k, *b, s) && #[trigger] call_ensures(K::times, (k, r, s), y);
            lemma_evaluates_once(k, *a, p, r);
            lemma_evaluates_once(k, *b, q, s);
        },
        Formula::Over(a, b) => {
            let (p, q) = choose|p: Double, q: Double|
                evaluates(k, *a, p) && evaluates(k, *b, q) && #[trigger] call_ensures(K::over, (k, p, q), x);
            let (r, s) = choose|r: Double, s: Double|
                evaluates(k, *a, r) && evaluates(k, *b, s) && #[trigger] call_ensures(K::over, (k, r, s), y);
            lemma_evaluates_once(k, *a, p, r);
            lemma_evaluates_once(k, *b, q, s);
        },
        Formula::Root(a) => {
            let p = choose|p: Double| evaluates(k, *a, p) && #[trigger] call_ensures(K::root, (k, p), x);
            let r = choose|r: Double| evaluates(k, *a, r) && #[trigger] call_ensures(K::root, (k, r), y);
            lemma_evaluates_once(k, *a, p, r);
        },
        Formula::Log(a) => {
            let p = choose|p: Double| evaluates(k, *a, p) && #[trigger] call_ensures(K::log, (k, p), x);
            let r = choose|r: Double| evaluates(k, *a, r) && #[trigger] call_ensures(K::log, (k, r), y);
            lemma_evaluates_once(k, *a, p, r);
        },
        Formula::Density(a, b) => {
            let (p, q) = choose|p: Double, q: Double|
                evaluates(k, *a, p) && evaluates(k, *b, q) && #[trigger] call_ensures(
                    K::density,
                    (k, p, q),
                    x,
                );
            let (r, s) = choose|r: Double, s: Double|
                evaluates(k, *a, r) && evaluates(k, *b, s) && #[trigger] call_ensures(
                    K::density,
                    (k, r, s),
                    y,
                );
            lemma_evaluates_once(k, *a, p, r);
            lemma_evaluates_once(k, *b, q, s);
        },
        Formula::LowerTail(a, b) => {
            let (p, q) = choose|p: Double, q: Double|
                evaluates(k, *a, p) && evaluates(k, *b, q) && #[trigger] call_ensures(
                    K::lower_tail,
                    (k, p, q),
                    x,
                );
            let (r, s) = choose|r: Double, s: Double|
                evaluates(k, *a, r) && evaluates(k, *b, s) && #[trigger] call_ensures(
                    K::lower_tail,
                    (k, r, s),
                    y,
                );
            lemma_evaluates_once(k, *a, p, r);
            lemma_evaluates_once(k, *b, q, s);
        },
        Formula::UpperTail(a, b) => {
            let (p, q) = choose|p: Double, q: Double|
                evaluates(k, *a, p) && evaluates(k, *b, q) && #[trigger] call_ensures(
                    K::upper_tail,
                    (k, p, q),
                    x,
                );
            let (r, s) = choose|r: Double, s: Double|
                evaluates(k, *a, r) && evaluates(k, *b, s) && #[trigger] call_ensures(
                    K::upper_tail,
                    (k, r, s),
                    y,
                );
            lemma_evaluates_once(k, *a, p, r);
            lemma_evaluates_once(k, *b, q, s);
        },
    }
}

/// Every formula comes to one number.
pub open spec fn evaluates_once<K: Arithmetic>(k: &K) -> bool {
    forall|e: Formula, x: Double, y: Double| #[trigger]
        evaluates(k, e, x) && #[trigger] evaluates(k, e, y) ==> x == y
}

/// Where the operations are steady, so are the formulas.
pub proof fn lemma_all_evaluate_once<K: Arithmetic>(k: &K)
    requires
        steady(k),
    ensures
        evaluates_once(k),
{
    assert forall|e: Formula, x: Double, y: Double| #[trigger]
        evaluates(k, e, x) && #[trigger] evaluates(k, e, y) implies x == y by {
        lemma_evaluates_once(k, e, x, y);
    }
}

/// Samples have one deviation.
pub proof fn lemma_deviation_once<K: Arithmetic>(k: &K, s: Stats, x: Double, y: Double)
    requires
        steady(k),
        is_deviation(k, s, x),
        is_deviation(k, s, y),
    ensures
        x == y,
{
    lemma_all_evaluate_once(k);
    if s.n >= 2 {
        let v = choose|v: Double| #[trigger]
            evaluates(k, variance(s), v) && evaluates(
                k,
                num(v.larger(Double::zero())).root(),
                x,
            );
        let w = choose|w: Double| #[trigger]
            evaluates(k, variance(s), w) && evaluates(
                k,
                num(w.larger(Double::zero())).root(),
                y,
            );
        lemma_evaluates_once(k, variance(s), v, w);
        lemma_evaluates_once(k, num(v.larger(Double::zero())).root(), x, y);
    }
}

/// One draw from Student's t distribution leads to one number and one generator.
pub proof fn lemma_t_once<K: Arithmetic>(
    k: &K,
    freedom: Formula,
    before: SmallRng,
    x: Double,
    after_x: SmallRng,
    y: Double,
    after_y: SmallRng,
)
    requires
        steady(k),
        draws_t(k, freedom, before, x, after_x),
        draws_t(k, freedom, before, y, after_y),
    ensures
        x == y,
        after_x == after_y,
{
    let f = choose|f: Double|
        evaluates(k, freedom, f) && #[trigger] call_ensures(K::draw, (k, f, before), (x, after_x));
    let g = choose|g: Double|
        evaluates(k, freedom, g) && #[trigger] call_ensures(K::draw, (k, g, before), (y, after_y));
    lemma_evaluates_once(k, freedom, f, g);
    assert((x, after_x) == (y, after_y));
}

/// One draw of the mean.
pub proof fn lemma_mean_draw_once<K: Arithmetic>(
    k: &K,
    s: Stats,
    before: SmallRng,
    x: Double,
    after_x: SmallRng,
    y: Double,
    after_y: SmallRng,
)
    requires
        steady(k),
        is_mean_draw(k, s, before, x, after_x),
        is_mean_draw(k, s, before, y, after_y),
    ensures
        x == y,
        after_x == after_y,
{
    let freedom = count((s.n - 1) as u64);
    let a = choose|a: Double|
        #[trigger] is_deviation(k, s, a) && if uncertain(s, a) {
            exists|t: Double|
                #[trigger] draws_t(k, freedom, before, t, after_x) && evaluates(k, mean_draw(s, a, t), x)
        } else {
            x == s.mean && after_x == before
        };
    let b = choose|b: Double|
        #[trigger] is_deviation(k, s, b) && if uncertain(s, b) {
            exists|t: Double|
                #[trigger] draws_t(k, freedom, before, t, after_y) && evaluates(k, mean_draw(s, b, t), y)
        } else {
            y == s.mean && after_y == before
        };
    lemma_deviation_once(k, s, a, b);
    if uncertain(s, a) {
        let t = choose|t: Double|
            #[trigger] draws_t(k, freedom, before, t, after_x) && evaluates(k, mean_draw(s, a, t), x);
        let u = choose|u: Double|
            #[trigger] draws_t(k, freedom, before, u, after_y) && evaluates(k, mean_draw(s, b, u), y);
        lemma_t_once(k, freedom, before, t, after_x, u, after_y);
        lemma_evaluates_once(k, mean_draw(s, a, t), x, y);
    }
}

/// One draw of the next return.
pub proof fn lemma_return_draw_once<K: Arithmetic>(
    k: &K,
    s: Stats,
    before: SmallRng,
    x: Double,
    after_x: SmallRng,
    y: Double,
    after_y: SmallRng,
)
    requires
        steady(k),
        is_return_draw(k, s, before, x, after_x),
        is_return_draw(k, s, before, y, after_y),
    ensures
        x == y,
        after_x == after_y,
{
    let freedom = count((s.n - 1) as u64);
    let a = choose|a: Double|
        #[trigger] is_deviation(k, s, a) && if uncertain(s, a) {
            exists|t: Double|
                #[trigger] draws_t(k, freedom, before, t, after_x) && evaluates(
                    k,
                    return_draw(s, a, t),
                    x,
                )
        } else {
            x == s.mean && after_x == before
        };
    let b = choose|b: Double|
        #[trigger] is_deviation(k, s, b) && if uncertain(s, b) {
            exists|t: Double|
                #[trigger] draws_t(k, freedom, before, t, after_y) && evaluates(
                    k,
                    return_draw(s, b, t),
                    y,
                )
        } else {
            y == s.mean && after_y == before
        };
    lemma_deviation_once(k, s, a, b);
    if uncertain(s, a) {
        let t = choose|t: Double|
            #[trigger] draws_t(k, freedom, before, t, after_x) && evaluates(k, return_draw(s, a, t), x);
        let u = choose|u: Double|
            #[trigger] draws_t(k, freedom, before, u, after_y) && evaluates(k, return_draw(s, b, u), y);
        lemma_t_once(k, freedom, before, t, after_x, u, after_y);
        lemma_evaluates_once(k, return_draw(s, a, t), x, y);
    }
}

/// One sample taken in.
pub proof fn lemma_sample_once<K: Arithmetic>(k: &K, before: Stats, x: Double, a: Stats, b: Stats)
    requires
        steady(k),
        with_sample(k, before, x, a),
        with_sample(k, before, x, b),
    ensures
        a == b,
{
    if before.n > 0 {
        lemma_evaluates_once(k, next_mean(before.mean, x, a.n), a.mean, b.mean);
        lemma_evaluates_once(
            k,
            next_deviations(before.m2, before.mean, a.mean, x),
            a.m2,
            b.m2,
        );
    }
}

/// One scale of the steps.
pub proof fn lemma_step_scale_once<K: Arithmetic>(k: &K, s: Stats, a: Option<Double>, b: Option<Double>)
    requires
        steady(k),
        is_step_scale(k, s, a),
        is_step_scale(k, s, b),
    ensures
        a == b,
{
    if s.n >= 3 {
        let x = choose|x: Double|
            #[trigger] is_deviation(k, s, x) && if !proper(x) {
                a == None::<Double>
            } else {
                exists|t: Double|
                    #[trigger] evaluates(k, tau(x, s.n), t) && a == (if proper(t) {
                        Some(t)
                    } else {
                        None
                    })
            };
        let y = choose|y: Double|
            #[trigger] is_deviation(k, s, y) && if !proper(y) {
                b == None::<Double>
            } else {
                exists|t: Double|
                    #[trigger] evaluates(k, tau(y, s.n), t) && b == (if proper(t) {
                        Some(t)
                    } else {
                        None
                    })
            };
        lemma_deviation_once(k, s, x, y);
        lemma_all_evaluate_once(k);
    }
}

/// One value of a sample.
pub proof fn lemma_voc_once<K: Arithmetic>(k: &K, s: Stats, competitor: Double, x: Double, y: Double)
    requires
        steady(k),
        is_voc(k, s, competitor, x),
        is_voc(k, s, competitor, y),
    ensures
        x == y,
{
    lemma_all_evaluate_once(k);
    let a = choose|a: Option<Double>|
        #[trigger] is_step_scale(k, s, a) && match a {
            Some(t) => exists|z: Double|
                #[trigger] evaluates(k, steps_to(competitor, s.mean, t), z) && is_gain(k, t, z, s.n, x),
            None => x == Double::zero(),
        };
    let b = choose|b: Option<Double>|
        #[trigger] is_step_scale(k, s, b) && match b {
            Some(t) => exists|z: Double|
                #[trigger] evaluates(k, steps_to(competitor, s.mean, t), z) && is_gain(k, t, z, s.n, y),
            None => y == Double::zero(),
        };
    lemma_step_scale_once(k, s, a, b);
    if let Some(t) = a {
        let z = choose|z: Double|
            #[trigger] evaluates(k, steps_to(competitor, s.mean, t), z) && is_gain(k, t, z, s.n, x);
        let w = choose|w: Double|
            #[trigger] evaluates(k, steps_to(competitor, s.mean, t), w) && is_gain(k, t, w, s.n, y);
        assert(z == w);
    }
}

/// Two lists of moves have the same samples.
pub open spec fn alike(e: Seq<Edge>, f: Seq<Edge>) -> bool {
    &&& e.len() == f.len()
    &&& forall|i: int| 0 <= i < e.len() ==> (#[trigger] e[i]).stats == f[i].stats
}

proof fn lemma_alike_means(e: Seq<Edge>, f: Seq<Edge>)
    requires
        alike(e, f),
    ensures
        means(e) == means(f),
        minima(e) == minima(f),
        maxima(e) == maxima(f),
{
    assert forall|i: int| 0 <= i < e.len() implies means(e)[i] == means(f)[i] && minima(e)[i]
        == minima(f)[i] && maxima(e)[i] == maxima(f)[i] by {
        assert(e[i].stats == f[i].stats);
    }
    assert(means(e) =~= means(f));
    assert(minima(e) =~= minima(f));
    assert(maxima(e) =~= maxima(f));
}

proof fn lemma_mean_draws_once<K: Arithmetic>(
    k: &K,
    e: Seq<Edge>,
    f: Seq<Edge>,
    n: nat,
    before: SmallRng,
    xs: Seq<Double>,
    after_x: SmallRng,
    ys: Seq<Double>,
    after_y: SmallRng,
)
    requires
        steady(k),
        alike(e, f),
        n <= e.len(),
        are_mean_draws(k, e, n, before, xs, after_x),
        are_mean_draws(k, f, n, before, ys, after_y),
    ensures
        xs == ys,
        after_x == after_y,
    decreases n,
{
    if n > 0 {
        let a = choose|a: SmallRng|
            are_mean_draws(k, e, (n - 1) as nat, before, xs.drop_last(), a) && #[trigger] is_mean_draw(
                k,
                e[n - 1].stats,
                a,
                xs.last(),
                after_x,
            );
        let b = choose|b: SmallRng|
            are_mean_draws(k, f, (n - 1) as nat, before, ys.drop_last(), b) && #[trigger] is_mean_draw(
                k,
                f[n - 1].stats,
                b,
                ys.last(),
                after_y,
            );
        lemma_mean_draws_once(k, e, f, (n - 1) as nat, before, xs.drop_last(), a, ys.drop_last(), b);
        assert(e[n - 1].stats == f[n - 1].stats);
        lemma_mean_draw_once(k, e[n - 1].stats, a, xs.last(), after_x, ys.last(), after_y);
        assert(xs =~= xs.drop_last().push(xs.last()));
        assert(ys =~= ys.drop_last().push(ys.last()));
    } else {
        assert(xs =~= ys);
    }
}

proof fn lemma_best_after_once<K: Arithmetic>(
    k: &K,
    s: Stats,
    competitor: Double,
    draws: nat,
    before: SmallRng,
    x: Double,
    after_x: SmallRng,
    y: Double,
    after_y: SmallRng,
)
    requires
        steady(k),
        is_best_after_sum(k, s, competitor, draws, before, x, after_x),
        is_best_after_sum(k, s, competitor, draws, before, y, after_y),
    ensures
        x == y,
        after_x == after_y,
    decreases draws,
{
    if draws > 0 {
        let (a, ga) = choose|a: Double, ga: SmallRng|
            is_best_after_sum(k, s, competitor, (draws - 1) as nat, before, a, ga)
                && #[trigger] adds_best_after(k, s, competitor, a, ga, x, after_x);
        let (b, gb) = choose|b: Double, gb: SmallRng|
            is_best_after_sum(k, s, competitor, (draws - 1) as nat, before, b, gb)
                && #[trigger] adds_best_after(k, s, competitor, b, gb, y, after_y);
        lemma_best_after_once(k, s, competitor, (draws - 1) as nat, before, a, ga, b, gb);
        let (u, m) = choose|u: Double, m: Double|
            {
                &&& #[trigger] is_return_draw(k, s, ga, u, after_x)
                &&& #[trigger] evaluates(k, mean_with(s, u), m)
                &&& evaluates(k, num(a).plus(num(competitor.larger(m))), x)
            };
        let (v, n) = choose|v: Double, n: Double|
            {
                &&& #[trigger] is_return_draw(k, s, gb, v, after_y)
                &&& #[trigger] evaluates(k, mean_with(s, v), n)
                &&& evaluates(k, num(b).plus(num(competitor.larger(n))), y)
            };
        lemma_return_draw_once(k, s, ga, u, after_x, v, after_y);
        lemma_evaluates_once(k, mean_with(s, u), m, n);
        lemma_evaluates_once(k, num(a).plus(num(competitor.larger(m))), x, y);
    }
}

proof fn lemma_drawn_vocs_once<K: Arithmetic>(
    k: &K,
    e: Seq<Edge>,
    f: Seq<Edge>,
    draws: usize,
    n: nat,
    before: SmallRng,
    xs: Seq<Double>,
    after_x: SmallRng,
    ys: Seq<Double>,
    after_y: SmallRng,
)
    requires
        steady(k),
        alike(e, f),
        n <= e.len(),
        are_drawn_vocs(k, e, draws, n, before, xs, after_x),
        are_drawn_vocs(k, f, draws, n, before, ys, after_y),
    ensures
        xs == ys,
        after_x == after_y,
    decreases n,
{
    if n > 0 {
        lemma_alike_means(e, f);
        let s = e[n - 1].stats;
        assert(s == f[n - 1].stats);
        let other = greatest_other(means(e), n - 1);
        let best = greatest(means(e));
        let a = choose|a: SmallRng|
            are_drawn_vocs(k, e, draws, (n - 1) as nat, before, xs.drop_last(), a)
                && #[trigger] is_drawn_voc(k, s, other, best, draws, a, xs.last(), after_x);
        let b = choose|b: SmallRng|
            are_drawn_vocs(k, f, draws, (n - 1) as nat, before, ys.drop_last(), b)
                && #[trigger] is_drawn_voc(k, s, other, best, draws, b, ys.last(), after_y);
        lemma_drawn_vocs_once(
            k,
            e,
            f,
            draws,
            (n - 1) as nat,
            before,
            xs.drop_last(),
            a,
            ys.drop_last(),
            b,
        );
        let (t, p) = choose|t: Double, p: Double|
            {
                &&& #[trigger] is_best_after_sum(k, s, other, draws as nat, a, t, after_x)
                &&& #[trigger] evaluates(k, average_rise(t, draws, best), p)
                &&& xs.last() == p.larger(Double::zero())
            };
        let (u, q) = choose|u: Double, q: Double|
            {
                &&& #[trigger] is_best_after_sum(k, s, other, draws as nat, b, u, after_y)
                &&& #[trigger] evaluates(k, average_rise(u, draws, best), q)
                &&& ys.last() == q.larger(Double::zero())
            };
        lemma_best_after_once(k, s, other, draws as nat, a, t, after_x, u, after_y);
        lemma_evaluates_once(k, average_rise(t, draws, best), p, q);
        assert(xs =~= xs.drop_last().push(xs.last()));
        assert(ys =~= ys.drop_last().push(ys.last()));
    } else {
        assert(xs =~= ys);
    }
}

proof fn lemma_vocs_once<K: Arithmetic>(
    k: &K,
    e: Seq<Edge>,
    f: Seq<Edge>,
    xs: Seq<Double>,
    ys: Seq<Double>,
)
    requires
        steady(k),
        alike(e, f),
        are_vocs(k, e, xs),
        are_vocs(k, f, ys),
    ensures
        xs == ys,
{
    lemma_alike_means(e, f);
    assert forall|i: int| 0 <= i < xs.len() implies xs[i] == ys[i] by {
        assert(e[i].stats == f[i].stats);
        lemma_voc_once(k, e[i].stats, greatest_other(means(e), i), xs[i], ys[i]);
    }
    assert(xs =~= ys);
}

proof fn lemma_uct_once<K: Arithmetic>(k: &K, a: Node, b: Node, xs: Seq<Double>, ys: Seq<Double>)
    requires
        steady(k),
        alike(a.edges@, b.edges@),
        a.visits == b.visits,
        are_uct_scores(k, a, xs),
        are_uct_scores(k, b, ys),
    ensures
        xs == ys,
{
    lemma_alike_means(a.edges@, b.edges@);
    let low = least(minima(a.edges@));
    let high = greatest(maxima(a.edges@));
    let r = choose|r: Double|
        {
            &&& #[trigger] evaluates(k, num(high).minus(num(low)), r)
            &&& xs.len() == a.edges@.len()
            &&& forall|i: int|
                0 <= i < xs.len() ==> is_uct_score(
                    k,
                    a.visits,
                    a.edges@[i].stats,
                    low,
                    r,
                    #[trigger] xs[i],
                )
        };
    let q = choose|q: Double|
        {
            &&& #[trigger] evaluates(k, num(high).minus(num(low)), q)
            &&& ys.len() == b.edges@.len()
            &&& forall|i: int|
                0 <= i < ys.len() ==> is_uct_score(
                    k,
                    b.visits,
                    b.edges@[i].stats,
                    low,
                    q,
                    #[trigger] ys[i],
                )
        };
    lemma_evaluates_once(k, num(high).minus(num(low)), r, q);
    lemma_all_evaluate_once(k);
    assert forall|i: int| 0 <= i < xs.len() implies xs[i] == ys[i] by {
        let s = a.edges@[i].stats;
        assert(s == b.edges@[i].stats);
        assert(is_uct_score(k, a.visits, s, low, r, xs[i]));
        assert(is_uct_score(k, a.visits, s, low, r, ys[i]));
        let top = bonus(at_least_one(a.visits), s.n);
        let u = choose|u: Double|
            #[trigger] is_level(k, s, low, r, u) && evaluates(k, num(u).plus(top), xs[i]);
        let v = choose|v: Double|
            #[trigger] is_level(k, s, low, r, v) && evaluates(k, num(v).plus(top), ys[i]);
        assert(u == v);
        lemma_evaluates_once(k, num(u).plus(top), xs[i], ys[i]);
    }
    assert(xs =~= ys);
}

/// A score that counts as equal to the best does not count as apart from it.
proof fn lemma_close_is_not_apart<K: Arithmetic>(k: &K, relative: bool, score: Double, best: Double)
    requires
        steady(k),
        is_close(k, relative, score, best),
    ensures
        !is_apart(k, relative, score, best),
{
    lemma_all_evaluate_once(k);
    let (g, e) = choose|g: Double, e: Double|
        {
            &&& #[trigger] evaluates(k, num(score).minus(num(best)), g)
            &&& #[trigger] is_margin(k, relative, best, e)
            &&& g.unsigned().at_most(e)
        };
    assert forall|h: Double, f: Double| #[trigger]
        evaluates(k, num(score).minus(num(best)), h) && #[trigger] is_margin(
            k,
            relative,
            best,
            f,
        ) implies h.unsigned().at_most(f) by {
        assert(g == h);
        assert(e == f);
    }
}

/// Two rising lists with the same entries are the same.
pub proof fn lemma_rising_lists_agree(a: Seq<usize>, b: Seq<usize>)
    requires
        forall|i: int, j: int| 0 <= i < j < a.len() ==> a[i] < a[j],
        forall|i: int, j: int| 0 <= i < j < b.len() ==> b[i] < b[j],
        forall|x: usize| a.contains(x) <==> b.contains(x),
    ensures
        a == b,
    decreases a.len(),
{
    if a.len() == 0 {
        if b.len() > 0 {
            assert(b.contains(b[0]));
            assert(a.contains(b[0]));
        }
        assert(a =~= b);
    } else {
        assert(a.contains(a[0]));
        assert(b.contains(a[0]));
        let p = a.drop_last();
        let q = b.drop_last();
        assert(a.contains(a.last()));
        assert(b.contains(b.last()));
        assert(b.contains(a.last()));
        assert(a.contains(b.last()));
        let i = choose|i: int| 0 <= i < b.len() && b[i] == a.last();
        let j = choose|j: int| 0 <= j < a.len() && a[j] == b.last();
        assert(a.last() == b.last());
        assert forall|x: usize| p.contains(x) <==> q.contains(x) by {
            if p.contains(x) {
                let m = choose|m: int| 0 <= m < p.len() && p[m] == x;
                assert(a[m] == x);
                assert(a.contains(x));
                let n = choose|n: int| 0 <= n < b.len() && b[n] == x;
                assert(q[n] == x);
            }
            if q.contains(x) {
                let m = choose|m: int| 0 <= m < q.len() && q[m] == x;
                assert(b[m] == x);
                assert(b.contains(x));
                let n = choose|n: int| 0 <= n < a.len() && a[n] == x;
                assert(p[n] == x);
            }
        }
        lemma_rising_lists_agree(p, q);
        assert(a =~= p.push(a.last()));
        assert(b =~= q.push(b.last()));
    }
}

proof fn lemma_tie_is_listed<K: Arithmetic>(
    k: &K,
    relative: bool,
    scores: Seq<Double>,
    a: Seq<usize>,
    b: Seq<usize>,
    x: usize,
)
    requires
        steady(k),
        are_ties(k, relative, scores, a),
        are_ties(k, relative, scores, b),
        a.contains(x),
    ensures
        b.contains(x),
{
    let i = choose|i: int| 0 <= i < a.len() && a[i] == x;
    assert(is_tie(k, relative, scores, a[i] as int));
    if !b.contains(x) {
        lemma_close_is_not_apart(k, relative, scores[x as int], greatest(scores));
    }
}

proof fn lemma_ties_once<K: Arithmetic>(
    k: &K,
    relative: bool,
    scores: Seq<Double>,
    a: Seq<usize>,
    b: Seq<usize>,
)
    requires
        steady(k),
        are_ties(k, relative, scores, a),
        are_ties(k, relative, scores, b),
    ensures
        a == b,
{
    assert forall|x: usize| a.contains(x) <==> b.contains(x) by {
        if a.contains(x) {
            lemma_tie_is_listed(k, relative, scores, a, b, x);
        }
        if b.contains(x) {
            lemma_tie_is_listed(k, relative, scores, b, a, x);
        }
    }
    lemma_rising_lists_agree(a, b);
}

/// One draw among ties.
pub proof fn lemma_drawn_tie_once(
    ties: Seq<usize>,
    before: SmallRng,
    a: int,
    after_a: SmallRng,
    b: int,
    after_b: SmallRng,
)
    requires
        generators_are_steady(),
        is_drawn_tie(ties, before, a, after_a),
        is_drawn_tie(ties, before, b, after_b),
    ensures
        a == b,
        after_a == after_b,
{
}

/// One first greatest entry.
pub proof fn lemma_first_greatest_once(xs: Seq<Double>, a: int, b: int)
    requires
        first_greatest(xs, a),
        first_greatest(xs, b),
    ensures
        a == b,
{
    if a < b {
        assert(xs[a].below(xs[b]));
    } else if b < a {
        assert(xs[b].below(xs[a]));
    }
}

/// One choice of a move.
pub proof fn lemma_choice_once<K: Arithmetic>(
    k: &K,
    policy: Policy,
    p: Node,
    q: Node,
    before: SmallRng,
    a: int,
    after_a: SmallRng,
    b: int,
    after_b: SmallRng,
)
    requires
        steady(k),
        generators_are_steady(),
        alike(p.edges@, q.edges@),
        p.visits == q.visits,
        is_choice(k, policy, p, before, a, after_a),
        is_choice(k, policy, q, before, b, after_b),
    ensures
        a == b,
        after_a == after_b,
{
    let e = p.edges@;
    let f = q.edges@;
    let want = needed(policy);
    assert(sampled_at_least(e, want) == sampled_at_least(f, want)) by {
        if sampled_at_least(e, want) {
            assert forall|i: int| 0 <= i < f.len() implies (#[trigger] f[i]).stats.n >= want by {
                assert(e[i].stats == f[i].stats);
            }
        }
        if sampled_at_least(f, want) {
            assert forall|i: int| 0 <= i < e.len() implies (#[trigger] e[i]).stats.n >= want by {
                assert(e[i].stats == f[i].stats);
            }
        }
    }
    if !sampled_at_least(e, want) {
        assert(e[a].stats == f[a].stats);
        assert(e[b].stats == f[b].stats);
    } else {
        match policy {
            Policy::Uct => {
                let xs = choose|xs: Seq<Double>|
                    #[trigger] are_uct_scores(k, p, xs) && first_greatest(xs, a);
                let ys = choose|ys: Seq<Double>|
                    #[trigger] are_uct_scores(k, q, ys) && first_greatest(ys, b);
                lemma_uct_once(k, p, q, xs, ys);
                lemma_first_greatest_once(xs, a, b);
            },
            Policy::Thompson => {
                let xs = choose|xs: Seq<Double>|
                    #[trigger] are_mean_draws(k, e, e.len(), before, xs, after_a)
                        && first_greatest(xs, a);
                let ys = choose|ys: Seq<Double>|
                    #[trigger] are_mean_draws(k, f, f.len(), before, ys, after_b)
                        && first_greatest(ys, b);
                lemma_mean_draws_once(k, e, f, e.len(), before, xs, after_a, ys, after_b);
                lemma_first_greatest_once(xs, a, b);
            },
            Policy::ExactVoc => {
                let (xs, s) = choose|xs: Seq<Double>, s: Seq<usize>| #[trigger]
                    are_vocs(k, e, xs) && #[trigger] are_ties(k, true, xs, s) && is_drawn_tie(
                        s,
                        before,
                        a,
                        after_a,
                    );
                let (ys, t) = choose|ys: Seq<Double>, t: Seq<usize>| #[trigger]
                    are_vocs(k, f, ys) && #[trigger] are_ties(k, true, ys, t) && is_drawn_tie(
                        t,
                        before,
                        b,
                        after_b,
                    );
                lemma_vocs_once(k, e, f, xs, ys);
                lemma_ties_once(k, true, xs, s, t);
                lemma_drawn_tie_once(s, before, a, after_a, b, after_b);
            },
            Policy::McVoc(draws) => {
                let (xs, s, g) = choose|xs: Seq<Double>, s: Seq<usize>, g: SmallRng| #[trigger]
                    are_drawn_vocs(k, e, draws, e.len(), before, xs, g) && #[trigger] are_ties(
                        k,
                        false,
                        xs,
                        s,
                    ) && is_drawn_tie(s, g, a, after_a);
                let (ys, t, h) = choose|ys: Seq<Double>, t: Seq<usize>, h: SmallRng| #[trigger]
                    are_drawn_vocs(k, f, draws, f.len(), before, ys, h) && #[trigger] are_ties(
                        k,
                        false,
                        ys,
                        t,
                    ) && is_drawn_tie(t, h, b, after_b);
                lemma_drawn_vocs_once(k, e, f, draws, e.len(), before, xs, g, ys, h);
                lemma_ties_once(k, false, xs, s, t);
                lemma_drawn_tie_once(s, g, a, after_a, b, after_b);
            },
        }
    }
}

/// The greatest value of one more sample at a node is the greatest value in the state of
/// that node, wherever it has a bound.
pub proof fn law_greatest_value_is_in_the_snapshot<K: Arithmetic>(
    k: &K,
    node: Node,
    s: RootSnapshot,
    r: Double,
)
    requires
        steady(k),
        is_snapshot(k, node, s),
        is_max_voc(k, node, r),
        node.edges@.len() <= 1 || sampled_at_least(node.edges@, 3),
    ensures
        r == greatest_above(
            Double::zero(),
            Seq::new(s.actions@.len(), |i: int| s.actions@[i].voc),
        ),
        forall|i: int| 0 <= i < s.actions@.len() ==> (#[trigger] s.actions@[i]).voc.at_most(r),
        s.actions@.len() > 0 ==> exists|i: int|
            0 <= i < s.actions@.len() && (#[trigger] s.actions@[i]).voc.equals(r),
{
    let vocs = Seq::new(s.actions@.len(), |i: int| s.actions@[i].voc);
    assert forall|i: int| 0 <= i < vocs.len() implies is_action(
        k,
        node,
        s.total_samples,
        i,
        #[trigger] s.actions@[i],
    ) by {}
    if node.edges@.len() <= 1 {
        reveal_with_fuel(greatest_above, 3);
        if vocs.len() == 1 {
            assert(is_action(k, node, s.total_samples, 0, s.actions@[0]));
            assert(vocs.drop_last() =~= Seq::<Double>::empty());
        }
    } else {
        let xs = choose|xs: Seq<Double>|
            #[trigger] are_vocs(k, node.edges@, xs) && r == greatest_above(Double::zero(), xs);
        assert forall|i: int| 0 <= i < vocs.len() implies is_voc(
            k,
            node.edges@[i].stats,
            greatest_other(means(node.edges@), i),
            #[trigger] vocs[i],
        ) by {
            let a = s.actions@[i];
            assert(is_action(k, node, s.total_samples, i, a));
            law_values_are_bounded(
                k,
                node.edges@[i].stats,
                greatest_other(means(node.edges@), i),
                a.voc,
                a.switch_prob,
            );
        }
        assert(are_vocs(k, node.edges@, vocs));
        lemma_vocs_once(k, node.edges@, node.edges@, xs, vocs);
    }
    assert forall|i: int| 0 <= i < vocs.len() implies Double::zero().at_most(#[trigger] vocs[i]) by {
        let a = s.actions@[i];
        assert(is_action(k, node, s.total_samples, i, a));
        if node.edges@.len() > 1 {
            law_values_are_bounded(
                k,
                node.edges@[i].stats,
                greatest_other(means(node.edges@), i),
                a.voc,
                a.switch_prob,
            );
        }
    }
    lemma_greatest_above_zero(vocs);
    assert forall|i: int| 0 <= i < s.actions@.len() implies (#[trigger] s.actions@[i]).voc.at_most(r) by {
        assert(vocs[i].at_most(r));
    }
    if vocs.len() > 0 {
        let i = choose|i: int| 0 <= i < vocs.len() && (#[trigger] vocs[i]).equals(r);
        assert(s.actions@[i].voc.equals(r));
    }
}

/// The greatest of numbers that are not negative bounds them, and is one of them.
proof fn lemma_greatest_above_zero(xs: Seq<Double>)
    requires
        forall|i: int| 0 <= i < xs.len() ==> Double::zero().at_most(#[trigger] xs[i]),
    ensures
        Double::zero().at_most(greatest_above(Double::zero(), xs)),
        forall|i: int| 0 <= i < xs.len() ==> (#[trigger] xs[i]).at_most(
            greatest_above(Double::zero(), xs),
        ),
        xs.len() > 0 ==> exists|i: int|
            0 <= i < xs.len() && (#[trigger] xs[i]).equals(greatest_above(Double::zero(), xs)),
    decreases xs.len(),
{
    if xs.len() > 0 {
        let front = xs.drop_last();
        let r = greatest_above(Double::zero(), xs);
        assert forall|i: int| 0 <= i < front.len() implies Double::zero().at_most(#[trigger] front[i]) by {
            assert(xs[i] == front[i]);
        }
        lemma_greatest_above_zero(front);
        assert(Double::zero().at_most(xs[xs.len() - 1]));
        assert forall|i: int| 0 <= i < xs.len() implies (#[trigger] xs[i]).at_most(r) by {
            if i < front.len() {
                assert(front[i] == xs[i]);
            }
        }
        let top = greatest_above(Double::zero(), front);
        if front.len() > 0 && !top.below(xs.last()) {
            let i = choose|i: int| 0 <= i < front.len() && (#[trigger] front[i]).equals(top);
            assert(xs[i].equals(r));
        } else {
            assert(xs[xs.len() - 1].equals(r));
        }
    }
}

/// The value that comes with the probability of a switch is the value on its own, and both
/// are zero where another sample cannot move the mean.
pub proof fn law_value_comes_with_the_switch<K: Arithmetic>(
    k: &K,
    s: Stats,
    competitor: Double,
    voc: Double,
    switch: Double,
    alone: Double,
)
    requires
        steady(k),
        is_voc_and_switch(k, s, competitor, voc, switch),
        is_voc(k, s, competitor, alone),
    ensures
        voc == alone,
        is_step_scale(k, s, None) ==> voc == Double::zero() && switch == Double::zero(),
{
    law_values_are_bounded(k, s, competitor, voc, switch);
    lemma_voc_once(k, s, competitor, voc, alone);
    if is_step_scale(k, s, None) {
        let scale = choose|scale: Option<Double>|
            #[trigger] is_step_scale(k, s, scale) && match scale {
                Some(t) => exists|z: Double|
                    #[trigger] evaluates(k, steps_to(competitor, s.mean, t), z) && is_gain(
                        k,
                        t,
                        z,
                        s.n,
                        voc,
                    ) && is_switch(k, s, competitor, z, switch),
                None => voc == Double::zero() && switch == Double::zero(),
            };
        lemma_step_scale_once(k, s, None, scale);
    }
}

/// A draw of the mean and a draw of the next return from one generator are made with the same
/// draw of Student's t distribution, and leave the generator alike. Where the samples leave no
/// uncertainty both are the mean, and nothing is drawn.
pub proof fn law_mean_and_return_share_a_draw<K: Arithmetic>(
    k: &K,
    s: Stats,
    before: SmallRng,
    x: Double,
    after_x: SmallRng,
    y: Double,
    after_y: SmallRng,
)
    requires
        steady(k),
        is_mean_draw(k, s, before, x, after_x),
        is_return_draw(k, s, before, y, after_y),
    ensures
        after_x == after_y,
        exists|sd: Double|
            #[trigger] is_deviation(k, s, sd) && if uncertain(s, sd) {
                exists|t: Double|
                    {
                        &&& #[trigger] draws_t(k, count((s.n - 1) as u64), before, t, after_x)
                        &&& evaluates(k, mean_draw(s, sd, t), x)
                        &&& evaluates(k, return_draw(s, sd, t), y)
                    }
            } else {
                x == s.mean && y == s.mean && after_x == before
            },
{
    let freedom = count((s.n - 1) as u64);
    let a = choose|a: Double|
        #[trigger] is_deviation(k, s, a) && if uncertain(s, a) {
            exists|t: Double|
                #[trigger] draws_t(k, freedom, before, t, after_x) && evaluates(k, mean_draw(s, a, t), x)
        } else {
            x == s.mean && after_x == before
        };
    let b = choose|b: Double|
        #[trigger] is_deviation(k, s, b) && if uncertain(s, b) {
            exists|t: Double|
                #[trigger] draws_t(k, freedom, before, t, after_y) && evaluates(
                    k,
                    return_draw(s, b, t),
                    y,
                )
        } else {
            y == s.mean && after_y == before
        };
    lemma_deviation_once(k, s, a, b);
    if uncertain(s, a) {
        let t = choose|t: Double|
            #[trigger] draws_t(k, freedom, before, t, after_x) && evaluates(k, mean_draw(s, a, t), x);
        let u = choose|u: Double|
            #[trigger] draws_t(k, freedom, before, u, after_y) && evaluates(k, return_draw(s, b, u), y);
        lemma_t_once(k, freedom, before, t, after_x, u, after_y);
    }
    assert(is_deviation(k, s, a));
}

} // verus!
