//! Returns in other units: where nothing rounds, the statistics, the draws and the values of
//! two searches that differ in their units alone correspond.

use crate::arith::{count, draws_t, evaluates, num, Arithmetic, Formula};
use crate::double::{Double, SIGN_BIT};
use crate::estimate::{
    gain_from_above, gain_from_below, is_deviation, is_gain, is_mean_draw, is_return_draw,
    is_step_scale, is_voc, mean_draw, next_deviations, next_mean, no_samples, proper, return_draw,
    steps_to, tau, uncertain, variance, with_sample, RewardTransform, Stats,
};
use crate::exact::{
    in_units, law_deviations_follow_units, law_distance_has_no_units, law_draws_follow_units,
    law_mean_follows_units, law_order_has_no_units, law_steps_scale, law_value_scales,
    lemma_factor_out, lemma_root_scales, scaled, Exact,
};
use crate::steady::{lemma_t_once, steady};
use rand::rngs::SmallRng;
use vstd::prelude::*;

verus! {

/// A finite number other than negative zero.
pub open spec fn plain(x: Double) -> bool {
    x.finite() && x.bits != SIGN_BIT
}

/// Nothing rounds at a formula, under a reading of the numbers: what it comes to stands for
/// what it comes to exactly, and is a plain number. Where a formula rounds, the rounding may
/// turn a comparison.
pub open spec fn exact_at<K: Arithmetic>(k: &K, m: Exact, e: Formula) -> bool {
    forall|r: Double| #[trigger] evaluates(k, e, r) ==> m.at(r) == m.of(e) && plain(r)
}

/// Nothing rounds where the sample `x` is taken in.
pub open spec fn exact_observation<K: Arithmetic>(
    k: &K,
    m: Exact,
    before: Stats,
    x: Double,
    after: Stats,
) -> bool {
    before.n > 0 ==> {
        &&& exact_at(k, m, next_mean(before.mean, x, after.n))
        &&& exact_at(k, m, next_deviations(before.m2, before.mean, after.mean, x))
    }
}

/// Nothing rounds in the standard deviation of the samples.
pub open spec fn exact_deviation<K: Arithmetic>(k: &K, m: Exact, s: Stats) -> bool {
    s.n >= 2 ==> {
        &&& exact_at(k, m, variance(s))
        &&& forall|v: Double| #[trigger]
            evaluates(k, variance(s), v) ==> exact_at(k, m, num(v.larger(Double::zero())).root())
    }
}

/// Nothing rounds in the scale of the steps of the posterior mean.
pub open spec fn exact_step_scale<K: Arithmetic>(k: &K, m: Exact, s: Stats) -> bool {
    s.n >= 3 ==> {
        &&& exact_deviation(k, m, s)
        &&& forall|sd: Double| #[trigger]
            is_deviation(k, s, sd) && proper(sd) ==> exact_at(k, m, tau(sd, s.n))
    }
}

/// Nothing rounds in the value of one more sample.
pub open spec fn exact_value<K: Arithmetic>(k: &K, m: Exact, s: Stats, competitor: Double) -> bool {
    &&& exact_step_scale(k, m, s)
    &&& forall|t: Double| #[trigger]
        is_step_scale(k, s, Some(t)) ==> exact_at(k, m, steps_to(competitor, s.mean, t))
    &&& forall|t: Double, z: Double|
        is_step_scale(k, s, Some(t)) && #[trigger] evaluates(k, steps_to(competitor, s.mean, t), z)
            ==> exact_at(
            k,
            m,
            if Double::zero().at_most(z) {
                gain_from_below(t, z, s.n)
            } else {
                gain_from_above(t, z, s.n)
            },
        )
}

/// Nothing rounds in a draw of the mean.
pub open spec fn exact_mean_draw<K: Arithmetic>(k: &K, m: Exact, s: Stats, before: SmallRng) -> bool {
    s.n >= 3 ==> {
        &&& exact_deviation(k, m, s)
        &&& forall|sd: Double, t: Double, after: SmallRng| #[trigger]
            is_deviation(k, s, sd) && uncertain(s, sd) && #[trigger] draws_t(
                k,
                count((s.n - 1) as u64),
                before,
                t,
                after,
            ) ==> exact_at(k, m, mean_draw(s, sd, t))
    }
}

/// Nothing rounds in a draw of the next return.
pub open spec fn exact_return_draw<K: Arithmetic>(k: &K, m: Exact, s: Stats, before: SmallRng) -> bool {
    s.n >= 3 ==> {
        &&& exact_deviation(k, m, s)
        &&& forall|sd: Double, t: Double, after: SmallRng| #[trigger]
            is_deviation(k, s, sd) && uncertain(s, sd) && #[trigger] draws_t(
                k,
                count((s.n - 1) as u64),
                before,
                t,
                after,
            ) ==> exact_at(k, m, return_draw(s, sd, t))
    }
}

/// The statistics `t` are the statistics `s` of the same returns in other units.
pub open spec fn stats_in_units(m: Exact, a: real, b: real, s: Stats, t: Stats) -> bool {
    &&& s.n == t.n
    &&& if s.n == 0 {
        s == no_samples() && t == no_samples()
    } else {
        &&& in_units(m, a, b, s.mean, t.mean)
        &&& in_units(m, a, b, s.min, t.min)
        &&& in_units(m, a, b, s.max, t.max)
        &&& scaled(m, a * a, s.m2, t.m2)
        &&& plain(s.mean) && plain(s.min) && plain(s.max) && plain(s.m2)
        &&& plain(t.mean) && plain(t.min) && plain(t.max) && plain(t.m2)
    }
}

/// A sum of `n` returns and one more of them, in other units.
pub proof fn lemma_one_more_return(a: real, b: real, n: real, total: real, x: real)
    ensures
        (a * total + n * b) + (a * x + b) == a * (total + x) + (n + 1 as real) * b,
{
    assert(a * (total + x) == a * total + a * x) by (nonlinear_arith);
    assert((n + 1 as real) * b == n * b + b) by (nonlinear_arith);
}

/// One return, in other units.
pub proof fn lemma_one_return(b: real, n: real)
    requires
        n == 1 as real,
    ensures
        n * b == b,
{
    assert(n * b == b) by (nonlinear_arith)
        requires
            n == 1 as real,
    ;
}

/// A sum of no returns, in other units.
pub proof fn lemma_no_return(a: real, b: real, n: real)
    requires
        n == 0 as real,
    ensures
        a * (0 as real) + n * b == 0 as real,
{
    assert(a * (0 as real) == 0 as real) by (nonlinear_arith);
    assert(n * b == 0 as real) by (nonlinear_arith)
        requires
            n == 0 as real,
    ;
}

/// A product with a positive number has the sign of the other factor.
pub proof fn lemma_sign(a: real, x: real)
    requires
        a > 0 as real,
    ensures
        a * x > 0 as real <==> x > 0 as real,
        a * x < 0 as real <==> x < 0 as real,
        a * x == 0 as real <==> x == 0 as real,
{
    if x > 0 as real {
        assert(a * x > 0 as real) by (nonlinear_arith)
            requires
                a > 0 as real,
                x > 0 as real,
        ;
    } else if x < 0 as real {
        assert(a * x < 0 as real) by (nonlinear_arith)
            requires
                a > 0 as real,
                x < 0 as real,
        ;
    } else {
        assert(a * x == 0 as real) by (nonlinear_arith)
            requires
                x == 0 as real,
        ;
    }
}

/// Plain numbers that stand for the same are the same.
pub proof fn lemma_plain_is_unique(m: Exact, x: Double, y: Double)
    requires
        m.ordered(),
        plain(x),
        plain(y),
        m.at(x) == m.at(y),
    ensures
        x == y,
{
    assert(!x.below(y));
    assert(!y.below(x));
    assert(x.rank() == y.rank());
}

/// Plain numbers against zero.
pub proof fn lemma_against_zero(m: Exact, x: Double)
    requires
        m.ordered(),
        plain(x),
    ensures
        Double::zero().below(x) <==> m.at(x) > 0 as real,
        x.below(Double::zero()) <==> m.at(x) < 0 as real,
        Double::zero().at_most(x) <==> m.at(x) >= 0 as real,
        x.at_most(Double::zero()) <==> m.at(x) <= 0 as real,
        x.rank() == 0 <==> m.at(x) == 0 as real,
        proper(x) <==> m.at(x) > 0 as real,
        !x.nan(),
{
    assert(Double::zero().finite());
    assert(Double::zero().below(x) <==> m.at(Double::zero()) < m.at(x));
    assert(x.below(Double::zero()) <==> m.at(x) < m.at(Double::zero()));
}

/// The larger of a number and zero scales with it.
pub proof fn lemma_larger_scales(m: Exact, a: real, x: Double, y: Double)
    requires
        m.ordered(),
        a > 0 as real,
        plain(x),
        plain(y),
        scaled(m, a, x, y),
    ensures
        scaled(m, a, x.larger(Double::zero()), y.larger(Double::zero())),
        plain(x.larger(Double::zero())),
        plain(y.larger(Double::zero())),
        m.at(x.larger(Double::zero())) >= 0 as real,
{
    lemma_against_zero(m, x);
    lemma_against_zero(m, y);
    lemma_sign(a, m.at(x));
    lemma_sign(a, 0 as real);
}

/// The larger and the smaller of two returns move with them.
pub proof fn lemma_extremes_move(m: Exact, a: real, b: real, x: Double, y: Double, u: Double, v: Double)
    requires
        m.ordered(),
        a > 0 as real,
        plain(x),
        plain(y),
        plain(u),
        plain(v),
        in_units(m, a, b, x, u),
        in_units(m, a, b, y, v),
    ensures
        in_units(m, a, b, x.larger(y), u.larger(v)),
        in_units(m, a, b, x.smaller(y), u.smaller(v)),
        x.below(y) <==> u.below(v),
        y.below(x) <==> v.below(u),
        plain(x.larger(y)) && plain(x.smaller(y)) && plain(u.larger(v)) && plain(u.smaller(v)),
{
    law_order_has_no_units(m, a, b, x, y, u, v);
    law_order_has_no_units(m, a, b, y, x, v, u);
    assert(x.below(y) <==> m.at(x) < m.at(y));
    assert(y.below(x) <==> m.at(y) < m.at(x));
    assert(u.below(v) <==> m.at(u) < m.at(v));
    assert(v.below(u) <==> m.at(v) < m.at(u));
}

/// One more sample keeps the statistics in their units.
pub proof fn lemma_sample_in_units<K: Arithmetic>(
    k: &K,
    m: Exact,
    a: real,
    b: real,
    s: Stats,
    x: Double,
    s2: Stats,
    t: Stats,
    y: Double,
    t2: Stats,
)
    requires
        m.ordered(),
        exact_observation(k, m, s, x, s2),
        exact_observation(k, m, t, y, t2),
        a > 0 as real,
        stats_in_units(m, a, b, s, t),
        in_units(m, a, b, x, y),
        plain(x),
        plain(y),
        with_sample(k, s, x, s2),
        with_sample(k, t, y, t2),
    ensures
        stats_in_units(m, a, b, s2, t2),
        s2.n > 0,
{
    if s.n == 0 {
        assert((a * a) * (0 as real) == 0 as real) by (nonlinear_arith);
    } else {
        assert(evaluates(k, next_mean(s.mean, x, s2.n), s2.mean));
        assert(evaluates(k, next_mean(t.mean, y, t2.n), t2.mean));
        law_mean_follows_units(m, a, b, s, x, t, y, s2.n);
        assert(evaluates(k, next_deviations(s.m2, s.mean, s2.mean, x), s2.m2));
        assert(evaluates(k, next_deviations(t.m2, t.mean, t2.mean, y), t2.m2));
        law_deviations_follow_units(m, a, b, s, x, s2.mean, t, y, t2.mean);
        lemma_extremes_move(m, a, b, s.min, x, t.min, y);
        lemma_extremes_move(m, a, b, s.max, x, t.max, y);
    }
}

/// The standard deviation scales with the units.
pub proof fn lemma_deviation_in_units<K: Arithmetic>(
    k: &K,
    m: Exact,
    a: real,
    b: real,
    s: Stats,
    x: Double,
    t: Stats,
    y: Double,
)
    requires
        m.sound(),
        m.ordered(),
        exact_deviation(k, m, s),
        exact_deviation(k, m, t),
        a > 0 as real,
        stats_in_units(m, a, b, s, t),
        is_deviation(k, s, x),
        is_deviation(k, t, y),
    ensures
        scaled(m, a, x, y),
        plain(x),
        plain(y),
        m.at(x) >= 0 as real,
{
    lemma_sign(a, 0 as real);
    if s.n >= 2 {
        let v = choose|v: Double| #[trigger]
            evaluates(k, variance(s), v) && evaluates(k, num(v.larger(Double::zero())).root(), x);
        let w = choose|w: Double| #[trigger]
            evaluates(k, variance(t), w) && evaluates(k, num(w.larger(Double::zero())).root(), y);
        lemma_sign(a, a);
        assert(m.at(w) == (a * a) * m.at(v)) by {
            reveal_with_fuel(Exact::of, 3);
            lemma_factor_out(a * a, m.at(s.m2), (s.n - 1) as u64 as real);
        }
        lemma_larger_scales(m, a * a, v, w);
        let top = m.at(v.larger(Double::zero()));
        lemma_root_scales(m, a, top);
        assert(m.at(x) == (m.root)(top)) by {
            reveal_with_fuel(Exact::of, 3);
        }
        assert(m.at(y) == (m.root)((a * a) * top)) by {
            reveal_with_fuel(Exact::of, 3);
        }
    }
}

/// The steps of the posterior mean scale with the units.
pub proof fn lemma_step_scale_in_units<K: Arithmetic>(
    k: &K,
    m: Exact,
    a: real,
    b: real,
    s: Stats,
    p: Option<Double>,
    t: Stats,
    q: Option<Double>,
)
    requires
        m.sound(),
        m.ordered(),
        exact_step_scale(k, m, s),
        exact_step_scale(k, m, t),
        a > 0 as real,
        stats_in_units(m, a, b, s, t),
        is_step_scale(k, s, p),
        is_step_scale(k, t, q),
    ensures
        p is Some <==> q is Some,
        p is Some ==> scaled(m, a, p->0, q->0) && m.at(p->0) > 0 as real && plain(p->0) && plain(q->0),
{
    if s.n >= 3 {
        let x = choose|x: Double|
            #[trigger] is_deviation(k, s, x) && if !proper(x) {
                p == None::<Double>
            } else {
                exists|r: Double|
                    #[trigger] evaluates(k, tau(x, s.n), r) && p == (if proper(r) {
                        Some(r)
                    } else {
                        None
                    })
            };
        let y = choose|y: Double|
            #[trigger] is_deviation(k, t, y) && if !proper(y) {
                q == None::<Double>
            } else {
                exists|r: Double|
                    #[trigger] evaluates(k, tau(y, t.n), r) && q == (if proper(r) {
                        Some(r)
                    } else {
                        None
                    })
            };
        lemma_deviation_in_units(k, m, a, b, s, x, t, y);
        lemma_against_zero(m, x);
        lemma_against_zero(m, y);
        lemma_sign(a, m.at(x));
        if proper(x) {
            let u = choose|r: Double|
                #[trigger] evaluates(k, tau(x, s.n), r) && p == (if proper(r) {
                    Some(r)
                } else {
                    None
                });
            let v = choose|r: Double|
                #[trigger] evaluates(k, tau(y, t.n), r) && q == (if proper(r) {
                    Some(r)
                } else {
                    None
                });
            law_steps_scale(m, a, x, y, s.n);
            lemma_against_zero(m, u);
            lemma_against_zero(m, v);
            lemma_sign(a, m.at(u));
        }
    }
}

/// The value of a sample scales with the units.
pub proof fn lemma_voc_in_units<K: Arithmetic>(
    k: &K,
    m: Exact,
    a: real,
    b: real,
    s: Stats,
    c: Double,
    x: Double,
    t: Stats,
    d: Double,
    y: Double,
)
    requires
        m.sound(),
        m.ordered(),
        exact_value(k, m, s, c),
        exact_value(k, m, t, d),
        a > 0 as real,
        stats_in_units(m, a, b, s, t),
        s.n > 0,
        in_units(m, a, b, c, d),
        is_voc(k, s, c, x),
        is_voc(k, t, d, y),
    ensures
        scaled(m, a, x, y),
        plain(x),
        plain(y),
{
    let p = choose|p: Option<Double>|
        #[trigger] is_step_scale(k, s, p) && match p {
            Some(r) => exists|z: Double|
                #[trigger] evaluates(k, steps_to(c, s.mean, r), z) && is_gain(k, r, z, s.n, x),
            None => x == Double::zero(),
        };
    let q = choose|q: Option<Double>|
        #[trigger] is_step_scale(k, t, q) && match q {
            Some(r) => exists|z: Double|
                #[trigger] evaluates(k, steps_to(d, t.mean, r), z) && is_gain(k, r, z, t.n, y),
            None => y == Double::zero(),
        };
    lemma_step_scale_in_units(k, m, a, b, s, p, t, q);
    match (p, q) {
        (Some(u), Some(v)) => {
            let z = choose|z: Double|
                #[trigger] evaluates(k, steps_to(c, s.mean, u), z) && is_gain(k, u, z, s.n, x);
            let w = choose|w: Double|
                #[trigger] evaluates(k, steps_to(d, t.mean, v), w) && is_gain(k, v, w, t.n, y);
            law_distance_has_no_units(m, a, b, c, s.mean, u, d, t.mean, v);
            lemma_against_zero(m, z);
            lemma_against_zero(m, w);
            law_value_scales(m, a, u, z, v, w, s.n);
            if Double::zero().at_most(z) {
                let g = choose|g: Double|
                    #[trigger] evaluates(k, gain_from_below(u, z, s.n), g) && x == g.larger(
                        Double::zero(),
                    );
                let h = choose|h: Double|
                    #[trigger] evaluates(k, gain_from_below(v, w, t.n), h) && y == h.larger(
                        Double::zero(),
                    );
                lemma_larger_scales(m, a, g, h);
            } else {
                let g = choose|g: Double|
                    #[trigger] evaluates(k, gain_from_above(u, z, s.n), g) && x == g.larger(
                        Double::zero(),
                    );
                let h = choose|h: Double|
                    #[trigger] evaluates(k, gain_from_above(v, w, t.n), h) && y == h.larger(
                        Double::zero(),
                    );
                lemma_larger_scales(m, a, g, h);
            }
        },
        _ => {
            lemma_sign(a, 0 as real);
        },
    }
}

/// A draw of the mean moves with the units, and is made with the same draw of the
/// distribution.
pub proof fn lemma_mean_draw_in_units<K: Arithmetic>(
    k: &K,
    m: Exact,
    a: real,
    b: real,
    s: Stats,
    t: Stats,
    before: SmallRng,
    x: Double,
    after_x: SmallRng,
    y: Double,
    after_y: SmallRng,
)
    requires
        steady(k),
        m.sound(),
        m.ordered(),
        exact_mean_draw(k, m, s, before),
        exact_mean_draw(k, m, t, before),
        a > 0 as real,
        stats_in_units(m, a, b, s, t),
        s.n > 0,
        is_mean_draw(k, s, before, x, after_x),
        is_mean_draw(k, t, before, y, after_y),
    ensures
        in_units(m, a, b, x, y),
        plain(x),
        plain(y),
        after_x == after_y,
{
    let freedom = count((s.n - 1) as u64);
    let p = choose|p: Double|
        #[trigger] is_deviation(k, s, p) && if uncertain(s, p) {
            exists|r: Double|
                #[trigger] draws_t(k, freedom, before, r, after_x) && evaluates(k, mean_draw(s, p, r), x)
        } else {
            x == s.mean && after_x == before
        };
    let q = choose|q: Double|
        #[trigger] is_deviation(k, t, q) && if uncertain(t, q) {
            exists|r: Double|
                #[trigger] draws_t(k, freedom, before, r, after_y) && evaluates(k, mean_draw(t, q, r), y)
        } else {
            y == t.mean && after_y == before
        };
    if s.n >= 3 {
        lemma_deviation_in_units(k, m, a, b, s, p, t, q);
        lemma_against_zero(m, p);
        lemma_against_zero(m, q);
        lemma_sign(a, m.at(p));
    }
    assert(uncertain(s, p) == uncertain(t, q));
    if uncertain(s, p) {
        let u = choose|r: Double|
            #[trigger] draws_t(k, freedom, before, r, after_x) && evaluates(k, mean_draw(s, p, r), x);
        let v = choose|r: Double|
            #[trigger] draws_t(k, freedom, before, r, after_y) && evaluates(k, mean_draw(t, q, r), y);
        lemma_t_once(k, freedom, before, u, after_x, v, after_y);
        law_draws_follow_units(m, a, b, s, p, t, q, u);
    }
}

/// A draw of the next return moves with the units, and is made with the same draw of the
/// distribution.
pub proof fn lemma_return_draw_in_units<K: Arithmetic>(
    k: &K,
    m: Exact,
    a: real,
    b: real,
    s: Stats,
    t: Stats,
    before: SmallRng,
    x: Double,
    after_x: SmallRng,
    y: Double,
    after_y: SmallRng,
)
    requires
        steady(k),
        m.sound(),
        m.ordered(),
        exact_return_draw(k, m, s, before),
        exact_return_draw(k, m, t, before),
        a > 0 as real,
        stats_in_units(m, a, b, s, t),
        s.n > 0,
        is_return_draw(k, s, before, x, after_x),
        is_return_draw(k, t, before, y, after_y),
    ensures
        in_units(m, a, b, x, y),
        plain(x),
        plain(y),
        after_x == after_y,
{
    let freedom = count((s.n - 1) as u64);
    let p = choose|p: Double|
        #[trigger] is_deviation(k, s, p) && if uncertain(s, p) {
            exists|r: Double|
                #[trigger] draws_t(k, freedom, before, r, after_x) && evaluates(
                    k,
                    return_draw(s, p, r),
                    x,
                )
        } else {
            x == s.mean && after_x == before
        };
    let q = choose|q: Double|
        #[trigger] is_deviation(k, t, q) && if uncertain(t, q) {
            exists|r: Double|
                #[trigger] draws_t(k, freedom, before, r, after_y) && evaluates(
                    k,
                    return_draw(t, q, r),
                    y,
                )
        } else {
            y == t.mean && after_y == before
        };
    if s.n >= 3 {
        lemma_deviation_in_units(k, m, a, b, s, p, t, q);
        lemma_against_zero(m, p);
        lemma_against_zero(m, q);
        lemma_sign(a, m.at(p));
    }
    assert(uncertain(s, p) == uncertain(t, q));
    if uncertain(s, p) {
        let u = choose|r: Double|
            #[trigger] draws_t(k, freedom, before, r, after_x) && evaluates(k, return_draw(s, p, r), x);
        let v = choose|r: Double|
            #[trigger] draws_t(k, freedom, before, r, after_y) && evaluates(k, return_draw(t, q, r), y);
        lemma_t_once(k, freedom, before, u, after_x, v, after_y);
        law_draws_follow_units(m, a, b, s, p, t, q, u);
    }
}

/// Two transforms of the scores differ by a change of units.
pub open spec fn transforms_in_units(m: Exact, a: real, b: real, u: RewardTransform, v: RewardTransform) -> bool {
    scaled(m, a, u.scale, v.scale) && in_units(m, a, b, u.shift, v.shift)
}

proof fn lemma_reward(a: real, b: real, scale: real, score: real, shift: real)
    ensures
        (a * scale) * score + (a * shift + b) == a * (scale * score + shift) + b,
{
    assert((a * scale) * score == a * (scale * score)) by (nonlinear_arith);
    let p = scale * score;
    assert(a * (p + shift) == a * p + a * shift) by (nonlinear_arith);
}

/// What is observed of a score moves with the units.
pub proof fn lemma_reward_in_units<K: Arithmetic>(
    k: &K,
    m: Exact,
    a: real,
    b: real,
    u: RewardTransform,
    v: RewardTransform,
    score: u64,
    x: Double,
    y: Double,
)
    requires
        exact_at(k, m, u.formula(score)),
        exact_at(k, m, v.formula(score)),
        transforms_in_units(m, a, b, u, v),
        evaluates(k, u.formula(score), x),
        evaluates(k, v.formula(score), y),
    ensures
        in_units(m, a, b, x, y),
        plain(x),
        plain(y),
{
    reveal_with_fuel(Exact::of, 4);
    lemma_reward(a, b, m.at(u.scale), score as real, m.at(u.shift));
}

} // verus!
