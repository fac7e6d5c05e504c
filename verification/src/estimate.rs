//! What the search knows of an action: the statistics of its sampled returns, and the
//! estimates drawn from them.
//!
//! Returns are modelled as normal with unknown mean and scale under the prior
//! `p(mu, sigma) ~ 1 / sigma`. After `n` of them with mean `m` and deviation `s`, the mean
//! and the next return have Student's t distribution with `n - 1` degrees of freedom, and
//! one more return moves the posterior mean to `m + tau * T` with
//! `tau = s / sqrt(n (n + 1))`.

use crate::arith::{count, draw_t, draws_t, evaluates, num, Arithmetic, Formula, Term};
use crate::double::{greatest, least, Double};
use rand::rngs::SmallRng;
use vstd::prelude::*;

verus! {

/// The transform of the scores into the returns that the search observes.
#[derive(Clone, Copy, Debug)]
pub struct RewardTransform {
    pub scale: Double,
    pub shift: Double,
}

impl RewardTransform {
    /// `scale * score + shift`.
    pub open spec fn formula(self, score: u64) -> Formula {
        num(self.scale).times(count(score)).plus(num(self.shift))
    }

    /// The return that the search observes for a score.
    pub fn apply<K: Arithmetic>(self, k: &K, score: u64) -> (r: Double)
        ensures
            evaluates(k, self.formula(score), r),
    {
        let scaled = Term::num(k, self.scale).times(k, Term::count(k, score));
        scaled.plus(k, Term::num(k, self.shift)).value
    }

    /// A number of score units in the units of the observed returns.
    pub open spec fn observed_units(self, x: Double) -> Formula {
        num(x).times(num(self.scale))
    }

    /// A number of score units in the units of the observed returns.
    pub fn to_observed_units<K: Arithmetic>(self, k: &K, x: Double) -> (r: Double)
        ensures
            evaluates(k, self.observed_units(x), r),
    {
        Term::num(k, x).times(k, Term::num(k, self.scale)).value
    }

    /// A difference of observed returns in score units.
    pub open spec fn score_units(self, x: Double) -> Formula {
        num(x).over(num(self.scale))
    }

    /// A difference of observed returns in score units.
    pub fn to_score_units<K: Arithmetic>(self, k: &K, x: Double) -> (r: Double)
        ensures
            evaluates(k, self.score_units(x), r),
    {
        Term::num(k, x).over(k, Term::num(k, self.scale)).value
    }
}

/// The statistics of the returns sampled for an action: their number, their mean, the
/// sum of their squared deviations, the smallest and the largest.
#[derive(Clone, Copy, Debug)]
pub struct Stats {
    pub n: u32,
    pub mean: Double,
    pub m2: Double,
    pub min: Double,
    pub max: Double,
}

/// The statistics of no sample.
pub open spec fn no_samples() -> Stats {
    Stats {
        n: 0,
        mean: Double::zero(),
        m2: Double::zero(),
        min: Double::zero(),
        max: Double::zero(),
    }
}

/// The mean of `n` samples, from the mean of all but the last: `mean + (x - mean) / n`.
pub open spec fn next_mean(mean: Double, x: Double, n: u32) -> Formula {
    num(mean).plus(num(x).minus(num(mean)).over(count(n as u64)))
}

/// The squared deviations with one more sample, from the means before it and after it:
/// `m2 + (x - before) (x - after)`.
pub open spec fn next_deviations(m2: Double, before: Double, after: Double, x: Double) -> Formula {
    num(m2).plus(num(x).minus(num(before)).times(num(x).minus(num(after))))
}

/// `after` are the statistics `before` with the sample `x`.
pub open spec fn with_sample<K: Arithmetic>(k: &K, before: Stats, x: Double, after: Stats) -> bool {
    if before.n == 0 {
        after == (Stats { n: 1, mean: x, m2: Double::zero(), min: x, max: x })
    } else {
        &&& after.n == before.n + 1
        &&& evaluates(k, next_mean(before.mean, x, after.n), after.mean)
        &&& evaluates(k, next_deviations(before.m2, before.mean, after.mean, x), after.m2)
        &&& after.min == before.min.smaller(x)
        &&& after.max == before.max.larger(x)
    }
}

/// The variance of the samples: `m2 / (n - 1)`.
pub open spec fn variance(s: Stats) -> Formula {
    num(s.m2).over(count((s.n - 1) as u64))
}

/// `sd` is the standard deviation of the samples, the root of a variance that is not
/// negative; it is zero for fewer than two.
pub open spec fn is_deviation<K: Arithmetic>(k: &K, s: Stats, sd: Double) -> bool {
    if s.n < 2 {
        sd == Double::zero()
    } else {
        exists|v: Double| #[trigger]
            evaluates(k, variance(s), v) && evaluates(k, num(v.larger(Double::zero())).root(), sd)
    }
}

/// The samples leave the mean uncertain: there are three at least and they differ.
pub open spec fn uncertain(s: Stats, sd: Double) -> bool {
    s.n >= 3 && (sd.nan() || sd.rank() != 0)
}

/// A draw `t` in terms of the posterior of the mean: `mean + sd / sqrt(n) * t`.
pub open spec fn mean_draw(s: Stats, sd: Double, t: Double) -> Formula {
    num(s.mean).plus(num(sd).over(count(s.n as u64).root()).times(num(t)))
}

/// A draw `t` in terms of the next return: `mean + sd * sqrt(1 + 1 / n) * t`.
pub open spec fn return_draw(s: Stats, sd: Double, t: Double) -> Formula {
    let spread = num(Double::one()).plus(num(Double::one()).over(count(s.n as u64))).root();
    num(s.mean).plus(num(sd).times(spread).times(num(t)))
}

/// `x` is drawn from the posterior of the mean, with one draw from Student's t
/// distribution with `n - 1` degrees of freedom. Where the samples leave no uncertainty
/// it is the mean, and nothing is drawn.
pub open spec fn is_mean_draw<K: Arithmetic>(
    k: &K,
    s: Stats,
    before: SmallRng,
    x: Double,
    after: SmallRng,
) -> bool {
    exists|sd: Double|
        #[trigger] is_deviation(k, s, sd) && if uncertain(s, sd) {
            exists|t: Double|
                #[trigger] draws_t(k, count((s.n - 1) as u64), before, t, after) && evaluates(
                    k,
                    mean_draw(s, sd, t),
                    x,
                )
        } else {
            x == s.mean && after == before
        }
}

/// `x` is drawn as the next return, with the draw that [`is_mean_draw`] makes. Where the
/// samples leave no uncertainty it is the mean, and nothing is drawn.
pub open spec fn is_return_draw<K: Arithmetic>(
    k: &K,
    s: Stats,
    before: SmallRng,
    x: Double,
    after: SmallRng,
) -> bool {
    exists|sd: Double|
        #[trigger] is_deviation(k, s, sd) && if uncertain(s, sd) {
            exists|t: Double|
                #[trigger] draws_t(k, count((s.n - 1) as u64), before, t, after) && evaluates(
                    k,
                    return_draw(s, sd, t),
                    x,
                )
        } else {
            x == s.mean && after == before
        }
}

/// The samples leave no uncertainty, whatever the operations make of their deviation.
pub open spec fn certain<K: Arithmetic>(k: &K, s: Stats) -> bool {
    forall|sd: Double| #[trigger] is_deviation(k, s, sd) ==> !uncertain(s, sd)
}

/// The mean with one more return: `(n * mean + x) / (n + 1)`.
pub open spec fn mean_with(s: Stats, x: Double) -> Formula {
    let n = count(s.n as u64);
    n.times(num(s.mean)).plus(num(x)).over(n.plus(num(Double::one())))
}

/// A positive finite scale.
pub open spec fn proper(x: Double) -> bool {
    !x.at_most(Double::zero()) && x.finite()
}

/// The scale by which one more sample moves the posterior mean:
/// `tau = sd / sqrt(n (n + 1))`.
pub open spec fn tau(sd: Double, n: u32) -> Formula {
    let n = count(n as u64);
    num(sd).over(n.times(n.plus(num(Double::one()))).root())
}

/// One more sample can move the posterior mean, by steps of the given scale; `None`
/// where it cannot: fewer than three samples, or a deviation or a scale that is not
/// positive and finite.
pub open spec fn is_step_scale<K: Arithmetic>(k: &K, s: Stats, scale: Option<Double>) -> bool {
    if s.n < 3 {
        scale == None::<Double>
    } else {
        exists|sd: Double|
            #[trigger] is_deviation(k, s, sd) && if !proper(sd) {
                scale == None::<Double>
            } else {
                exists|t: Double|
                    #[trigger] evaluates(k, tau(sd, s.n), t) && scale == (if proper(t) {
                        Some(t)
                    } else {
                        None
                    })
            }
    }
}

/// The distance of the competitor from the mean, in steps: `(c - mean) / tau`.
pub open spec fn steps_to(competitor: Double, mean: Double, scale: Double) -> Formula {
    num(competitor).minus(num(mean)).over(num(scale))
}

/// The degrees of freedom after `n` samples: `nu = n - 1`.
pub open spec fn freedom(n: u32) -> Formula {
    count(n as u64).minus(num(Double::one()))
}

/// `(nu + z^2) / (nu - 1) * f(z)` with the density `f` of the steps.
pub open spec fn leading(n: u32, z: Double) -> Formula {
    freedom(n).plus(num(z).times(num(z))).over(freedom(n).minus(num(Double::one()))).times(
        freedom(n).density(num(z)),
    )
}

/// The expected gain of one more sample at a distance of `z >= 0` steps:
/// `tau ((nu + z^2) / (nu - 1) f(z) - z (1 - F(z)))`.
pub open spec fn gain_from_below(scale: Double, z: Double, n: u32) -> Formula {
    num(scale).times(leading(n, z).minus(num(z).times(freedom(n).upper_tail(num(z)))))
}

/// The expected gain of one more sample at a distance of `z < 0` steps:
/// `tau ((nu + z^2) / (nu - 1) f(z) + z F(z))`.
pub open spec fn gain_from_above(scale: Double, z: Double, n: u32) -> Formula {
    num(scale).times(leading(n, z).plus(num(z).times(freedom(n).lower_tail(num(z)))))
}

/// `gain` is the expected gain of one more sample at a distance of `z` steps; it is
/// never negative.
pub open spec fn is_gain<K: Arithmetic>(k: &K, scale: Double, z: Double, n: u32, gain: Double) -> bool {
    if Double::zero().at_most(z) {
        exists|g: Double|
            #[trigger] evaluates(k, gain_from_below(scale, z, n), g) && gain == g.larger(Double::zero())
    } else {
        exists|g: Double|
            #[trigger] evaluates(k, gain_from_above(scale, z, n), g) && gain == g.larger(Double::zero())
    }
}

/// `p` is the probability that one more sample turns the order of the action and its
/// competitor round.
pub open spec fn is_switch<K: Arithmetic>(
    k: &K,
    s: Stats,
    competitor: Double,
    z: Double,
    p: Double,
) -> bool {
    if competitor.at_most(s.mean) {
        exists|q: Double|
            #[trigger] evaluates(k, freedom(s.n).lower_tail(num(z)), q) && p == q.clamped()
    } else {
        exists|q: Double|
            #[trigger] evaluates(k, freedom(s.n).upper_tail(num(z)), q) && p == q.clamped()
    }
}

/// `voc` is the value of one more sample against the best competing mean: zero where it
/// cannot move the posterior mean.
pub open spec fn is_voc<K: Arithmetic>(k: &K, s: Stats, competitor: Double, voc: Double) -> bool {
    exists|scale: Option<Double>|
        #[trigger] is_step_scale(k, s, scale) && match scale {
            Some(t) => exists|z: Double|
                #[trigger] evaluates(k, steps_to(competitor, s.mean, t), z) && is_gain(
                    k,
                    t,
                    z,
                    s.n,
                    voc,
                ),
            None => voc == Double::zero(),
        }
}

/// As [`is_voc`], with the probability of a switch of order.
pub open spec fn is_voc_and_switch<K: Arithmetic>(
    k: &K,
    s: Stats,
    competitor: Double,
    voc: Double,
    switch: Double,
) -> bool {
    exists|scale: Option<Double>|
        #[trigger] is_step_scale(k, s, scale) && match scale {
            Some(t) => exists|z: Double|
                #[trigger] evaluates(k, steps_to(competitor, s.mean, t), z) && is_gain(
                    k,
                    t,
                    z,
                    s.n,
                    voc,
                ) && is_switch(k, s, competitor, z, switch),
            None => voc == Double::zero() && switch == Double::zero(),
        }
}

fn sampled<K: Arithmetic>(k: &K, n: u32) -> (r: Term)
    ensures
        r.holds(k),
        r.formula@ == count(n as u64),
{
    Term::count(k, n as u64)
}

fn freedom_of<K: Arithmetic>(k: &K, n: u32) -> (r: Term)
    ensures
        r.holds(k),
        r.formula@ == freedom(n),
{
    sampled(k, n).minus(k, Term::num(k, Double::one()))
}

fn leading_of<K: Arithmetic>(k: &K, n: u32, z: Double) -> (r: Term)
    ensures
        r.holds(k),
        r.formula@ == leading(n, z),
{
    let square = Term::num(k, z).times(k, Term::num(k, z));
    let below = freedom_of(k, n).minus(k, Term::num(k, Double::one()));
    let density = freedom_of(k, n).density(k, Term::num(k, z));
    freedom_of(k, n).plus(k, square).over(k, below).times(k, density)
}

impl Stats {
    /// The statistics of no sample.
    pub fn none() -> (r: Stats)
        ensures
            r == no_samples(),
    {
        Stats {
            n: 0,
            mean: Double::zero(),
            m2: Double::zero(),
            min: Double::zero(),
            max: Double::zero(),
        }
    }

    /// Takes in one more sample.
    pub fn observe<K: Arithmetic>(&mut self, k: &K, x: Double)
        requires
            old(self).n < u32::MAX,
        ensures
            with_sample(k, *old(self), x, *final(self)),
            final(self).n == old(self).n + 1,
    {
        if self.n == 0 {
            self.n = 1;
            self.mean = x;
            self.m2 = Double::zero();
            self.min = x;
            self.max = x;
            return ;
        }
        self.n = self.n + 1;
        let before = self.mean;
        let delta = Term::num(k, x).minus(k, Term::num(k, before));
        let step = delta.copy(k).over(k, sampled(k, self.n));
        self.mean = Term::num(k, before).plus(k, step).value;
        let left = Term::num(k, x).minus(k, Term::num(k, self.mean));
        self.m2 = Term::num(k, self.m2).plus(k, delta.times(k, left)).value;
        self.min = self.min.min(x);
        self.max = self.max.max(x);
    }

    /// The standard deviation of the samples.
    pub fn sd<K: Arithmetic>(self, k: &K) -> (r: Double)
        ensures
            is_deviation(k, self, r),
    {
        if self.n < 2 {
            return Double::zero();
        }
        let v = Term::num(k, self.m2).over(k, sampled(k, self.n - 1)).value;
        assert(evaluates(k, variance(self), v));
        Term::num(k, v.max(Double::zero())).root(k).value
    }

    /// A draw from the posterior of the mean.
    pub fn mean_sample<K: Arithmetic>(self, k: &K, rng: &mut SmallRng) -> (r: Double)
        ensures
            is_mean_draw(k, self, *old(rng), r, *final(rng)),
            exists|sd: Double|
                #[trigger] is_deviation(k, self, sd) && (!uncertain(self, sd) ==> *final(rng)
                    == *old(rng)),
    {
        let sd = self.sd(k);
        assert(is_deviation(k, self, sd));
        if self.n < 3 || sd.same(Double::zero()) {
            return self.mean;
        }
        let ghost before = *rng;
        let t = draw_t(k, sampled(k, self.n - 1), rng);
        assert(draws_t(k, count((self.n - 1) as u64), before, t, *rng));
        let step = Term::num(k, sd).over(k, sampled(k, self.n).root(k)).times(k, Term::num(k, t));
        Term::num(k, self.mean).plus(k, step).value
    }

    /// A draw of the next return.
    pub fn return_sample<K: Arithmetic>(self, k: &K, rng: &mut SmallRng) -> (r: Double)
        ensures
            is_return_draw(k, self, *old(rng), r, *final(rng)),
            exists|sd: Double|
                #[trigger] is_deviation(k, self, sd) && (!uncertain(self, sd) ==> *final(rng)
                    == *old(rng)),
    {
        let sd = self.sd(k);
        assert(is_deviation(k, self, sd));
        if self.n < 3 || sd.same(Double::zero()) {
            return self.mean;
        }
        let ghost before = *rng;
        let t = draw_t(k, sampled(k, self.n - 1), rng);
        assert(draws_t(k, count((self.n - 1) as u64), before, t, *rng));
        let part = Term::num(k, Double::one()).over(k, sampled(k, self.n));
        let spread = Term::num(k, Double::one()).plus(k, part).root(k);
        let step = Term::num(k, sd).times(k, spread).times(k, Term::num(k, t));
        Term::num(k, self.mean).plus(k, step).value
    }

    /// The mean with one more return.
    pub fn mean_with<K: Arithmetic>(self, k: &K, x: Double) -> (r: Double)
        ensures
            evaluates(k, mean_with(self, x), r),
    {
        let sum = sampled(k, self.n).times(k, Term::num(k, self.mean)).plus(k, Term::num(k, x));
        sum.over(k, sampled(k, self.n).plus(k, Term::num(k, Double::one()))).value
    }

    /// The scale by which one more sample moves the posterior mean, if it can.
    pub fn step_scale<K: Arithmetic>(self, k: &K) -> (r: Option<Double>)
        ensures
            is_step_scale(k, self, r),
    {
        if self.n < 3 {
            return None;
        }
        let sd = self.sd(k);
        assert(is_deviation(k, self, sd));
        if sd.le(Double::zero()) || !sd.is_finite() {
            return None;
        }
        let next = sampled(k, self.n).plus(k, Term::num(k, Double::one()));
        let t = Term::num(k, sd).over(k, sampled(k, self.n).times(k, next).root(k)).value;
        assert(evaluates(k, tau(sd, self.n), t));
        if t.le(Double::zero()) || !t.is_finite() {
            return None;
        }
        Some(t)
    }

    fn steps_to<K: Arithmetic>(self, k: &K, competitor: Double, scale: Double) -> (r: Double)
        ensures
            evaluates(k, steps_to(competitor, self.mean, scale), r),
    {
        let gap = Term::num(k, competitor).minus(k, Term::num(k, self.mean));
        gap.over(k, Term::num(k, scale)).value
    }
}

fn gain<K: Arithmetic>(k: &K, scale: Double, z: Double, n: u32) -> (r: Double)
    ensures
        is_gain(k, scale, z, n, r),
{
    let first = leading_of(k, n, z);
    if Double::zero().le(z) {
        let tail = Term::num(k, z).times(k, freedom_of(k, n).upper_tail(k, Term::num(k, z)));
        let g = Term::num(k, scale).times(k, first.minus(k, tail)).value;
        assert(evaluates(k, gain_from_below(scale, z, n), g));
        g.max(Double::zero())
    } else {
        let tail = Term::num(k, z).times(k, freedom_of(k, n).lower_tail(k, Term::num(k, z)));
        let g = Term::num(k, scale).times(k, first.plus(k, tail)).value;
        assert(evaluates(k, gain_from_above(scale, z, n), g));
        g.max(Double::zero())
    }
}

fn switch_probability<K: Arithmetic>(k: &K, s: Stats, competitor: Double, z: Double) -> (r: Double)
    ensures
        is_switch(k, s, competitor, z, r),
{
    if competitor.le(s.mean) {
        let q = freedom_of(k, s.n).lower_tail(k, Term::num(k, z)).value;
        assert(evaluates(k, freedom(s.n).lower_tail(num(z)), q));
        q.clamp_unit()
    } else {
        let q = freedom_of(k, s.n).upper_tail(k, Term::num(k, z)).value;
        assert(evaluates(k, freedom(s.n).upper_tail(num(z)), q));
        q.clamp_unit()
    }
}

/// The value of one more sample of an action against its best competitor.
pub fn exact_voc<K: Arithmetic>(k: &K, s: Stats, competitor: Double) -> (r: Double)
    ensures
        is_voc(k, s, competitor, r),
{
    match s.step_scale(k) {
        Some(t) => {
            let z = s.steps_to(k, competitor, t);
            gain(k, t, z, s.n)
        },
        None => Double::zero(),
    }
}

/// The value of one more sample of an action, and the probability that it turns the
/// order of the action and its best competitor round.
pub fn one_step_voc_and_switch<K: Arithmetic>(k: &K, s: Stats, competitor: Double) -> (r: (
    Double,
    Double,
))
    ensures
        is_voc_and_switch(k, s, competitor, r.0, r.1),
{
    match s.step_scale(k) {
        Some(t) => {
            let z = s.steps_to(k, competitor, t);
            let voc = gain(k, t, z, s.n);
            let switch = switch_probability(k, s, competitor, z);
            (voc, switch)
        },
        None => (Double::zero(), Double::zero()),
    }
}

/// The value of one more sample is never negative and never a NaN, and the probability of
/// a switch lies between zero and one wherever it is a number.
pub proof fn law_values_are_bounded<K: Arithmetic>(
    k: &K,
    s: Stats,
    competitor: Double,
    voc: Double,
    switch: Double,
)
    requires
        is_voc_and_switch(k, s, competitor, voc, switch),
    ensures
        Double::zero().at_most(voc),
        is_voc(k, s, competitor, voc),
        switch.nan() || Double::zero().at_most(switch) && switch.at_most(Double::one()),
{
    let scale = choose|scale: Option<Double>|
        #[trigger] is_step_scale(k, s, scale) && match scale {
            Some(t) => exists|z: Double|
                #[trigger] evaluates(k, steps_to(competitor, s.mean, t), z) && is_gain(
                    k,
                    t,
                    z,
                    s.n,
                    voc,
                ) && is_switch(k, s, competitor, z, switch),
            None => voc == Double::zero() && switch == Double::zero(),
        };
    assert(is_step_scale(k, s, scale));
}

/// `s` are the statistics after the samples `xs`, one after the other.
pub open spec fn takes_in<K: Arithmetic>(k: &K, xs: Seq<Double>, s: Stats) -> bool
    decreases xs.len(),
{
    if xs.len() == 0 {
        s == no_samples()
    } else {
        exists|before: Stats|
            takes_in(k, xs.drop_last(), before) && #[trigger] with_sample(k, before, xs.last(), s)
    }
}

/// The statistics of a sequence of samples hold their number exactly, and their smallest and
/// largest wherever one of them is a number.
pub proof fn law_samples_are_counted<K: Arithmetic>(k: &K, xs: Seq<Double>, s: Stats)
    requires
        takes_in(k, xs, s),
    ensures
        s.n == xs.len(),
        (exists|i: int| 0 <= i < xs.len() && !(#[trigger] xs[i]).nan()) ==> s.min == least(xs) && s.max
            == greatest(xs),
{
    lemma_extremes(k, xs, s);
    if exists|i: int| 0 <= i < xs.len() && !(#[trigger] xs[i]).nan() {
        let i = choose|i: int| 0 <= i < xs.len() && !(#[trigger] xs[i]).nan();
        assert(!all_nan(xs)) by {
            if all_nan(xs) {
                assert(xs[i].nan());
            }
        }
    }
}

spec fn all_nan(xs: Seq<Double>) -> bool {
    forall|i: int| 0 <= i < xs.len() ==> (#[trigger] xs[i]).nan()
}

proof fn lemma_extremes<K: Arithmetic>(k: &K, xs: Seq<Double>, s: Stats)
    requires
        takes_in(k, xs, s),
    ensures
        s.n == xs.len(),
        all_nan(xs) ==> least(xs) == Double::infinity() && greatest(xs) == Double::neg_infinity(),
        all_nan(xs) && xs.len() > 0 ==> s.min.nan() && s.max.nan(),
        !all_nan(xs) ==> s.min == least(xs) && s.max == greatest(xs) && !s.min.nan() && !s.max.nan(),
    decreases xs.len(),
{
    if xs.len() > 0 {
        let front = xs.drop_last();
        let x = xs.last();
        let before = choose|before: Stats|
            takes_in(k, front, before) && #[trigger] with_sample(k, before, x, s);
        lemma_extremes(k, front, before);
        assert(xs[xs.len() - 1] == x);
        assert(all_nan(xs) == (all_nan(front) && x.nan())) by {
            if all_nan(xs) {
                assert forall|i: int| 0 <= i < front.len() implies (#[trigger] front[i]).nan() by {
                    assert(xs[i].nan());
                }
            }
            if all_nan(front) && x.nan() {
                assert forall|i: int| 0 <= i < xs.len() implies (#[trigger] xs[i]).nan() by {
                    if i < front.len() {
                        assert(front[i].nan());
                    }
                }
            }
        }
    }
}

} // verus!
