//! The formulas of the search in exact arithmetic: what a change of units does to them.
//!
//! Returns observed in other units, `a x + b` with `a > 0`, move the means with them, scale
//! the deviations and the value of a sample by `a`, and leave levels, steps and
//! probabilities as they are. What this comes to for the choice of a move is in
//! [`crate::rescale`].

use crate::arith::{count, num, Formula};
use crate::double::Double;
use crate::estimate::{
    freedom, gain_from_above, gain_from_below, leading, mean_draw, mean_with, next_deviations,
    next_mean, no_samples, return_draw, steps_to, tau, variance, RewardTransform, Stats,
};
use crate::select::{average_rise, level};
use crate::span::Span;
use vstd::prelude::*;

verus! {

/// A reading of formulas in exact arithmetic: what the numbers stand for, and the
/// functions that are not rational.
pub struct Exact {
    pub value: spec_fn(Double) -> real,
    pub seconds: spec_fn(Span) -> real,
    pub root: spec_fn(real) -> real,
    pub log: spec_fn(real) -> real,
    pub density: spec_fn(real, real) -> real,
    pub lower_tail: spec_fn(real, real) -> real,
    pub upper_tail: spec_fn(real, real) -> real,
    pub expect: spec_fn(real, spec_fn(real) -> real) -> real,
}

impl Exact {
    /// One is one, and the root of a number that is not negative is its root.
    pub open spec fn sound(self) -> bool {
        &&& (self.value)(Double::one()) == 1 as real
        &&& forall|x: real| x >= 0 as real ==> #[trigger] (self.root)(x) >= 0 as real && (self.root)(x)
            * (self.root)(x) == x
    }

    /// Finite numbers compare as what they stand for, and zero stands for zero.
    pub open spec fn ordered(self) -> bool {
        &&& (self.value)(Double::zero()) == 0 as real
        &&& forall|x: Double, y: Double|
            x.finite() && y.finite() ==> (#[trigger] x.below(y) <==> (self.value)(x) < (self.value)(y))
    }

    /// What a number stands for.
    pub open spec fn at(self, x: Double) -> real {
        (self.value)(x)
    }

    /// What a formula comes to.
    pub open spec fn of(self, e: Formula) -> real
        decreases e,
    {
        match e {
            Formula::Number(x) => (self.value)(x),
            Formula::Count(n) => n as real,
            Formula::TotalOf(n) => n as real,
            Formula::Seconds(s) => (self.seconds)(s),
            Formula::Plus(a, b) => self.of(*a) + self.of(*b),
            Formula::Minus(a, b) => self.of(*a) - self.of(*b),
            Formula::Times(a, b) => self.of(*a) * self.of(*b),
            Formula::Over(a, b) => self.of(*a) / self.of(*b),
            Formula::Root(a) => (self.root)(self.of(*a)),
            Formula::Log(a) => (self.log)(self.of(*a)),
            Formula::Density(a, b) => (self.density)(self.of(*a), self.of(*b)),
            Formula::LowerTail(a, b) => (self.lower_tail)(self.of(*a), self.of(*b)),
            Formula::UpperTail(a, b) => (self.upper_tail)(self.of(*a), self.of(*b)),
        }
    }
}

/// A return `y` is the return `x` in other units.
pub open spec fn in_units(m: Exact, a: real, b: real, x: Double, y: Double) -> bool {
    m.at(y) == a * m.at(x) + b
}

/// A distance `y` is the distance `x` in other units.
pub open spec fn scaled(m: Exact, a: real, x: Double, y: Double) -> bool {
    m.at(y) == a * m.at(x)
}

/// A quotient times its divisor is the dividend, and no other number is.
pub proof fn lemma_quotient(x: real, y: real, q: real)
    requires
        y != 0 as real,
    ensures
        (x / y) * y == x,
        q * y == x ==> x / y == q,
{
    let p = x / y;
    assert(p * y == x) by (nonlinear_arith)
        requires
            y != 0 as real,
            p == x / y,
    ;
    if q * y == x {
        assert((p - q) * y == p * y - q * y) by (nonlinear_arith);
        assert(p - q == 0 as real) by (nonlinear_arith)
            requires
                (p - q) * y == 0 as real,
                y != 0 as real,
        ;
    }
}

/// A factor can be taken out of a quotient.
pub proof fn lemma_factor_out(a: real, x: real, y: real)
    requires
        y != 0 as real,
    ensures
        (a * x) / y == a * (x / y),
{
    let q = x / y;
    lemma_quotient(x, y, q);
    assert((a * q) * y == a * (q * y)) by (nonlinear_arith);
    lemma_quotient(a * x, y, a * q);
}

/// A factor cancels.
proof fn lemma_factor_cancels(a: real, x: real, y: real)
    requires
        a != 0 as real,
        y != 0 as real,
    ensures
        (a * x) / (a * y) == x / y,
{
    let q = x / y;
    lemma_quotient(x, y, q);
    assert(a * y != 0 as real) by (nonlinear_arith)
        requires
            a != 0 as real,
            y != 0 as real,
    ;
    assert(q * (a * y) == a * (q * y)) by (nonlinear_arith);
    lemma_quotient(a * x, a * y, q);
}

/// Two numbers that are not negative and have the same square are equal.
proof fn lemma_same_square(x: real, y: real)
    requires
        x >= 0 as real,
        y >= 0 as real,
        x * x == y * y,
    ensures
        x == y,
{
    assert((x - y) * (x + y) == x * x - y * y) by (nonlinear_arith);
    if x != y {
        assert(x - y == 0 as real) by (nonlinear_arith)
            requires
                (x - y) * (x + y) == 0 as real,
                x + y > 0 as real,
        ;
    }
}

/// The root of a square times a number.
pub proof fn lemma_root_scales(m: Exact, a: real, v: real)
    requires
        m.sound(),
        a >= 0 as real,
        v >= 0 as real,
    ensures
        (m.root)((a * a) * v) == a * (m.root)(v),
{
    let r = (m.root)(v);
    assert(a * a >= 0 as real) by (nonlinear_arith);
    let aa = a * a;
    assert(aa * v >= 0 as real) by (nonlinear_arith)
        requires
            aa >= 0 as real,
            v >= 0 as real,
    ;
    let s = (m.root)((a * a) * v);
    assert(r * r == v);
    assert((a * r) * (a * r) == (a * a) * (r * r)) by (nonlinear_arith);
    assert(a * r >= 0 as real) by (nonlinear_arith)
        requires
            a >= 0 as real,
            r >= 0 as real,
    ;
    lemma_same_square(s, a * r);
}

/// The root of a positive number is not zero.
proof fn lemma_root_of_positive(m: Exact, v: real)
    requires
        m.sound(),
        v > 0 as real,
    ensures
        (m.root)(v) != 0 as real,
{
    let r = (m.root)(v);
    assert(r * r == v);
    if r == 0 as real {
        assert(r * r == 0 as real) by (nonlinear_arith)
            requires
                r == 0 as real,
        ;
    }
}

/// A difference of returns scales with the units.
pub proof fn lemma_difference(a: real, b: real, x: real, y: real)
    ensures
        (a * x + b) - (a * y + b) == a * (x - y),
{
    assert((a * x + b) - (a * y + b) == a * (x - y)) by (nonlinear_arith);
}

/// Which of two returns is greater, and which of two distances, does not depend on the
/// units: so the means of the moves, the draws from their posteriors and the values of a
/// sample keep their order.
pub proof fn law_order_has_no_units(m: Exact, a: real, b: real, x: Double, y: Double, u: Double, v: Double)
    requires
        a > 0 as real,
    ensures
        in_units(m, a, b, x, u) && in_units(m, a, b, y, v) ==> (m.at(u) < m.at(v) <==> m.at(x) < m.at(y)),
        scaled(m, a, x, u) && scaled(m, a, y, v) ==> (m.at(u) < m.at(v) <==> m.at(x) < m.at(y)),
{
    let p = m.at(x);
    let q = m.at(y);
    assert(a * p < a * q <==> p < q) by (nonlinear_arith)
        requires
            a > 0 as real,
    ;
}

/// A transform of the scores is a change of units: what is observed through it is what
/// is observed without one, in other units.
pub proof fn law_transform_changes_units(
    m: Exact,
    plain: RewardTransform,
    t: RewardTransform,
    score: u64,
    x: Double,
    y: Double,
)
    requires
        m.at(plain.scale) == 1 as real,
        m.at(plain.shift) == 0 as real,
        m.at(x) == m.of(plain.formula(score)),
        m.at(y) == m.of(t.formula(score)),
    ensures
        in_units(m, m.at(t.scale), m.at(t.shift), x, y),
{
    reveal_with_fuel(Exact::of, 4);
}

/// The mean of the returns moves with them.
pub proof fn law_mean_follows_units(
    m: Exact,
    a: real,
    b: real,
    s: Stats,
    x: Double,
    t: Stats,
    y: Double,
    n: u32,
)
    requires
        n > 0,
        in_units(m, a, b, s.mean, t.mean),
        in_units(m, a, b, x, y),
    ensures
        m.of(next_mean(t.mean, y, n)) == a * m.of(next_mean(s.mean, x, n)) + b,
{
    reveal_with_fuel(Exact::of, 4);
    let count = n as u64 as real;
    let u = m.at(s.mean);
    let v = m.at(x);
    lemma_difference(a, b, v, u);
    lemma_factor_out(a, v - u, count);
    let q = (v - u) / count;
    assert((a * u + b) + a * q == a * (u + q) + b) by (nonlinear_arith);
}

/// The squared deviations scale with the square of the units.
pub proof fn law_deviations_follow_units(
    m: Exact,
    a: real,
    b: real,
    s: Stats,
    x: Double,
    after: Double,
    t: Stats,
    y: Double,
    other_after: Double,
)
    requires
        in_units(m, a, b, s.mean, t.mean),
        in_units(m, a, b, after, other_after),
        in_units(m, a, b, x, y),
        scaled(m, a * a, s.m2, t.m2),
    ensures
        m.of(next_deviations(t.m2, t.mean, other_after, y)) == (a * a) * m.of(
            next_deviations(s.m2, s.mean, after, x),
        ),
{
    reveal_with_fuel(Exact::of, 4);
    let q = m.at(s.m2);
    let d = m.at(x) - m.at(s.mean);
    let e = m.at(x) - m.at(after);
    lemma_difference(a, b, m.at(x), m.at(s.mean));
    lemma_difference(a, b, m.at(x), m.at(after));
    assert((a * a) * q + (a * d) * (a * e) == (a * a) * (q + d * e)) by (nonlinear_arith);
}

/// The standard deviation scales with the units.
pub proof fn law_deviation_scales(m: Exact, a: real, s: Stats, v: Double, t: Stats, w: Double)
    requires
        m.sound(),
        a >= 0 as real,
        s.n >= 2,
        t.n == s.n,
        scaled(m, a * a, s.m2, t.m2),
        m.at(v) == m.of(variance(s)),
        m.at(v) >= 0 as real,
        m.at(w) == m.of(variance(t)),
    ensures
        scaled(m, a * a, v, w),
        m.of(num(w).root()) == a * m.of(num(v).root()),
{
    reveal_with_fuel(Exact::of, 3);
    lemma_factor_out(a * a, m.at(s.m2), (s.n - 1) as u64 as real);
    lemma_root_scales(m, a, m.at(v));
}

/// The steps of the posterior mean scale with the units.
pub proof fn law_steps_scale(m: Exact, a: real, sd: Double, other_sd: Double, n: u32)
    requires
        m.sound(),
        n > 0,
        scaled(m, a, sd, other_sd),
    ensures
        m.of(tau(other_sd, n)) == a * m.of(tau(sd, n)),
{
    reveal_with_fuel(Exact::of, 6);
    let count = n as u64 as real;
    let product = count * (count + 1 as real);
    assert(product > 0 as real) by (nonlinear_arith)
        requires
            count > 0 as real,
            product == count * (count + 1 as real),
    ;
    lemma_root_of_positive(m, product);
    lemma_factor_out(a, m.at(sd), (m.root)(product));
}

/// The distance to a competitor in steps has no units.
pub proof fn law_distance_has_no_units(
    m: Exact,
    a: real,
    b: real,
    competitor: Double,
    mean: Double,
    scale: Double,
    other_competitor: Double,
    other_mean: Double,
    other_scale: Double,
)
    requires
        a > 0 as real,
        m.at(scale) > 0 as real,
        in_units(m, a, b, competitor, other_competitor),
        in_units(m, a, b, mean, other_mean),
        scaled(m, a, scale, other_scale),
    ensures
        m.of(steps_to(other_competitor, other_mean, other_scale)) == m.of(
            steps_to(competitor, mean, scale),
        ),
{
    reveal_with_fuel(Exact::of, 3);
    lemma_difference(a, b, m.at(competitor), m.at(mean));
    lemma_factor_cancels(a, m.at(competitor) - m.at(mean), m.at(scale));
}

/// The place of a mean in the range of the returns has no units.
pub proof fn law_level_has_no_units(
    m: Exact,
    a: real,
    b: real,
    mean: Double,
    low: Double,
    range: Double,
    other_mean: Double,
    other_low: Double,
    other_range: Double,
)
    requires
        a > 0 as real,
        m.at(range) > 0 as real,
        in_units(m, a, b, mean, other_mean),
        in_units(m, a, b, low, other_low),
        scaled(m, a, range, other_range),
    ensures
        m.of(level(other_mean, other_low, other_range)) == m.of(level(mean, low, range)),
{
    reveal_with_fuel(Exact::of, 3);
    lemma_difference(a, b, m.at(mean), m.at(low));
    lemma_factor_cancels(a, m.at(mean) - m.at(low), m.at(range));
}

/// A cost in score units is held against the value in score units: both are scaled alike.
pub proof fn law_cost_is_in_score_units(m: Exact, t: RewardTransform, cost: Double, voc: Double)
    requires
        m.at(t.scale) > 0 as real,
    ensures
        m.at(voc) <= m.of(t.observed_units(cost)) <==> m.of(t.score_units(voc)) <= m.at(cost),
{
    reveal_with_fuel(Exact::of, 3);
    let c = m.at(cost);
    let scale = m.at(t.scale);
    let q = m.at(voc) / scale;
    lemma_quotient(m.at(voc), scale, q);
    assert(q * scale <= c * scale <==> q <= c) by (nonlinear_arith)
        requires
            scale > 0 as real,
    ;
}

/// Both forms of the value are the expected gain of the better mean less the gain that is
/// there already: they differ by the distance itself.
pub proof fn law_value_forms_agree(m: Exact, scale: Double, z: Double, n: u32)
    requires
        (m.lower_tail)(m.of(freedom(n)), m.at(z)) + (m.upper_tail)(m.of(freedom(n)), m.at(z))
            == 1 as real,
    ensures
        m.of(gain_from_above(scale, z, n)) == m.of(gain_from_below(scale, z, n)) + m.at(scale) * m.at(z),
{
    reveal_with_fuel(Exact::of, 8);
    let t = m.at(scale);
    let x = m.at(z);
    let first = m.of(leading(n, z));
    let low = (m.lower_tail)(m.of(freedom(n)), x);
    let high = (m.upper_tail)(m.of(freedom(n)), x);
    assert(t * (first + x * low) == t * (first - x * high) + t * (x * (low + high))) by (nonlinear_arith);
    assert(x * (low + high) == x);
}

/// A distance taken the other way round.
proof fn lemma_opposite(p: real, q: real, t: real)
    requires
        t != 0 as real,
    ensures
        (q - p) / t == -((p - q) / t),
{
    let d = (p - q) / t;
    lemma_quotient(p - q, t, d);
    assert((-d) * t == -(d * t)) by (nonlinear_arith);
    lemma_quotient(q - p, t, -d);
}

/// Two actions that are equally uncertain change places with the same probability,
/// whichever of them is ahead.
pub proof fn law_switch_is_symmetric(
    m: Exact,
    best: Double,
    rival: Double,
    scale: Double,
    z: Double,
    w: Double,
    n: u32,
)
    requires
        m.at(scale) > 0 as real,
        m.at(z) == m.of(steps_to(rival, best, scale)),
        m.at(w) == m.of(steps_to(best, rival, scale)),
        forall|f: real, x: real| (m.lower_tail)(f, -x) == #[trigger] (m.upper_tail)(f, x),
    ensures
        m.of(freedom(n).lower_tail(num(z))) == m.of(freedom(n).upper_tail(num(w))),
{
    reveal_with_fuel(Exact::of, 4);
    lemma_opposite(m.at(best), m.at(rival), m.at(scale));
    assert((m.upper_tail)(m.of(freedom(n)), m.at(w)) == (m.lower_tail)(m.of(freedom(n)), -m.at(w)));
}

proof fn lemma_factor_first(a: real, t: real, x: real)
    ensures
        (a * t) * x == a * (t * x),
{
    assert((a * t) * x == a * (t * x)) by (nonlinear_arith);
}

/// The value of a sample scales with the units, whether the competitor lies above or
/// below.
pub proof fn law_value_scales(
    m: Exact,
    a: real,
    scale: Double,
    z: Double,
    other_scale: Double,
    other_z: Double,
    n: u32,
)
    requires
        scaled(m, a, scale, other_scale),
        m.at(other_z) == m.at(z),
    ensures
        m.of(gain_from_below(other_scale, other_z, n)) == a * m.of(gain_from_below(scale, z, n)),
        m.of(gain_from_above(other_scale, other_z, n)) == a * m.of(gain_from_above(scale, z, n)),
{
    reveal_with_fuel(Exact::of, 8);
    let first = m.of(leading(n, z));
    lemma_factor_first(a, m.at(scale), first - m.at(z) * m.of(freedom(n).upper_tail(num(z))));
    lemma_factor_first(a, m.at(scale), first + m.at(z) * m.of(freedom(n).lower_tail(num(z))));
}

proof fn lemma_moved(a: real, b: real, u: real, q: real, t: real)
    ensures
        (a * u + b) + (a * q) * t == a * (u + q * t) + b,
{
    lemma_factor_first(a, q, t);
    assert(a * (u + q * t) == a * u + a * (q * t)) by (nonlinear_arith);
}

/// Draws of the mean and of the next return move with the returns, for one and the same
/// draw from Student's t distribution.
pub proof fn law_draws_follow_units(
    m: Exact,
    a: real,
    b: real,
    s: Stats,
    sd: Double,
    t: Stats,
    other_sd: Double,
    drawn: Double,
)
    requires
        m.sound(),
        s.n >= 3,
        t.n == s.n,
        in_units(m, a, b, s.mean, t.mean),
        scaled(m, a, sd, other_sd),
    ensures
        m.of(mean_draw(t, other_sd, drawn)) == a * m.of(mean_draw(s, sd, drawn)) + b,
        m.of(return_draw(t, other_sd, drawn)) == a * m.of(return_draw(s, sd, drawn)) + b,
{
    reveal_with_fuel(Exact::of, 8);
    let samples = s.n as u64 as real;
    let draw = m.at(drawn);
    lemma_root_of_positive(m, samples);
    lemma_factor_out(a, m.at(sd), (m.root)(samples));
    lemma_moved(a, b, m.at(s.mean), m.at(sd) / (m.root)(samples), draw);
    let spread = m.of(num(Double::one()).plus(num(Double::one()).over(count(s.n as u64))).root());
    lemma_factor_first(a, m.at(sd), spread);
    lemma_moved(a, b, m.at(s.mean), m.at(sd) * spread, draw);
}

proof fn lemma_weighted(a: real, b: real, n: real, u: real, v: real)
    ensures
        n * (a * u + b) + (a * v + b) == a * (n * u + v) + (n + 1 as real) * b,
{
    assert(n * (a * u + b) == a * (n * u) + n * b) by (nonlinear_arith);
    assert(a * (n * u + v) == a * (n * u) + a * v) by (nonlinear_arith);
    assert((n + 1 as real) * b == n * b + b) by (nonlinear_arith);
}

/// The average of `n` returns moves with them.
proof fn lemma_average_moves(a: real, b: real, sum: real, n: real)
    requires
        n != 0 as real,
    ensures
        (a * sum + n * b) / n == a * (sum / n) + b,
{
    let q = sum / n;
    lemma_quotient(sum, n, q);
    assert((a * q + b) * n == a * (q * n) + n * b) by (nonlinear_arith);
    lemma_quotient(a * sum + n * b, n, a * q + b);
}

/// The estimate from draws moves with the returns: so does the mean with one of them, and
/// the rise of the average over the best mean scales.
pub proof fn law_estimate_follows_units(
    m: Exact,
    a: real,
    b: real,
    s: Stats,
    x: Double,
    t: Stats,
    y: Double,
    total: Double,
    best: Double,
    other_total: Double,
    other_best: Double,
    draws: usize,
)
    requires
        m.sound(),
        s.n > 0,
        t.n == s.n,
        draws > 0,
        in_units(m, a, b, s.mean, t.mean),
        in_units(m, a, b, x, y),
        m.at(other_total) == a * m.at(total) + (draws as u64 as real) * b,
        in_units(m, a, b, best, other_best),
    ensures
        m.of(mean_with(t, y)) == a * m.of(mean_with(s, x)) + b,
        m.of(average_rise(other_total, draws, other_best)) == a * m.of(
            average_rise(total, draws, best),
        ),
{
    reveal_with_fuel(Exact::of, 6);
    let n = s.n as u64 as real;
    lemma_weighted(a, b, n, m.at(s.mean), m.at(x));
    lemma_average_moves(a, b, n * m.at(s.mean) + m.at(x), n + 1 as real);
    let times = draws as u64 as real;
    lemma_average_moves(a, b, m.at(total), times);
    lemma_difference(a, b, m.at(total) / times, m.at(best));
}

/// `after` are the statistics `before` with the sample `x`, computed exactly.
pub open spec fn exact_sample(m: Exact, before: Stats, x: Double, after: Stats) -> bool {
    if before.n == 0 {
        after == (Stats { n: 1, mean: x, m2: Double::zero(), min: x, max: x })
    } else {
        &&& after.n == before.n + 1
        &&& m.at(after.mean) == m.of(next_mean(before.mean, x, after.n))
        &&& m.at(after.m2) == m.of(next_deviations(before.m2, before.mean, after.mean, x))
        &&& after.min == before.min.smaller(x)
        &&& after.max == before.max.larger(x)
    }
}

/// `s` are the statistics after the samples `xs`, computed exactly.
pub open spec fn exactly_takes_in(m: Exact, xs: Seq<Double>, s: Stats) -> bool
    decreases xs.len(),
{
    if xs.len() == 0 {
        s == no_samples()
    } else {
        exists|before: Stats|
            exactly_takes_in(m, xs.drop_last(), before) && #[trigger] exact_sample(
                m,
                before,
                xs.last(),
                s,
            )
    }
}

/// The sum of the numbers.
pub open spec fn sum(m: Exact, xs: Seq<Double>) -> real
    decreases xs.len(),
{
    if xs.len() == 0 {
        0 as real
    } else {
        sum(m, xs.drop_last()) + m.at(xs.last())
    }
}

/// The sum of the squared distances of the numbers from `c`.
pub open spec fn deviations(m: Exact, xs: Seq<Double>, c: real) -> real
    decreases xs.len(),
{
    if xs.len() == 0 {
        0 as real
    } else {
        deviations(m, xs.drop_last(), c) + (m.at(xs.last()) - c) * (m.at(xs.last()) - c)
    }
}

/// The squared distances from `d`, from those from `c`.
proof fn lemma_deviations_move(m: Exact, xs: Seq<Double>, c: real, d: real)
    ensures
        deviations(m, xs, d) == deviations(m, xs, c) + (xs.len() as real) * (d * d - c * c) - (sum(m, xs)
            + sum(m, xs)) * (d - c),
    decreases xs.len(),
{
    let n = xs.len() as real;
    if xs.len() > 0 {
        let front = xs.drop_last();
        let x = m.at(xs.last());
        let k = front.len() as real;
        let s = sum(m, front);
        lemma_deviations_move(m, front, c, d);
        assert(n == k + 1 as real);
        assert((x - d) * (x - d) == (x - c) * (x - c) + (d * d - c * c) - (x + x) * (d - c))
            by (nonlinear_arith);
        let u = d * d - c * c;
        let v = d - c;
        assert((k + 1 as real) * u == k * u + u) by (nonlinear_arith);
        assert(((s + x) + (s + x)) * v == (s + s) * v + (x + x) * v) by (nonlinear_arith);
    } else {
        let u = d * d - c * c;
        let v = d - c;
        assert(n * u == 0 as real) by (nonlinear_arith)
            requires
                n == 0 as real,
        ;
        assert((sum(m, xs) + sum(m, xs)) * v == 0 as real) by (nonlinear_arith)
            requires
                sum(m, xs) == 0 as real,
        ;
    }
}

/// The updated mean times the number of samples.
proof fn lemma_mean_step(u: real, x: real, n: real, after: real)
    requires
        n != 0 as real,
        after == u + (x - u) / n,
    ensures
        n * after == (n - 1 as real) * u + x,
{
    let q = (x - u) / n;
    lemma_quotient(x - u, n, q);
    assert(n * (u + q) == n * u + q * n) by (nonlinear_arith);
    assert((n - 1 as real) * u == n * u - u) by (nonlinear_arith);
}

/// The update of the squared deviations, with the mean before and after a sample.
proof fn lemma_deviations_step(u: real, w: real, x: real, n: real, s: real)
    requires
        s == (n - 1 as real) * u,
        n * w == (n - 1 as real) * u + x,
    ensures
        (n - 1 as real) * (w * w - u * u) - (s + s) * (w - u) + (x - w) * (x - w) == (x - u) * (x - w),
{
    let k = n - 1 as real;
    let d = w - u;
    assert(k * (w * w - u * u) - (k * u + k * u) * (w - u) == (k * d) * d) by (nonlinear_arith)
        requires
            d == w - u,
    ;
    assert(k * d == x - w) by (nonlinear_arith)
        requires
            d == w - u,
            (k + 1 as real) * w == k * u + x,
    ;
    let e = x - w;
    assert(e * d + e * e == (d + e) * e) by (nonlinear_arith);
}

/// In exact arithmetic the statistics of a sequence of samples are their number, their mean
/// and the sum of their squared distances from it.
pub proof fn law_statistics_are_of_the_samples(m: Exact, xs: Seq<Double>, s: Stats)
    requires
        m.at(Double::zero()) == 0 as real,
        exactly_takes_in(m, xs, s),
    ensures
        s.n == xs.len(),
        (xs.len() as real) * m.at(s.mean) == sum(m, xs),
        m.at(s.m2) == deviations(m, xs, m.at(s.mean)),
    decreases xs.len(),
{
    if xs.len() == 0 {
        assert((xs.len() as real) * m.at(s.mean) == 0 as real) by (nonlinear_arith)
            requires
                xs.len() == 0,
        ;
    } else {
        let front = xs.drop_last();
        let x = m.at(xs.last());
        let before = choose|before: Stats|
            exactly_takes_in(m, front, before) && #[trigger] exact_sample(m, before, xs.last(), s);
        law_statistics_are_of_the_samples(m, front, before);
        if before.n == 0 {
            assert(front =~= Seq::<Double>::empty());
            assert(sum(m, front) == 0 as real);
            assert(deviations(m, front, x) == 0 as real);
            assert((xs.len() as real) * x == x) by (nonlinear_arith)
                requires
                    xs.len() == 1,
            ;
            assert((x - x) * (x - x) == 0 as real) by (nonlinear_arith);
        } else {
            reveal_with_fuel(Exact::of, 4);
            let n = s.n as u64 as real;
            let u = m.at(before.mean);
            let w = m.at(s.mean);
            assert(n == xs.len() as real);
            assert(front.len() as real == n - 1 as real);
            assert(w == u + (x - u) / n);
            lemma_mean_step(u, x, n, w);
            lemma_deviations_move(m, front, u, w);
            lemma_deviations_step(u, w, x, n, sum(m, front));
            assert(m.at(s.m2) == m.at(before.m2) + (x - u) * (x - w));
        }
    }
}

impl Exact {
    /// The distribution has as much on both sides of zero.
    pub open spec fn symmetric(self) -> bool {
        &&& forall|f: real, x: real| (self.density)(f, -x) == #[trigger] (self.density)(f, x)
        &&& forall|f: real, x: real| (self.lower_tail)(f, -x) == #[trigger] (self.upper_tail)(f, x)
    }

    /// The tails are probabilities: the upper one takes what the lower one leaves, and the
    /// lower one grows with the distance that it reaches.
    pub open spec fn has_tails(self) -> bool {
        &&& forall|f: real, x: real| #[trigger] (self.upper_tail)(f, x) >= 0 as real
        &&& forall|f: real, x: real|
            (self.lower_tail)(f, x) + #[trigger] (self.upper_tail)(f, x) == 1 as real
        &&& forall|f: real, x: real, y: real|
            x <= y ==> #[trigger] (self.lower_tail)(f, x) <= #[trigger] (self.lower_tail)(f, y)
    }

    /// `(nu + z^2) / (nu - 1) f(z)` is what the numbers beyond `z` add to the mean of the
    /// distribution: what lies between `y` and `z` adds at least `y` for its probability.
    pub open spec fn leads(self, n: u32, y: Double, z: Double) -> bool {
        self.of(leading(n, y)) - self.of(leading(n, z)) >= self.at(y) * ((self.upper_tail)(
            self.of(freedom(n)),
            self.at(y),
        ) - (self.upper_tail)(self.of(freedom(n)), self.at(z)))
    }
}

/// The value of a sample is the same whether the competitor lies as far above the mean as
/// it lies below it.
pub proof fn law_value_is_symmetric(m: Exact, scale: Double, z: Double, w: Double, n: u32)
    requires
        m.symmetric(),
        m.at(w) == -m.at(z),
    ensures
        m.of(gain_from_above(scale, w, n)) == m.of(gain_from_below(scale, z, n)),
{
    reveal_with_fuel(Exact::of, 8);
    let x = m.at(z);
    let nu = m.of(freedom(n));
    assert((m.density)(nu, -x) == (m.density)(nu, x));
    assert((m.lower_tail)(nu, -x) == (m.upper_tail)(nu, x));
    let high = (m.upper_tail)(nu, x);
    assert((-x) * (-x) == x * x) by (nonlinear_arith);
    assert((-x) * high == -(x * high)) by (nonlinear_arith);
}

/// The value of a sample falls with the distance of the competitor from the mean.
pub proof fn law_value_falls_with_distance(m: Exact, scale: Double, y: Double, z: Double, n: u32)
    requires
        m.has_tails(),
        m.leads(n, y, z),
        m.at(scale) >= 0 as real,
        0 as real <= m.at(y) <= m.at(z),
    ensures
        m.of(gain_from_below(scale, z, n)) <= m.of(gain_from_below(scale, y, n)),
{
    let nu = m.of(freedom(n));
    let near = m.at(y);
    let far = m.at(z);
    let p = (m.upper_tail)(nu, near);
    let q = (m.upper_tail)(nu, far);
    let a = m.of(leading(n, y));
    let b = m.of(leading(n, z));
    let t = m.at(scale);
    assert(m.of(gain_from_below(scale, y, n)) == t * (a - near * p)) by {
        reveal_with_fuel(Exact::of, 4);
    }
    assert(m.of(gain_from_below(scale, z, n)) == t * (b - far * q)) by {
        reveal_with_fuel(Exact::of, 4);
    }
    assert(near * (p - q) == near * p - near * q) by (nonlinear_arith);
    assert(near * q <= far * q) by (nonlinear_arith)
        requires
            near <= far,
            q >= 0 as real,
    ;
    let c = a - near * p;
    let d = b - far * q;
    assert(t * d <= t * c) by (nonlinear_arith)
        requires
            t >= 0 as real,
            d <= c,
    ;
}

/// One more sample turns the order of two actions round with a probability of at most one
/// half, and of no more where they lie further apart.
pub proof fn law_switch_falls_with_distance(m: Exact, y: Double, z: Double, n: u32)
    requires
        m.symmetric(),
        m.has_tails(),
    ensures
        m.at(z) <= m.at(y) <= 0 as real ==> m.of(freedom(n).lower_tail(num(z))) <= m.of(
            freedom(n).lower_tail(num(y)),
        ) && 2 as real * m.of(freedom(n).lower_tail(num(y))) <= 1 as real,
        0 as real <= m.at(y) <= m.at(z) ==> m.of(freedom(n).upper_tail(num(z))) <= m.of(
            freedom(n).upper_tail(num(y)),
        ) && 2 as real * m.of(freedom(n).upper_tail(num(y))) <= 1 as real,
{
    reveal_with_fuel(Exact::of, 4);
    let nu = m.of(freedom(n));
    let near = m.at(y);
    let far = m.at(z);
    let none = 0 as real;
    assert((m.lower_tail)(nu, -none) == (m.upper_tail)(nu, none));
    assert(-none == none);
    assert((m.lower_tail)(nu, none) + (m.upper_tail)(nu, none) == 1 as real);
    assert((m.lower_tail)(nu, near) + (m.upper_tail)(nu, near) == 1 as real);
    assert((m.lower_tail)(nu, far) + (m.upper_tail)(nu, far) == 1 as real);
    if far <= near && near <= none {
        assert((m.lower_tail)(nu, far) <= (m.lower_tail)(nu, near));
        assert((m.lower_tail)(nu, near) <= (m.lower_tail)(nu, none));
    }
    if none <= near && near <= far {
        assert((m.lower_tail)(nu, none) <= (m.lower_tail)(nu, near));
        assert((m.lower_tail)(nu, near) <= (m.lower_tail)(nu, far));
    }
}

proof fn lemma_spread(root_n: real, root_more: real, part: real, spread: real, n: real)
    requires
        n > 0 as real,
        root_n > 0 as real,
        root_n * root_n == n,
        root_more >= 0 as real,
        root_more * root_more == n + 1 as real,
        part * n == 1 as real,
        spread >= 0 as real,
        spread * spread == 1 as real + part,
    ensures
        spread * root_n == root_more,
{
    assert((spread * root_n) * (spread * root_n) == (spread * spread) * (root_n * root_n))
        by (nonlinear_arith);
    assert((1 as real + part) * n == n + part * n) by (nonlinear_arith);
    assert(spread * root_n >= 0 as real) by (nonlinear_arith)
        requires
            spread >= 0 as real,
            root_n > 0 as real,
    ;
    lemma_same_square(spread * root_n, root_more);
}

/// For one draw from Student's t distribution the next return lies `sqrt(n + 1)` times as
/// far from the mean as the draw from the posterior of the mean.
pub proof fn law_returns_spread_wider(m: Exact, s: Stats, sd: Double, drawn: Double)
    requires
        m.sound(),
        s.n >= 1,
    ensures
        m.of(return_draw(s, sd, drawn)) - m.at(s.mean) == (m.root)(s.n as u64 as real + 1 as real) * (
        m.of(mean_draw(s, sd, drawn)) - m.at(s.mean)),
{
    reveal_with_fuel(Exact::of, 8);
    let n = s.n as u64 as real;
    let t = m.at(drawn);
    let d = m.at(sd);
    let root_n = (m.root)(n);
    let root_more = (m.root)(n + 1 as real);
    let part = 1 as real / n;
    lemma_quotient(1 as real, n, part);
    lemma_root_of_positive(m, n);
    assert(part >= 0 as real) by (nonlinear_arith)
        requires
            part * n == 1 as real,
            n > 0 as real,
    ;
    let spread = (m.root)(1 as real + part);
    lemma_spread(root_n, root_more, part, spread, n);
    let q = d / root_n;
    lemma_quotient(d, root_n, q);
    assert((d * spread) * t == root_more * (q * t)) by (nonlinear_arith)
        requires
            q * root_n == d,
            spread * root_n == root_more,
    {
        assert((q * root_n) * spread == q * (spread * root_n)) by (nonlinear_arith);
        assert((q * root_more) * t == root_more * (q * t)) by (nonlinear_arith);
    }
}

/// The factors of a product can change places.
pub proof fn lemma_products_commute(a: real, b: real)
    ensures
        a * b == b * a,
{
    assert(a * b == b * a) by (nonlinear_arith);
}

} // verus!
