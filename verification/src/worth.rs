//! The value of one more sample in exact arithmetic: how far the updated mean is expected to
//! overtake the best of the other moves, or to fall behind it.

use crate::arith::{evaluates, num, Arithmetic};
use crate::double::Double;
use crate::estimate::{
    freedom, gain_from_above, gain_from_below, is_deviation, is_gain, is_step_scale, is_switch,
    is_voc, is_voc_and_switch, leading, proper, steps_to, tau, Stats,
};
use crate::exact::{lemma_quotient, Exact};
use crate::gain::{beyond, positive_part};
use crate::posterior::{
    law_deviation_is_of_the_samples, lemma_regroup, lemma_square_is_positive,
    lemma_square_of_product, square,
};
use crate::units::{exact_at, exact_step_scale, exact_value, lemma_against_zero, plain};
use vstd::prelude::*;

verus! {

/// By how much a draw of the distribution falls short of `z`.
pub open spec fn short_of(z: real) -> spec_fn(real) -> real {
    |x: real| positive_part(z - x)
}

impl Exact {
    /// Expectations and tails are those of Student's t distribution with `nu` degrees of freedom:
    /// by how much a draw lies beyond a number or falls short of it on average, and that tails are
    /// probabilities.
    pub open spec fn student(self, nu: real) -> bool {
        forall|z: real|
            {
                &&& (nu - 1 as real) * #[trigger] (self.expect)(nu, beyond(z)) == (nu + square(z))
                    * (self.density)(nu, z) - (nu - 1 as real) * (z * (self.upper_tail)(nu, z))
                &&& (nu - 1 as real) * (self.expect)(nu, short_of(z)) == (nu + square(z)) * (
                self.density)(nu, z) + (nu - 1 as real) * (z * (self.lower_tail)(nu, z))
                &&& (self.expect)(nu, beyond(z)) >= 0 as real
                &&& (self.expect)(nu, short_of(z)) >= 0 as real
                &&& 0 as real <= (self.upper_tail)(nu, z) <= 1 as real
                &&& 0 as real <= (self.lower_tail)(nu, z) <= 1 as real
            }
    }
}

/// `step` is the scale by which one more sample moves the mean: `(n - 1) n (n + 1)` times its
/// square is the sum of the squared deviations.
pub open spec fn is_step(m: Exact, s: Stats, step: real) -> bool {
    let n = s.n as real;
    step > 0 as real && ((n - 1 as real) * (n * (n + 1 as real))) * square(step) == m.at(s.m2)
}

/// `z` is how many steps the competitor lies above the mean.
pub open spec fn is_distance(m: Exact, s: Stats, competitor: Double, step: real, z: real) -> bool {
    z * step == m.at(competitor) - m.at(s.mean)
}

/// `v` is how far the mean of a move is expected to overtake the competitor with one more sample,
/// where it is not ahead of it, or to fall behind it, where it is.
pub open spec fn is_expected_turn(m: Exact, n: u32, step: real, z: real, v: real) -> bool {
    let nu = n as real - 1 as real;
    if z >= 0 as real {
        v == step * (m.expect)(nu, beyond(z))
    } else {
        v == step * (m.expect)(nu, short_of(z))
    }
}

/// `v` is the value of one more sample: zero without three samples that differ, and else what is
/// expected of it.
pub open spec fn is_worth(m: Exact, s: Stats, competitor: Double, v: real) -> bool {
    if s.n < 3 || m.at(s.m2) == 0 as real {
        v == 0 as real
    } else {
        exists|step: real, z: real|
            #[trigger] is_step(m, s, step) && #[trigger] is_distance(m, s, competitor, step, z)
                && is_expected_turn(m, s.n, step, z, v)
    }
}

proof fn lemma_tau(m: Exact, sd: Double, n: u32)
    requires
        m.sound(),
        n > 0,
        m.at(sd) >= 0 as real,
    ensures
        ((n as real) * (n as real + 1 as real)) * square(m.of(tau(sd, n))) == square(m.at(sd)),
        m.of(tau(sd, n)) >= 0 as real,
        m.at(sd) > 0 as real ==> m.of(tau(sd, n)) > 0 as real,
{
    let r = n as real;
    assert(n as u64 as real == r);
    let inside = r * (r + 1 as real);
    let w = (m.root)(inside);
    assert(m.of(tau(sd, n)) == m.at(sd) / w) by {
        reveal_with_fuel(Exact::of, 5);
    }
    assert(inside > 0 as real) by (nonlinear_arith)
        requires
            inside == r * (r + 1 as real),
            r > 0 as real,
    ;
    assert(w * w == inside);
    lemma_square_is_positive(w);
    let d = m.at(sd) / w;
    lemma_quotient(m.at(sd), w, d);
    lemma_square_of_product(d, w);
    lemma_regroup(square(d), inside, 1 as real);
    assert(d >= 0 as real) by (nonlinear_arith)
        requires
            d * w == m.at(sd),
            m.at(sd) >= 0 as real,
            w >= 0 as real,
            w != 0 as real,
    ;
    if m.at(sd) > 0 as real && d == 0 as real {
        assert(d * w == 0 as real) by (nonlinear_arith)
            requires
                d == 0 as real,
        ;
    }
}

/// The scale of the steps: there is one where three samples differ, and it is as their squared
/// deviations say.
pub proof fn law_steps_are_of_the_samples<K: Arithmetic>(
    k: &K,
    m: Exact,
    s: Stats,
    scale: Option<Double>,
)
    requires
        m.sound(),
        m.ordered(),
        plain(s.m2),
        m.at(s.m2) >= 0 as real,
        exact_step_scale(k, m, s),
        is_step_scale(k, s, scale),
    ensures
        scale is Some <==> s.n >= 3 && m.at(s.m2) != 0 as real,
        scale matches Some(t) ==> is_step(m, s, m.at(t)) && plain(t),
{
    if s.n >= 3 {
        let sd = choose|sd: Double|
            #[trigger] is_deviation(k, s, sd) && if !proper(sd) {
                scale == None::<Double>
            } else {
                exists|t: Double|
                    #[trigger] evaluates(k, tau(sd, s.n), t) && scale == (if proper(t) {
                        Some(t)
                    } else {
                        None
                    })
            };
        law_deviation_is_of_the_samples(k, m, s, sd);
        lemma_against_zero(m, sd);
        lemma_square_is_positive(m.at(sd));
        let n = s.n as real;
        let n1 = n - 1 as real;
        let ss = square(m.at(sd));
        if m.at(sd) == 0 as real {
            assert(n1 * ss == 0 as real) by (nonlinear_arith)
                requires
                    ss == 0 as real,
            ;
        } else {
            assert(n1 * ss > 0 as real) by (nonlinear_arith)
                requires
                    ss > 0 as real,
                    n1 > 0 as real,
            ;
            let t = choose|t: Double|
                #[trigger] evaluates(k, tau(sd, s.n), t) && scale == (if proper(t) {
                    Some(t)
                } else {
                    None
                });
            assert(exact_at(k, m, tau(sd, s.n)));
            lemma_tau(m, sd, s.n);
            lemma_against_zero(m, t);
            lemma_regroup(n1, n * (n + 1 as real), square(m.at(t)));
        }
    }
}

proof fn lemma_freedom(m: Exact, n: u32)
    requires
        m.sound(),
    ensures
        m.of(freedom(n)) == n as real - 1 as real,
{
    reveal_with_fuel(Exact::of, 2);
    assert(n as u64 as real == n as real);
}

proof fn lemma_leading(m: Exact, n: u32, z: Double)
    requires
        m.sound(),
        n >= 3,
    ensures
        (n as real - 2 as real) * m.of(leading(n, z)) == (n as real - 1 as real + square(m.at(z))) * (
        m.density)(n as real - 1 as real, m.at(z)),
{
    lemma_freedom(m, n);
    let nu = n as real - 1 as real;
    let top = nu + square(m.at(z));
    let below = nu - 1 as real;
    let f = (m.density)(nu, m.at(z));
    let a = freedom(n).plus(num(z).times(num(z)));
    let b = freedom(n).minus(num(Double::one()));
    assert(m.of(num(z).times(num(z))) == square(m.at(z))) by {
        reveal_with_fuel(Exact::of, 2);
    }
    assert(m.of(num(Double::one())) == 1 as real);
    assert(m.of(a) == top);
    assert(m.of(b) == below);
    assert(m.of(freedom(n).density(num(z))) == f) by {
        assert(m.of(num(z)) == m.at(z));
    }
    assert(m.of(a.over(b)) == top / below);
    assert(m.of(leading(n, z)) == (top / below) * f);
    let q = top / below;
    lemma_quotient(top, below, q);
    assert(below * (q * f) == (q * below) * f) by (nonlinear_arith);
}

proof fn lemma_cancel(a: real, x: real, y: real)
    requires
        a > 0 as real,
        a * x == a * y,
    ensures
        x == y,
{
    assert(x == y) by (nonlinear_arith)
        requires
            a > 0 as real,
            a * x == a * y,
    ;
}

/// The forms of the gain are the expected turns.
proof fn lemma_gain_forms(m: Exact, scale: Double, z: Double, n: u32)
    requires
        m.sound(),
        n >= 3,
        m.student(n as real - 1 as real),
    ensures
        m.of(gain_from_below(scale, z, n)) == m.at(scale) * (m.expect)(
            n as real - 1 as real,
            beyond(m.at(z)),
        ),
        m.of(gain_from_above(scale, z, n)) == m.at(scale) * (m.expect)(
            n as real - 1 as real,
            short_of(m.at(z)),
        ),
{
    let nu = n as real - 1 as real;
    let a = nu - 1 as real;
    let d = m.at(z);
    lemma_freedom(m, n);
    lemma_leading(m, n, z);
    let lead = m.of(leading(n, z));
    let up = d * (m.upper_tail)(nu, d);
    let low = d * (m.lower_tail)(nu, d);
    let e = (m.expect)(nu, beyond(d));
    let f = (m.expect)(nu, short_of(d));
    assert(m.of(num(z)) == d);
    assert(m.of(freedom(n).upper_tail(num(z))) == (m.upper_tail)(nu, d));
    assert(m.of(freedom(n).lower_tail(num(z))) == (m.lower_tail)(nu, d));
    assert(m.of(num(z).times(freedom(n).upper_tail(num(z)))) == up);
    assert(m.of(num(z).times(freedom(n).lower_tail(num(z)))) == low);
    assert(m.of(leading(n, z).minus(num(z).times(freedom(n).upper_tail(num(z))))) == lead - up);
    assert(m.of(leading(n, z).plus(num(z).times(freedom(n).lower_tail(num(z))))) == lead + low);
    assert(m.of(num(scale)) == m.at(scale));
    assert(m.of(gain_from_below(scale, z, n)) == m.at(scale) * (lead - up));
    assert(m.of(gain_from_above(scale, z, n)) == m.at(scale) * (lead + low));
    assert(a * (lead - up) == a * lead - a * up) by (nonlinear_arith);
    assert(a * (lead + low) == a * lead + a * low) by (nonlinear_arith);
    lemma_cancel(a, lead - up, e);
    lemma_cancel(a, lead + low, f);
}

/// The gain at a distance.
proof fn lemma_gain<K: Arithmetic>(k: &K, m: Exact, s: Stats, scale: Double, z: Double, gain: Double)
    requires
        m.sound(),
        m.ordered(),
        s.n >= 3,
        m.student(s.n as real - 1 as real),
        m.at(scale) > 0 as real,
        plain(z),
        exact_at(
            k,
            m,
            if Double::zero().at_most(z) {
                gain_from_below(scale, z, s.n)
            } else {
                gain_from_above(scale, z, s.n)
            },
        ),
        is_gain(k, scale, z, s.n, gain),
    ensures
        is_expected_turn(m, s.n, m.at(scale), m.at(z), m.at(gain)),
        plain(gain),
{
    lemma_against_zero(m, z);
    lemma_gain_forms(m, scale, z, s.n);
    let nu = s.n as real - 1 as real;
    let t = m.at(scale);
    let e = if m.at(z) >= 0 as real {
        (m.expect)(nu, beyond(m.at(z)))
    } else {
        (m.expect)(nu, short_of(m.at(z)))
    };
    assert((m.expect)(nu, beyond(m.at(z))) >= 0 as real);
    assert(t * e >= 0 as real) by (nonlinear_arith)
        requires
            t > 0 as real,
            e >= 0 as real,
    ;
    if Double::zero().at_most(z) {
        let g = choose|g: Double|
            #[trigger] evaluates(k, gain_from_below(scale, z, s.n), g) && gain == g.larger(Double::zero());
        lemma_against_zero(m, g);
    } else {
        let g = choose|g: Double|
            #[trigger] evaluates(k, gain_from_above(scale, z, s.n), g) && gain == g.larger(Double::zero());
        lemma_against_zero(m, g);
    }
}

/// In exact arithmetic the value of one more sample against a competitor is by how much the sample
/// is expected to turn the order round: by how much the updated mean overtakes the competitor on
/// average where the mean is not ahead of it, and by how much it falls behind where it is. The
/// updated mean moves by steps of which `(n - 1) n (n + 1)` times the square is the sum of the
/// squared deviations, each a draw of Student's t distribution with `n - 1` degrees of freedom.
/// Without three samples that differ the value is zero.
pub proof fn law_value_is_the_expected_turn<K: Arithmetic>(
    k: &K,
    m: Exact,
    s: Stats,
    competitor: Double,
    voc: Double,
)
    requires
        m.sound(),
        m.ordered(),
        plain(s.m2),
        m.at(s.m2) >= 0 as real,
        s.n >= 3 ==> m.student(s.n as real - 1 as real),
        exact_value(k, m, s, competitor),
        is_voc(k, s, competitor, voc),
    ensures
        is_worth(m, s, competitor, m.at(voc)),
        plain(voc),
{
    let scale = choose|scale: Option<Double>|
        #[trigger] is_step_scale(k, s, scale) && match scale {
            Some(t) => exists|z: Double|
                #[trigger] evaluates(k, steps_to(competitor, s.mean, t), z) && is_gain(
                    k,
                    t,
                    z,
                    s.n,
                    voc,
                ),
            None => voc == Double::zero(),
        };
    law_steps_are_of_the_samples(k, m, s, scale);
    match scale {
        Some(t) => {
            let z = choose|z: Double|
                #[trigger] evaluates(k, steps_to(competitor, s.mean, t), z) && is_gain(
                    k,
                    t,
                    z,
                    s.n,
                    voc,
                );
            lemma_distance(k, m, s, competitor, t, z);
            lemma_gain(k, m, s, t, z, voc);
            assert(is_distance(m, s, competitor, m.at(t), m.at(z)));
        },
        None => {},
    }
}

proof fn lemma_distance<K: Arithmetic>(k: &K, m: Exact, s: Stats, competitor: Double, t: Double, z: Double)
    requires
        m.at(t) > 0 as real,
        exact_value(k, m, s, competitor),
        is_step_scale(k, s, Some(t)),
        evaluates(k, steps_to(competitor, s.mean, t), z),
    ensures
        is_distance(m, s, competitor, m.at(t), m.at(z)),
        plain(z),
{
    assert(exact_at(k, m, steps_to(competitor, s.mean, t)));
    assert(m.at(z) == (m.at(competitor) - m.at(s.mean)) / m.at(t)) by {
        reveal_with_fuel(Exact::of, 3);
    }
    lemma_quotient(m.at(competitor) - m.at(s.mean), m.at(t), m.at(z));
}

/// Nothing rounds in the probability of a switch.
pub open spec fn exact_switch<K: Arithmetic>(k: &K, m: Exact, s: Stats, competitor: Double) -> bool {
    forall|t: Double, z: Double|
        is_step_scale(k, s, Some(t)) && #[trigger] evaluates(k, steps_to(competitor, s.mean, t), z) ==> {
            &&& exact_at(k, m, freedom(s.n).lower_tail(num(z)))
            &&& exact_at(k, m, freedom(s.n).upper_tail(num(z)))
        }
}

/// `p` is the probability that one more sample turns the order round: that the updated mean is at
/// most the competitor where the mean is not behind it, and above it where it is; zero where the
/// sample moves nothing.
pub open spec fn is_turn_probability(m: Exact, s: Stats, competitor: Double, p: real) -> bool {
    let nu = s.n as real - 1 as real;
    if s.n < 3 || m.at(s.m2) == 0 as real {
        p == 0 as real
    } else {
        exists|step: real, z: real|
            {
                &&& #[trigger] is_step(m, s, step)
                &&& #[trigger] is_distance(m, s, competitor, step, z)
                &&& p == if m.at(competitor) <= m.at(s.mean) {
                    (m.lower_tail)(nu, z)
                } else {
                    (m.upper_tail)(nu, z)
                }
            }
    }
}

/// What is shown of a move with its value: the value, and the probability that one more sample
/// turns the order of the move and its competitor round.
pub proof fn law_switch_is_the_probability_of_a_turn<K: Arithmetic>(
    k: &K,
    m: Exact,
    s: Stats,
    competitor: Double,
    voc: Double,
    switch: Double,
)
    requires
        m.sound(),
        m.ordered(),
        plain(s.m2),
        plain(s.mean),
        plain(competitor),
        m.at(s.m2) >= 0 as real,
        s.n >= 3 ==> m.student(s.n as real - 1 as real),
        exact_value(k, m, s, competitor),
        exact_switch(k, m, s, competitor),
        is_voc_and_switch(k, s, competitor, voc, switch),
    ensures
        is_worth(m, s, competitor, m.at(voc)),
        is_turn_probability(m, s, competitor, m.at(switch)),
{
    let scale = choose|scale: Option<Double>|
        #[trigger] is_step_scale(k, s, scale) && match scale {
            Some(t) => exists|z: Double|
                #[trigger] evaluates(k, steps_to(competitor, s.mean, t), z) && is_gain(
                    k,
                    t,
                    z,
                    s.n,
                    voc,
                ) && is_switch(k, s, competitor, z, switch),
            None => voc == Double::zero() && switch == Double::zero(),
        };
    law_steps_are_of_the_samples(k, m, s, scale);
    match scale {
        Some(t) => {
            let z = choose|z: Double|
                #[trigger] evaluates(k, steps_to(competitor, s.mean, t), z) && is_gain(
                    k,
                    t,
                    z,
                    s.n,
                    voc,
                ) && is_switch(k, s, competitor, z, switch);
            lemma_distance(k, m, s, competitor, t, z);
            lemma_gain(k, m, s, t, z, voc);
            assert(is_distance(m, s, competitor, m.at(t), m.at(z)));
            lemma_switch(k, m, s, competitor, t, z, switch);
        },
        None => {},
    }
}

proof fn lemma_switch<K: Arithmetic>(
    k: &K,
    m: Exact,
    s: Stats,
    competitor: Double,
    t: Double,
    z: Double,
    switch: Double,
)
    requires
        m.sound(),
        m.ordered(),
        plain(s.mean),
        plain(competitor),
        m.student(s.n as real - 1 as real),
        exact_switch(k, m, s, competitor),
        is_step_scale(k, s, Some(t)),
        evaluates(k, steps_to(competitor, s.mean, t), z),
        is_switch(k, s, competitor, z, switch),
    ensures
        m.at(switch) == if m.at(competitor) <= m.at(s.mean) {
            (m.lower_tail)(s.n as real - 1 as real, m.at(z))
        } else {
            (m.upper_tail)(s.n as real - 1 as real, m.at(z))
        },
{
    let nu = s.n as real - 1 as real;
    lemma_freedom(m, s.n);
    assert(m.of(num(z)) == m.at(z));
    assert(m.of(freedom(s.n).lower_tail(num(z))) == (m.lower_tail)(nu, m.at(z)));
    assert(m.of(freedom(s.n).upper_tail(num(z))) == (m.upper_tail)(nu, m.at(z)));
    assert((m.expect)(nu, beyond(m.at(z))) >= 0 as real);
    assert(s.mean.below(competitor) <==> m.at(s.mean) < m.at(competitor));
    assert(competitor.at_most(s.mean) <==> m.at(competitor) <= m.at(s.mean));
    assert(exact_at(k, m, freedom(s.n).lower_tail(num(z))));
    assert(exact_at(k, m, freedom(s.n).upper_tail(num(z))));
    if competitor.at_most(s.mean) {
        let q = choose|q: Double|
            #[trigger] evaluates(k, freedom(s.n).lower_tail(num(z)), q) && switch == q.clamped();
        lemma_clamped(m, q);
    } else {
        let q = choose|q: Double|
            #[trigger] evaluates(k, freedom(s.n).upper_tail(num(z)), q) && switch == q.clamped();
        lemma_clamped(m, q);
    }
}

proof fn lemma_clamped(m: Exact, q: Double)
    requires
        m.sound(),
        m.ordered(),
        plain(q),
        0 as real <= m.at(q) <= 1 as real,
    ensures
        q.clamped() == q,
{
    lemma_against_zero(m, q);
    assert(Double::one().finite());
    assert(Double::one().below(q) <==> m.at(Double::one()) < m.at(q));
}

} // verus!
