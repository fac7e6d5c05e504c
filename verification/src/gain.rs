//! The value of a sample is an expected gain.

use crate::double::Double;
use crate::estimate::{freedom, gain_from_above, gain_from_below, leading, steps_to};
use crate::exact::{law_value_forms_agree, lemma_products_commute, lemma_quotient, Exact};
use vstd::prelude::*;

verus! {

/// What of a number is above zero.
pub open spec fn positive_part(x: real) -> real {
    if x > 0 as real {
        x
    } else {
        0 as real
    }
}

/// By how much the posterior mean after one more sample lies above the competitor, for a
/// draw `x` of the distribution: `(mean + scale * x - competitor)+`.
pub open spec fn lead_after(mean: real, scale: real, competitor: real) -> spec_fn(real) -> real {
    |x: real| positive_part(mean + scale * x - competitor)
}

/// By how much a draw of the distribution lies beyond `z`.
pub open spec fn beyond(z: real) -> spec_fn(real) -> real {
    |x: real| positive_part(x - z)
}

/// A function times a number.
pub open spec fn multiple(t: real, g: spec_fn(real) -> real) -> spec_fn(real) -> real {
    |x: real| t * g(x)
}

impl Exact {
    /// The expectation is that of the distribution: a factor can be taken out of it, and by
    /// how much a draw lies beyond `z` is `(nu + z^2) / (nu - 1) f(z) - z (1 - F(z))` on
    /// average.
    pub open spec fn expects(self, n: u32, z: Double) -> bool {
        let nu = self.of(freedom(n));
        &&& forall|f: real, g: spec_fn(real) -> real, t: real|
            t >= 0 as real ==> #[trigger] (self.expect)(f, multiple(t, g)) == t * (self.expect)(
                f,
                g,
            )
        &&& (self.expect)(nu, beyond(self.at(z))) == self.of(leading(n, z)) - self.at(z) * (
        self.upper_tail)(nu, self.at(z))
    }
}

proof fn lemma_product_of_difference(a: real, x: real, z: real)
    ensures
        a * (x - z) == a * x - z * a,
{
    assert(a * (x - z) == a * x - z * a) by (nonlinear_arith);
}

/// A product with a positive number has the sign of the other factor.
proof fn lemma_sign_of_product(a: real, x: real)
    requires
        a > 0 as real,
    ensures
        x > 0 as real ==> a * x > 0 as real,
        x < 0 as real ==> a * x < 0 as real,
        x == 0 as real ==> a * x == 0 as real,
{
    if x > 0 as real {
        assert(a * x > 0 as real) by (nonlinear_arith)
            requires
                a > 0 as real,
                x > 0 as real,
        ;
    } else if x < 0 as real {
        assert(a * x < 0 as real) by (nonlinear_arith)
            requires
                a > 0 as real,
                x < 0 as real,
        ;
    } else {
        assert(a * x == 0 as real) by (nonlinear_arith)
            requires
                x == 0 as real,
        ;
    }
}

proof fn lemma_lead_scales(mean: real, scale: real, competitor: real, z: real)
    requires
        scale > 0 as real,
        z * scale == competitor - mean,
    ensures
        lead_after(mean, scale, competitor) == multiple(scale, beyond(z)),
{
    let f = lead_after(mean, scale, competitor);
    let g = multiple(scale, beyond(z));
    assert forall|x: real| #[trigger] f(x) == g(x) by {
        let d = x - z;
        lemma_product_of_difference(scale, x, z);
        lemma_sign_of_product(scale, d);
    }
    assert(f =~= g);
}

/// The value of a sample is the expected gain: by how much the updated mean lies above the
/// competitor on average, less what the mean lies above it already. It is the form for a
/// competitor ahead of the mean, or for one behind it.
pub proof fn law_value_is_the_expected_gain(
    m: Exact,
    mean: Double,
    competitor: Double,
    scale: Double,
    z: Double,
    n: u32,
)
    requires
        m.has_tails(),
        m.expects(n, z),
        m.at(scale) > 0 as real,
        m.at(z) == m.of(steps_to(competitor, mean, scale)),
    ensures
        m.at(z) >= 0 as real ==> m.of(gain_from_below(scale, z, n)) == (m.expect)(
            m.of(freedom(n)),
            lead_after(m.at(mean), m.at(scale), m.at(competitor)),
        ) - positive_part(m.at(mean) - m.at(competitor)),
        m.at(z) < 0 as real ==> m.of(gain_from_above(scale, z, n)) == (m.expect)(
            m.of(freedom(n)),
            lead_after(m.at(mean), m.at(scale), m.at(competitor)),
        ) - positive_part(m.at(mean) - m.at(competitor)),
{
    let nu = m.of(freedom(n));
    let t = m.at(scale);
    let d = m.at(z);
    let u = m.at(mean);
    let c = m.at(competitor);
    assert(m.at(z) == (c - u) / t) by {
        reveal_with_fuel(Exact::of, 3);
    }
    lemma_quotient(c - u, t, d);
    lemma_lead_scales(u, t, c, d);
    let g = beyond(d);
    assert((m.expect)(nu, multiple(t, g)) == t * (m.expect)(nu, g));
    assert(m.of(gain_from_below(scale, z, n)) == t * (m.of(leading(n, z)) - d * (m.upper_tail)(nu, d)))
        by {
        reveal_with_fuel(Exact::of, 4);
    }
    assert((m.lower_tail)(nu, d) + (m.upper_tail)(nu, d) == 1 as real);
    law_value_forms_agree(m, scale, z, n);
    lemma_products_commute(d, t);
    lemma_sign_of_product(t, d);
}

} // verus!
