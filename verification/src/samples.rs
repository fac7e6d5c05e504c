//! The statistics of a sequence of samples in exact arithmetic: their order does not matter,
//! and the mean lies between the smallest and the largest.

use crate::double::Double;
use crate::estimate::{no_samples, Stats};
use crate::exact::{
    deviations, exact_sample, exactly_takes_in, law_statistics_are_of_the_samples,
    lemma_products_commute, lemma_quotient, sum, Exact,
};
use vstd::prelude::*;

verus! {

/// The sum of the numbers without one of them.
proof fn lemma_sum_without(m: Exact, xs: Seq<Double>, i: int, c: real)
    requires
        0 <= i < xs.len(),
    ensures
        sum(m, xs) == sum(m, xs.remove(i)) + m.at(xs[i]),
        deviations(m, xs, c) == deviations(m, xs.remove(i), c) + (m.at(xs[i]) - c) * (m.at(xs[i]) - c),
    decreases xs.len(),
{
    if i == xs.len() - 1 {
        assert(xs.remove(i) =~= xs.drop_last());
    } else {
        lemma_sum_without(m, xs.drop_last(), i, c);
        assert(xs.remove(i).drop_last() =~= xs.drop_last().remove(i));
        assert(xs.remove(i).last() == xs.last());
    }
}

/// Sums do not depend on the order of the numbers.
proof fn lemma_sums_have_no_order(m: Exact, xs: Seq<Double>, ys: Seq<Double>, c: real)
    requires
        xs.to_multiset() == ys.to_multiset(),
    ensures
        xs.len() == ys.len(),
        sum(m, xs) == sum(m, ys),
        deviations(m, xs, c) == deviations(m, ys, c),
    decreases xs.len(),
{
    broadcast use vstd::seq_lib::group_to_multiset_ensures;

    assert(xs.len() == xs.to_multiset().len());
    assert(ys.len() == ys.to_multiset().len());
    if xs.len() > 0 {
        let x = xs.last();
        assert(xs.contains(xs[xs.len() - 1]));
        assert(xs.to_multiset().count(x) > 0);
        assert(ys.contains(x));
        let i = choose|i: int| 0 <= i < ys.len() && ys[i] == x;
        assert(xs.remove(xs.len() - 1) =~= xs.drop_last());
        assert(ys.remove(i).to_multiset() =~= ys.to_multiset().remove(x));
        assert(xs.drop_last().to_multiset() =~= xs.to_multiset().remove(x));
        lemma_sums_have_no_order(m, xs.drop_last(), ys.remove(i), c);
        lemma_sum_without(m, ys, i, c);
    }
}

/// In exact arithmetic the order of the samples does not matter.
pub proof fn law_statistics_have_no_order(m: Exact, xs: Seq<Double>, s: Stats, ys: Seq<Double>, t: Stats)
    requires
        m.at(Double::zero()) == 0 as real,
        exactly_takes_in(m, xs, s),
        exactly_takes_in(m, ys, t),
        xs.to_multiset() == ys.to_multiset(),
    ensures
        s.n == t.n,
        m.at(s.mean) == m.at(t.mean),
        m.at(s.m2) == m.at(t.m2),
{
    law_statistics_are_of_the_samples(m, xs, s);
    law_statistics_are_of_the_samples(m, ys, t);
    let n = xs.len() as real;
    let u = m.at(s.mean);
    let w = m.at(t.mean);
    lemma_sums_have_no_order(m, xs, ys, u);
    if xs.len() == 0 {
        assert(s == no_samples() && t == no_samples());
    } else {
        lemma_products_commute(n, u);
        lemma_products_commute(n, w);
        lemma_quotient(sum(m, xs), n, u);
        lemma_quotient(sum(m, xs), n, w);
    }
}

/// The smallest and the largest of the samples are among them, and bound them.
proof fn lemma_exact_extremes(m: Exact, xs: Seq<Double>, s: Stats)
    requires
        m.ordered(),
        exactly_takes_in(m, xs, s),
        xs.len() > 0,
        forall|i: int| 0 <= i < xs.len() ==> (#[trigger] xs[i]).finite(),
    ensures
        s.n > 0,
        s.min.finite(),
        s.max.finite(),
        xs.contains(s.min),
        xs.contains(s.max),
        forall|i: int| 0 <= i < xs.len() ==> m.at(s.min) <= m.at(#[trigger] xs[i]) <= m.at(s.max),
    decreases xs.len(),
{
    let front = xs.drop_last();
    let x = xs.last();
    let before = choose|before: Stats|
        exactly_takes_in(m, front, before) && #[trigger] exact_sample(m, before, x, s);
    assert(xs[xs.len() - 1] == x);
    law_statistics_are_of_the_samples(m, front, before);
    if front.len() > 0 {
        assert forall|i: int| 0 <= i < front.len() implies (#[trigger] front[i]).finite() by {
            assert(xs[i].finite());
        }
        lemma_exact_extremes(m, front, before);
        assert(x.below(before.min) <==> m.at(x) < m.at(before.min));
        assert(before.max.below(x) <==> m.at(before.max) < m.at(x));
        assert forall|i: int| 0 <= i < xs.len() implies m.at(s.min) <= m.at(#[trigger] xs[i]) <= m.at(
            s.max,
        ) by {
            if i < front.len() {
                assert(front[i] == xs[i]);
            }
        }
        let i = choose|i: int| 0 <= i < front.len() && front[i] == before.min;
        assert(xs[i] == before.min);
        let j = choose|j: int| 0 <= j < front.len() && front[j] == before.max;
        assert(xs[j] == before.max);
    }
}

proof fn lemma_one_more_in_bounds(n: real, low: real, total: real, x: real, high: real)
    requires
        n * low <= total <= n * high,
        low <= x <= high,
    ensures
        (n + 1 as real) * low <= total + x <= (n + 1 as real) * high,
{
    assert((n + 1 as real) * low == n * low + low) by (nonlinear_arith);
    assert((n + 1 as real) * high == n * high + high) by (nonlinear_arith);
}

proof fn lemma_sum_in_bounds(m: Exact, xs: Seq<Double>, low: real, high: real)
    requires
        forall|i: int| 0 <= i < xs.len() ==> low <= m.at(#[trigger] xs[i]) <= high,
    ensures
        (xs.len() as real) * low <= sum(m, xs) <= (xs.len() as real) * high,
    decreases xs.len(),
{
    if xs.len() > 0 {
        let front = xs.drop_last();
        assert forall|i: int| 0 <= i < front.len() implies low <= m.at(#[trigger] front[i]) <= high by {
            assert(xs[i] == front[i]);
        }
        lemma_sum_in_bounds(m, front, low, high);
        assert(xs[xs.len() - 1] == xs.last());
        lemma_one_more_in_bounds(front.len() as real, low, sum(m, front), m.at(xs.last()), high);
        assert(xs.len() as real == front.len() as real + 1 as real);
    } else {
        lemma_no_times(xs.len() as real, low);
        lemma_no_times(xs.len() as real, high);
    }
}

proof fn lemma_no_times(n: real, x: real)
    requires
        n == 0 as real,
    ensures
        n * x == 0 as real,
{
    assert(n * x == 0 as real) by (nonlinear_arith)
        requires
            n == 0 as real,
    ;
}

proof fn lemma_smaller_factor(n: real, x: real, y: real)
    requires
        n > 0 as real,
        n * x <= n * y,
    ensures
        x <= y,
{
    if x > y {
        let d = x - y;
        assert(n * d > 0 as real) by (nonlinear_arith)
            requires
                n > 0 as real,
                d > 0 as real,
        ;
        assert(n * (x - y) == n * x - n * y) by (nonlinear_arith);
    }
}

/// In exact arithmetic the mean of the samples lies between the smallest and the largest of
/// them, and their squared distances from it are not negative.
pub proof fn law_mean_lies_between(m: Exact, xs: Seq<Double>, s: Stats)
    requires
        m.ordered(),
        exactly_takes_in(m, xs, s),
        xs.len() > 0,
        forall|i: int| 0 <= i < xs.len() ==> (#[trigger] xs[i]).finite(),
    ensures
        m.at(s.min) <= m.at(s.mean) <= m.at(s.max),
        m.at(s.m2) >= 0 as real,
{
    law_statistics_are_of_the_samples(m, xs, s);
    lemma_exact_extremes(m, xs, s);
    lemma_sum_in_bounds(m, xs, m.at(s.min), m.at(s.max));
    lemma_smaller_factor(xs.len() as real, m.at(s.min), m.at(s.mean));
    lemma_smaller_factor(xs.len() as real, m.at(s.mean), m.at(s.max));
    lemma_deviations_not_negative(m, xs, m.at(s.mean));
}

proof fn lemma_square(x: real)
    ensures
        x * x >= 0 as real,
{
    assert(x * x >= 0 as real) by (nonlinear_arith);
}

proof fn lemma_deviations_not_negative(m: Exact, xs: Seq<Double>, c: real)
    ensures
        deviations(m, xs, c) >= 0 as real,
    decreases xs.len(),
{
    if xs.len() > 0 {
        lemma_deviations_not_negative(m, xs.drop_last(), c);
        lemma_square(m.at(xs.last()) - c);
    }
}

/// The smallest and the largest of the samples do not depend on their order.
pub proof fn law_extremes_have_no_order(m: Exact, xs: Seq<Double>, s: Stats, ys: Seq<Double>, t: Stats)
    requires
        m.ordered(),
        exactly_takes_in(m, xs, s),
        exactly_takes_in(m, ys, t),
        xs.len() > 0,
        xs.to_multiset() == ys.to_multiset(),
        forall|i: int| 0 <= i < xs.len() ==> (#[trigger] xs[i]).finite(),
    ensures
        m.at(s.min) == m.at(t.min),
        m.at(s.max) == m.at(t.max),
{
    broadcast use vstd::seq_lib::group_to_multiset_ensures;

    assert(xs.len() == xs.to_multiset().len());
    assert(ys.len() == ys.to_multiset().len());
    assert forall|x: Double| xs.contains(x) <==> ys.contains(x) by {
        assert(xs.contains(x) <==> xs.to_multiset().count(x) > 0);
        assert(ys.contains(x) <==> ys.to_multiset().count(x) > 0);
    }
    assert forall|i: int| 0 <= i < ys.len() implies (#[trigger] ys[i]).finite() by {
        assert(ys.contains(ys[i]));
        assert(xs.contains(ys[i]));
    }
    lemma_exact_extremes(m, xs, s);
    lemma_exact_extremes(m, ys, t);
    assert(ys.contains(s.min) && ys.contains(s.max));
    assert(xs.contains(t.min) && xs.contains(t.max));
}

} // verus!
