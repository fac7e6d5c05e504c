//! How a move is chosen by the values of one more sample, in exact arithmetic: one of those whose
//! value is the greatest, or so close to it that it counts as equal, is drawn.

use crate::arith::{evaluates, num, Arithmetic};
use crate::bounds::{all_plain, is_top, lemma_greatest_is_top};
use crate::double::{greatest, greatest_other, Double};
use crate::exact::Exact;
use crate::outlook::{are_outlooks, law_drawn_values_look_ahead, readings};
use crate::policy::Policy;
use crate::posterior::spread_samples;
use crate::random::draws_below;
use crate::rescale::{exact_drawn_values, exact_values};
use crate::select::{
    are_drawn_vocs, are_ties, are_vocs, is_apart, is_choice, is_drawn_tie, is_margin, is_tie,
};
use crate::tree::{means, sampled_at_least, Edge, Node};
use crate::units::{exact_at, exact_value, lemma_against_zero, plain};
use crate::worth::{is_worth, law_value_is_the_expected_turn};
use rand::rngs::SmallRng;
use vstd::prelude::*;

verus! {

/// A number without its sign.
pub open spec fn size_of(x: real) -> real {
    if x < 0 as real {
        -x
    } else {
        x
    }
}

impl Exact {
    /// A number without its sign stands for what the number stands for, without its sign.
    pub open spec fn signed(self) -> bool {
        forall|x: Double| x.finite() ==> self.at(#[trigger] x.unsigned()) == size_of(self.at(x))
    }

    /// By how much a value may lie below the greatest one and still count as equal to it.
    pub open spec fn margin(self, relative: bool, g: real) -> real {
        if relative {
            self.at(Double::tolerance()) * (1 as real + size_of(g))
        } else {
            self.at(Double::tolerance())
        }
    }
}

/// `g` is the greatest of the numbers.
pub open spec fn is_peak(vs: Seq<real>, g: real) -> bool {
    &&& forall|i: int| 0 <= i < vs.len() ==> #[trigger] vs[i] <= g
    &&& exists|i: int| 0 <= i < vs.len() && #[trigger] vs[i] == g
}

/// `listed` are the entries that lie below the greatest one by the margin at most, each of them
/// once and in order.
pub open spec fn lists_best(m: Exact, relative: bool, vs: Seq<real>, listed: Seq<usize>) -> bool {
    exists|g: real|
        {
            &&& #[trigger] is_peak(vs, g)
            &&& forall|i: usize|
                i < vs.len() ==> (#[trigger] listed.contains(i) <==> g - vs[i as int] <= m.margin(
                    relative,
                    g,
                ))
            &&& forall|j: int| 0 <= j < listed.len() ==> #[trigger] listed[j] < vs.len()
            &&& forall|i: int, j: int| 0 <= i < j < listed.len() ==> listed[i] < listed[j]
        }
}

/// `r` is one of the entries, at a place that was drawn.
pub open spec fn is_drawn_from(listed: Seq<usize>, before: SmallRng, r: int, after: SmallRng) -> bool {
    exists|pick: usize|
        #[trigger] draws_below(before, listed.len() as usize, pick, after) && pick < listed.len() && r
            == listed[pick as int]
}

/// Nothing rounds where values are held against the greatest of them.
pub open spec fn exact_ties<K: Arithmetic>(k: &K, m: Exact, relative: bool, scores: Seq<Double>) -> bool {
    let best = greatest(scores);
    &&& forall|i: int|
        0 <= i < scores.len() ==> exact_at(k, m, num(#[trigger] scores[i]).minus(num(best)))
    &&& relative ==> exact_at(
        k,
        m,
        num(Double::tolerance()).times(num(Double::one()).plus(num(best.unsigned()))),
    )
}

/// The margin within which a value counts as equal.
proof fn lemma_margin<K: Arithmetic>(k: &K, m: Exact, relative: bool, scores: Seq<Double>, eps: Double)
    requires
        m.sound(),
        m.ordered(),
        m.signed(),
        plain(greatest(scores)),
        exact_ties(k, m, relative, scores),
        is_margin(k, relative, greatest(scores), eps),
    ensures
        m.at(eps) == m.margin(relative, m.at(greatest(scores))),
        eps.finite(),
{
    let best = greatest(scores);
    assert(Double::tolerance().finite());
    if relative {
        let one = num(Double::one());
        assert(m.of(one.plus(num(best.unsigned()))) == 1 as real + size_of(m.at(best))) by {
            reveal_with_fuel(Exact::of, 2);
        }
        assert(m.of(num(Double::tolerance()).times(one.plus(num(best.unsigned())))) == m.at(
            Double::tolerance(),
        ) * (1 as real + size_of(m.at(best)))) by {
            reveal_with_fuel(Exact::of, 2);
        }
    }
}

proof fn lemma_margin_is_positive(m: Exact, relative: bool, g: real)
    requires
        m.ordered(),
    ensures
        m.margin(relative, g) >= 0 as real,
{
    let tol = m.at(Double::tolerance());
    assert(plain(Double::tolerance()));
    lemma_against_zero(m, Double::tolerance());
    assert(Double::zero().below(Double::tolerance()));
    let size = 1 as real + size_of(g);
    assert(tol * size >= 0 as real) by (nonlinear_arith)
        requires
            tol >= 0 as real,
            size >= 0 as real,
    ;
}

/// How far a value lies below the greatest one.
proof fn lemma_gap<K: Arithmetic>(
    k: &K,
    m: Exact,
    relative: bool,
    scores: Seq<Double>,
    i: int,
    gap: Double,
    eps: Double,
)
    requires
        m.sound(),
        m.ordered(),
        m.signed(),
        0 <= i < scores.len(),
        all_plain(scores),
        exact_ties(k, m, relative, scores),
        evaluates(k, num(scores[i]).minus(num(greatest(scores))), gap),
        is_margin(k, relative, greatest(scores), eps),
    ensures
        gap.unsigned().at_most(eps) <==> m.at(greatest(scores)) - m.at(scores[i]) <= m.margin(
            relative,
            m.at(greatest(scores)),
        ),
{
    let best = greatest(scores);
    lemma_greatest_is_top(m, scores);
    lemma_margin(k, m, relative, scores, eps);
    assert(m.at(gap) == m.at(scores[i]) - m.at(best)) by {
        reveal_with_fuel(Exact::of, 2);
        assert(exact_at(k, m, num(scores[i]).minus(num(best))));
    }
    assert(exact_at(k, m, num(scores[i]).minus(num(best))));
    assert(m.at(scores[i]) <= m.at(best));
    let u = gap.unsigned();
    assert(gap.finite());
    assert(u.finite());
    assert(m.at(u) == size_of(m.at(gap)));
    assert(eps.below(u) <==> m.at(eps) < m.at(u));
}

/// The entries that count as the greatest are those within the margin.
proof fn lemma_ties_are_the_best<K: Arithmetic>(
    k: &K,
    m: Exact,
    relative: bool,
    scores: Seq<Double>,
    ties: Seq<usize>,
)
    requires
        m.sound(),
        m.ordered(),
        m.signed(),
        scores.len() > 0,
        all_plain(scores),
        exact_ties(k, m, relative, scores),
        are_ties(k, relative, scores, ties),
    ensures
        lists_best(m, relative, readings(m, scores), ties),
{
    let vs = readings(m, scores);
    let best = greatest(scores);
    let g = m.at(best);
    lemma_greatest_is_top(m, scores);
    assert(is_peak(vs, g)) by {
        assert forall|i: int| 0 <= i < vs.len() implies #[trigger] vs[i] <= g by {
            assert(m.at(scores[i]) <= g);
        }
        let w = choose|i: int| 0 <= i < scores.len() && m.at(#[trigger] scores[i]) == g;
        assert(vs[w] == g);
    }
    assert forall|i: usize| i < vs.len() implies (#[trigger] ties.contains(i) <==> g - vs[i as int]
        <= m.margin(relative, g)) by {
        let s = scores[i as int];
        if ties.contains(i) {
            let j = choose|j: int| 0 <= j < ties.len() && ties[j] == i;
            assert(is_tie(k, relative, scores, ties[j] as int));
            if s == best {
                lemma_margin_is_positive(m, relative, g);
            } else {
                let (gap, eps) = choose|gap: Double, eps: Double|
                    {
                        &&& #[trigger] evaluates(k, num(s).minus(num(best)), gap)
                        &&& #[trigger] is_margin(k, relative, best, eps)
                        &&& gap.unsigned().at_most(eps)
                    };
                lemma_gap(k, m, relative, scores, i as int, gap, eps);
            }
        } else {
            assert(is_apart(k, relative, s, best));
            let (gap, eps) = choose|gap: Double, eps: Double|
                {
                    &&& #[trigger] evaluates(k, num(s).minus(num(best)), gap)
                    &&& #[trigger] is_margin(k, relative, best, eps)
                    &&& !gap.unsigned().at_most(eps)
                };
            lemma_gap(k, m, relative, scores, i as int, gap, eps);
        }
    }
    assert forall|j: int| 0 <= j < ties.len() implies #[trigger] ties[j] < vs.len() by {
        assert(is_tie(k, relative, scores, ties[j] as int));
    }
}

/// `v` is the value of one more sample of the move `i` against the best of the other moves.
pub open spec fn is_worth_against_others(m: Exact, edges: Seq<Edge>, i: int, v: real) -> bool {
    exists|rival: Double|
        is_top(m, means(edges).remove(i), m.at(rival)) && #[trigger] is_worth(
            m,
            edges[i].stats,
            rival,
            v,
        )
}

/// Expectations are those of Student's t distribution for as many samples as each move has.
pub open spec fn students(m: Exact, edges: Seq<Edge>) -> bool {
    forall|i: int|
        0 <= i < edges.len() && (#[trigger] edges[i]).stats.n >= 3 ==> m.student(
            edges[i].stats.n as real - 1 as real,
        )
}

/// In exact arithmetic the values of one more sample of the moves are each held against the best
/// of the other moves.
pub proof fn law_values_are_against_the_others<K: Arithmetic>(
    k: &K,
    m: Exact,
    edges: Seq<Edge>,
    scores: Seq<Double>,
)
    requires
        m.sound(),
        m.ordered(),
        edges.len() > 1,
        spread_samples(m, edges),
        students(m, edges),
        exact_values(k, m, edges),
        are_vocs(k, edges, scores),
    ensures
        scores.len() == edges.len(),
        all_plain(scores),
        forall|i: int|
            0 <= i < scores.len() ==> is_worth_against_others(m, edges, i, m.at(#[trigger] scores[i])),
{
    let xs = means(edges);
    assert forall|i: int| 0 <= i < xs.len() implies plain(#[trigger] xs[i]) by {
        assert(plain(edges[i].stats.mean));
    }
    assert forall|i: int| 0 <= i < scores.len() implies plain(#[trigger] scores[i])
        && is_worth_against_others(m, edges, i, m.at(scores[i])) by {
        let e = edges[i];
        let rival = greatest_other(xs, i);
        assert(plain(e.stats.m2) && plain(e.stats.mean) && m.at(edges[i].stats.m2) >= 0 as real);
        assert(exact_value(k, m, e.stats, rival));
        law_value_is_the_expected_turn(k, m, e.stats, rival, scores[i]);
        let rest = xs.remove(i);
        assert forall|j: int| 0 <= j < rest.len() implies plain(#[trigger] rest[j]) by {
            assert(rest[j] == if j < i { xs[j] } else { xs[j + 1] });
        }
        lemma_greatest_is_top(m, rest);
        assert(is_worth(m, edges[i].stats, rival, m.at(scores[i])));
    }
}

/// The values of the moves in order.
pub open spec fn are_worths(m: Exact, edges: Seq<Edge>, vs: Seq<real>) -> bool {
    &&& vs.len() == edges.len()
    &&& forall|i: int| 0 <= i < vs.len() ==> is_worth_against_others(m, edges, i, #[trigger] vs[i])
}

/// The exact policy chooses by value: it draws one of the moves whose value of one more sample
/// against the best of the others is the greatest, up to a margin relative to it, and nothing
/// else is drawn.
pub proof fn law_greatest_value_is_chosen<K: Arithmetic>(
    k: &K,
    m: Exact,
    node: Node,
    before: SmallRng,
    r: int,
    after: SmallRng,
)
    requires
        m.sound(),
        m.ordered(),
        m.signed(),
        node.edges@.len() > 1,
        sampled_at_least(node.edges@, 3),
        spread_samples(m, node.edges@),
        students(m, node.edges@),
        exact_values(k, m, node.edges@),
        forall|scores: Seq<Double>| #[trigger]
            are_vocs(k, node.edges@, scores) ==> exact_ties(k, m, true, scores),
        is_choice(k, Policy::ExactVoc, node, before, r, after),
    ensures
        exists|vs: Seq<real>, listed: Seq<usize>|
            {
                &&& #[trigger] are_worths(m, node.edges@, vs)
                &&& #[trigger] lists_best(m, true, vs, listed)
                &&& is_drawn_from(listed, before, r, after)
            },
{
    let edges = node.edges@;
    let (scores, ties) = choose|scores: Seq<Double>, ties: Seq<usize>| #[trigger]
        are_vocs(k, edges, scores) && #[trigger] are_ties(k, true, scores, ties) && is_drawn_tie(
            ties,
            before,
            r,
            after,
        );
    law_values_are_against_the_others(k, m, edges, scores);
    lemma_ties_are_the_best(k, m, true, scores, ties);
    let vs = readings(m, scores);
    assert forall|i: int| 0 <= i < vs.len() implies is_worth_against_others(m, edges, i, #[trigger] vs[i]) by {
        assert(is_worth_against_others(m, edges, i, m.at(scores[i])));
    }
    assert(are_worths(m, edges, vs));
}

/// The drawing policy chooses by the values it drew, one move after the other: it then draws one
/// of the moves whose drawn value is the greatest, up to a fixed margin.
pub proof fn law_greatest_drawn_value_is_chosen<K: Arithmetic>(
    k: &K,
    m: Exact,
    draws: usize,
    node: Node,
    before: SmallRng,
    r: int,
    after: SmallRng,
)
    requires
        m.sound(),
        m.ordered(),
        m.signed(),
        draws > 0,
        node.edges@.len() > 1,
        sampled_at_least(node.edges@, 3),
        spread_samples(m, node.edges@),
        exact_drawn_values(k, m, node.edges@, draws, before),
        forall|scores: Seq<Double>, middle: SmallRng| #[trigger]
            are_drawn_vocs(k, node.edges@, draws, node.edges@.len(), before, scores, middle)
                ==> exact_ties(k, m, false, scores),
        is_choice(k, Policy::McVoc(draws), node, before, r, after),
    ensures
        exists|gens: Seq<SmallRng>, vs: Seq<real>, listed: Seq<usize>|
            {
                &&& vs.len() == node.edges@.len()
                &&& #[trigger] are_outlooks(k, m, node.edges@, draws as nat, gens, vs)
                &&& gens[0] == before
                &&& #[trigger] lists_best(m, false, vs, listed)
                &&& is_drawn_from(listed, gens[vs.len() as int], r, after)
            },
{
    let edges = node.edges@;
    let (scores, ties, middle) = choose|scores: Seq<Double>, ties: Seq<usize>, middle: SmallRng| #[trigger]
        are_drawn_vocs(k, edges, draws, edges.len(), before, scores, middle)
            && #[trigger] are_ties(k, false, scores, ties) && is_drawn_tie(ties, middle, r, after);
    law_drawn_values_look_ahead(k, m, edges, draws, before, scores, middle);
    lemma_ties_are_the_best(k, m, false, scores, ties);
    let gens = choose|gens: Seq<SmallRng>|
        {
            &&& #[trigger] are_outlooks(k, m, edges, draws as nat, gens, readings(m, scores))
            &&& gens[0] == before
            &&& gens[edges.len() as int] == middle
        };
    assert(is_drawn_from(ties, middle, r, after));
}

/// A move is chosen by its scores only once every move was sampled often enough, which is once
/// for the upper confidence bounds and three times for the other policies. Until then it is the
/// first of those with the fewest samples, and nothing is drawn.
pub proof fn law_few_samples_come_first<K: Arithmetic>(
    k: &K,
    policy: Policy,
    node: Node,
    before: SmallRng,
    r: int,
    after: SmallRng,
    i: int,
)
    requires
        0 <= i < node.edges@.len(),
        node.edges@[i].stats.n == 0 || (policy != Policy::Uct && node.edges@[i].stats.n < 3),
        is_choice(k, policy, node, before, r, after),
    ensures
        after == before,
        forall|j: int|
            0 <= j < node.edges@.len() ==> node.edges@[r].stats.n <= (#[trigger] node.edges@[j]).stats.n,
        forall|j: int| 0 <= j < r ==> node.edges@[r].stats.n < (#[trigger] node.edges@[j]).stats.n,
{
}

} // verus!
