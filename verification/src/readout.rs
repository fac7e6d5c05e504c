//! What is shown of a root, in exact arithmetic: shares of the samples, distances of the means,
//! values and probabilities, and how evenly the samples are spread.

use crate::arith::{count, evaluates, num, Arithmetic};
use crate::bounds::{all_plain, is_top, lemma_greatest_is_top};
use crate::double::{greatest, greatest_other, last_greatest, runner_up, Double};
use crate::exact::{lemma_quotient, Exact};
use crate::posterior::{law_deviation_is_of_the_samples, spread_samples, square};
use crate::preference::{is_worth_against_others, students};
use crate::snapshot::{
    entropy_of, is_action, is_snapshot, is_top_gap, positive, shares, RootSnapshot,
};
use crate::tree::{means, samples, Node};
use crate::units::{exact_at, exact_deviation, exact_value, lemma_against_zero, plain};
use crate::worth::{
    exact_switch, is_turn_probability, is_worth, law_switch_is_the_probability_of_a_turn,
};
use vstd::prelude::*;

verus! {

impl Exact {
    /// A number with the other sign stands for the other sign of what the number stands for.
    pub open spec fn mirrored(self) -> bool {
        forall|x: Double| x.finite() ==> self.at(#[trigger] x.negated()) == -self.at(x)
    }
}

/// How unevenly a share stands for itself: `-p ln(p)`, and zero for no share.
pub open spec fn unevenness(m: Exact, p: real) -> real {
    if p > 0 as real {
        -(p * (m.log)(p))
    } else {
        0 as real
    }
}

/// The sum of `-p ln(p)` over the shares.
pub open spec fn disorder(m: Exact, ps: Seq<Double>) -> real
    decreases ps.len(),
{
    if ps.len() == 0 {
        0 as real
    } else {
        disorder(m, ps.drop_last()) + unevenness(m, m.at(ps.last()))
    }
}

/// Nothing rounds in the distances of means.
pub open spec fn exact_gaps<K: Arithmetic>(k: &K, m: Exact, ms: Seq<Double>) -> bool {
    forall|i: int, j: int|
        0 <= i < ms.len() && 0 <= j < ms.len() ==> exact_at(
            k,
            m,
            num(#[trigger] ms[i]).minus(num(#[trigger] ms[j])),
        )
}

/// Nothing rounds in what is shown of a root.
pub open spec fn exact_readout<K: Arithmetic>(k: &K, m: Exact, root: Node, s: RootSnapshot) -> bool {
    let ms = means(root.edges@);
    &&& forall|i: int|
        0 <= i < root.edges@.len() ==> {
            let e = #[trigger] root.edges@[i];
            &&& s.total_samples > 0 ==> exact_at(
                k,
                m,
                count(e.stats.n as u64).over(count(s.total_samples as u64)),
            )
            &&& exact_deviation(k, m, e.stats)
            &&& exact_at(k, m, num(e.stats.mean).minus(num(greatest(ms))))
            &&& root.edges@.len() > 1 ==> exact_value(k, m, e.stats, greatest_other(ms, i))
                && exact_switch(k, m, e.stats, greatest_other(ms, i))
        }
    &&& exact_gaps(k, m, ms)
    &&& s.total_samples > 0 && s.actions@.len() > 1 ==> exact_at(
        k,
        m,
        entropy_of(positive(shares(s.actions@))).over(count(s.actions@.len() as u64).log()),
    )
}

/// In exact arithmetic what is shown of a move is its own: its share is the part of all samples
/// that it got, `n - 1` times the square of its deviation is its sum of squared deviations, its
/// gap is how far its mean lies below the greatest one, and its value and the probability of a
/// turn are against the best of the other moves.
pub proof fn law_actions_show_their_moves<K: Arithmetic>(
    k: &K,
    m: Exact,
    root: Node,
    s: RootSnapshot,
    i: int,
)
    requires
        m.sound(),
        m.ordered(),
        spread_samples(m, root.edges@),
        students(m, root.edges@),
        exact_readout(k, m, root, s),
        is_snapshot(k, root, s),
        0 <= i < root.edges@.len(),
    ensures
        s.actions@.len() == root.edges@.len(),
        ({
            let e = root.edges@[i];
            let a = s.actions@[i];
            &&& a.dir == e.dir
            &&& a.moved == e.moved
            &&& a.samples == e.stats.n
            &&& a.mean == e.stats.mean
            &&& s.total_samples > 0 ==> (s.total_samples as real) * m.at(a.share) == e.stats.n as real
            &&& s.total_samples == 0 ==> m.at(a.share) == 0 as real
            &&& e.stats.n >= 2 ==> (e.stats.n as real - 1 as real) * square(m.at(a.sd)) == m.at(
                e.stats.m2,
            ) && m.at(a.sd) >= 0 as real
            &&& e.stats.n < 2 ==> m.at(a.sd) == 0 as real
            &&& is_top(m, means(root.edges@), m.at(e.stats.mean) - m.at(a.gap_to_best))
            &&& root.edges@.len() > 1 ==> is_worth_against_others(m, root.edges@, i, m.at(a.voc))
            &&& root.edges@.len() > 1 ==> exists|rival: Double|
                is_top(m, means(root.edges@).remove(i), m.at(rival)) && #[trigger] is_turn_probability(
                    m,
                    e.stats,
                    rival,
                    m.at(a.switch_prob),
                )
            &&& root.edges@.len() == 1 ==> m.at(a.voc) == 0 as real && m.at(a.switch_prob) == 0 as real
        }),
{
    let e = root.edges@[i];
    let a = s.actions@[i];
    let ms = means(root.edges@);
    assert(is_action(k, root, s.total_samples, i, s.actions@[i]));
    assert(plain(e.stats.m2) && plain(e.stats.mean) && m.at(root.edges@[i].stats.m2) >= 0 as real);
    assert(exact_deviation(k, m, root.edges@[i].stats));
    if s.total_samples > 0 {
        let n = e.stats.n as real;
        let total = s.total_samples as real;
        assert(e.stats.n as u64 as real == n && s.total_samples as u64 as real == total);
        assert(m.at(a.share) == n / total) by {
            reveal_with_fuel(Exact::of, 2);
        }
        let q = m.at(a.share);
        lemma_quotient(n, total, q);
        assert(q * total == total * q) by (nonlinear_arith);
    }
    if e.stats.n >= 2 {
        law_deviation_is_of_the_samples(k, m, e.stats, a.sd);
    }
    assert forall|j: int| 0 <= j < ms.len() implies plain(#[trigger] ms[j]) by {
        assert(plain(root.edges@[j].stats.mean));
    }
    lemma_greatest_is_top(m, ms);
    assert(m.at(a.gap_to_best) == m.at(e.stats.mean) - m.at(greatest(ms))) by {
        reveal_with_fuel(Exact::of, 2);
    }
    if root.edges@.len() > 1 {
        let rival = greatest_other(ms, i);
        let rest = ms.remove(i);
        assert forall|j: int| 0 <= j < rest.len() implies plain(#[trigger] rest[j]) by {
            assert(rest[j] == if j < i { ms[j] } else { ms[j + 1] });
        }
        lemma_greatest_is_top(m, rest);
        law_switch_is_the_probability_of_a_turn(k, m, e.stats, rival, a.voc, a.switch_prob);
        assert(is_worth(m, root.edges@[i].stats, rival, m.at(a.voc)));
        assert(is_turn_probability(m, e.stats, rival, m.at(a.switch_prob)));
    }
}

/// The samples of a root are those of its moves together, and the shares of the moves make up the
/// whole.
pub proof fn law_shares_make_up_the_whole<K: Arithmetic>(k: &K, m: Exact, root: Node, s: RootSnapshot)
    requires
        m.sound(),
        m.ordered(),
        spread_samples(m, root.edges@),
        students(m, root.edges@),
        exact_readout(k, m, root, s),
        is_snapshot(k, root, s),
        s.total_samples > 0,
    ensures
        s.total_samples == samples(root.edges@),
        share_sum(m, shares(s.actions@)) == 1 as real,
{
    lemma_share_sum(k, m, root, s, root.edges@.len());
    assert(root.edges@.take(root.edges@.len() as int) =~= root.edges@);
    let xs = shares(s.actions@);
    assert(xs.take(xs.len() as int) =~= xs);
    let total = s.total_samples as real;
    let sum = share_sum(m, xs);
    assert(sum == 1 as real) by (nonlinear_arith)
        requires
            total * sum == total,
            total > 0 as real,
    ;
}

/// The sum of the shares.
pub open spec fn share_sum(m: Exact, xs: Seq<Double>) -> real
    decreases xs.len(),
{
    if xs.len() == 0 {
        0 as real
    } else {
        share_sum(m, xs.drop_last()) + m.at(xs.last())
    }
}

proof fn lemma_share_sum<K: Arithmetic>(k: &K, m: Exact, root: Node, s: RootSnapshot, n: nat)
    requires
        m.sound(),
        m.ordered(),
        spread_samples(m, root.edges@),
        students(m, root.edges@),
        exact_readout(k, m, root, s),
        is_snapshot(k, root, s),
        s.total_samples > 0,
        n <= root.edges@.len(),
    ensures
        (s.total_samples as real) * share_sum(m, shares(s.actions@).take(n as int)) == samples(
            root.edges@.take(n as int),
        ) as real,
    decreases n,
{
    let total = s.total_samples as real;
    let xs = shares(s.actions@).take(n as int);
    let edges = root.edges@.take(n as int);
    if n == 0 {
        assert(total * (0 as real) == 0 as real) by (nonlinear_arith);
    } else {
        lemma_share_sum(k, m, root, s, (n - 1) as nat);
        assert(xs.drop_last() =~= shares(s.actions@).take(n - 1));
        assert(edges.drop_last() =~= root.edges@.take(n - 1));
        law_actions_show_their_moves(k, m, root, s, n - 1);
        let before = share_sum(m, xs.drop_last());
        let last = m.at(xs.last());
        assert(xs.last() == s.actions@[n - 1].share);
        assert(total * (before + last) == total * before + total * last) by (nonlinear_arith);
        assert(edges.last() == root.edges@[n - 1]);
    }
}

/// The best move that is shown has the greatest mean, and the gap that is shown is how far the
/// greatest mean of the other moves lies below it, zero for a lone move.
pub proof fn law_best_move_has_the_greatest_mean<K: Arithmetic>(k: &K, m: Exact, root: Node, s: RootSnapshot)
    requires
        m.sound(),
        m.ordered(),
        spread_samples(m, root.edges@),
        exact_gaps(k, m, means(root.edges@)),
        is_snapshot(k, root, s),
    ensures
        exists|i: int|
            {
                &&& 0 <= i < root.edges@.len()
                &&& (#[trigger] root.edges@[i]).dir == s.best_dir
                &&& is_top(m, means(root.edges@), m.at(root.edges@[i].stats.mean))
                &&& forall|j: int|
                    i < j < root.edges@.len() ==> m.at((#[trigger] root.edges@[j]).stats.mean) < m.at(
                        root.edges@[i].stats.mean,
                    )
                &&& root.edges@.len() > 1 ==> is_top(
                    m,
                    means(root.edges@).remove(i),
                    m.at(root.edges@[i].stats.mean) - m.at(s.top_mean_gap),
                )
                &&& root.edges@.len() == 1 ==> m.at(s.top_mean_gap) == 0 as real
            },
{
    let ms = means(root.edges@);
    assert forall|j: int| 0 <= j < ms.len() implies plain(#[trigger] ms[j]) by {
        assert(plain(root.edges@[j].stats.mean));
    }
    let i = choose|i: int| #[trigger] last_greatest(ms, i) && root.edges@[i].dir == s.best_dir;
    lemma_last_greatest(m, ms, i);
    assert(ms[i] == root.edges@[i].stats.mean);
    assert forall|j: int| i < j < root.edges@.len() implies m.at((#[trigger] root.edges@[j]).stats.mean)
        < m.at(root.edges@[i].stats.mean) by {
        assert(ms[j] == root.edges@[j].stats.mean);
    }
    if root.edges@.len() > 1 {
        lemma_top_gap(k, m, ms, s.top_mean_gap, i);
    }
}

/// How far the greatest of the other means lies below the greatest.
proof fn lemma_top_gap<K: Arithmetic>(k: &K, m: Exact, ms: Seq<Double>, gap: Double, i: int)
    requires
        m.ordered(),
        ms.len() > 1,
        all_plain(ms),
        exact_gaps(k, m, ms),
        is_top_gap(k, ms, gap),
        last_greatest(ms, i),
    ensures
        is_top(m, ms.remove(i), m.at(ms[i]) - m.at(gap)),
{
    let (a, b) = choose|a: int, b: int|
        {
            &&& #[trigger] last_greatest(ms, a)
            &&& #[trigger] runner_up(ms, a, b)
            &&& evaluates(k, num(ms[a]).minus(num(ms[b])), gap)
        };
    if a < i {
        assert(ms[i].total_rank() < ms[a].total_rank());
    } else if i < a {
        assert(ms[a].total_rank() < ms[i].total_rank());
    }
    assert(exact_at(k, m, num(ms[a]).minus(num(ms[b]))));
    assert(m.at(gap) == m.at(ms[a]) - m.at(ms[b])) by {
        reveal_with_fuel(Exact::of, 2);
    }
    let rest = ms.remove(i);
    assert forall|j: int| 0 <= j < rest.len() implies m.at(#[trigger] rest[j]) <= m.at(ms[b]) by {
        let c = if j < i {
            j
        } else {
            j + 1
        };
        assert(rest[j] == ms[c]);
        assert(plain(ms[c]) && plain(ms[b]));
        assert(ms[c].total_rank() <= ms[b].total_rank());
        assert(!ms[b].below(ms[c]));
    }
    if b < i {
        assert(rest[b] == ms[b]);
    } else {
        assert(rest[b - 1] == ms[b]);
    }
}

proof fn lemma_last_greatest(m: Exact, xs: Seq<Double>, r: int)
    requires
        m.ordered(),
        all_plain(xs),
        last_greatest(xs, r),
    ensures
        is_top(m, xs, m.at(xs[r])),
        forall|j: int| r < j < xs.len() ==> m.at(#[trigger] xs[j]) < m.at(xs[r]),
{
    assert(plain(xs[r]));
    assert forall|i: int| 0 <= i < xs.len() implies m.at(#[trigger] xs[i]) <= m.at(xs[r]) by {
        assert(plain(xs[i]));
        assert(xs[i].total_rank() <= xs[r].total_rank());
        assert(!xs[r].below(xs[i]));
    }
    assert forall|j: int| r < j < xs.len() implies m.at(#[trigger] xs[j]) < m.at(xs[r]) by {
        assert(plain(xs[j]));
        assert(xs[j].total_rank() < xs[r].total_rank());
        assert(xs[j].below(xs[r]));
    }
}

/// The sum over the positive shares is the sum over all.
proof fn lemma_disorder(m: Exact, xs: Seq<Double>)
    requires
        m.ordered(),
        m.mirrored(),
        all_plain(xs),
    ensures
        m.of(entropy_of(positive(xs))) == disorder(m, xs),
    decreases xs.len(),
{
    reveal(Seq::filter);
    if xs.len() == 0 {
        assert(positive(xs) =~= Seq::<Double>::empty());
        assert(Double::neg_zero().finite());
        assert(!Double::neg_zero().below(Double::zero()));
        assert(!Double::zero().below(Double::neg_zero()));
        assert(m.at(Double::neg_zero()) == 0 as real);
    } else {
        let rest = xs.drop_last();
        let p = xs.last();
        assert forall|i: int| 0 <= i < rest.len() implies plain(#[trigger] rest[i]) by {
            assert(rest[i] == xs[i]);
        }
        assert(plain(xs[xs.len() - 1]));
        lemma_disorder(m, rest);
        lemma_against_zero(m, p);
        if m.at(p) > 0 as real {
            let all = positive(xs);
            assert(all =~= positive(rest).push(p));
            assert(all.drop_last() =~= positive(rest));
            let term = num(p.negated()).times(num(p).log());
            assert(m.of(term) == (-m.at(p)) * (m.log)(m.at(p))) by {
                reveal_with_fuel(Exact::of, 3);
            }
            let x = m.at(p);
            let y = (m.log)(x);
            assert((-x) * y == -(x * y)) by (nonlinear_arith);
            assert(m.of(entropy_of(all)) == m.of(entropy_of(positive(rest))) + m.of(term));
        } else {
            assert(positive(xs) =~= positive(rest));
        }
    }
}

/// The entropy that is shown is the sum of `-p ln(p)` over the shares of the moves, relative to
/// the logarithm of their number; it is zero where nothing was sampled or there is a lone move.
pub proof fn law_entropy_is_of_the_shares<K: Arithmetic>(k: &K, m: Exact, root: Node, s: RootSnapshot)
    requires
        m.ordered(),
        m.mirrored(),
        exact_readout(k, m, root, s),
        is_snapshot(k, root, s),
        all_plain(shares(s.actions@)),
        root.edges@.len() > 1 ==> (m.log)(root.edges@.len() as real) != 0 as real,
    ensures
        s.total_samples > 0 && root.edges@.len() > 1 ==> m.at(s.allocation_entropy) * (m.log)(
            root.edges@.len() as real,
        ) == disorder(m, shares(s.actions@)),
        s.total_samples == 0 || root.edges@.len() <= 1 ==> m.at(s.allocation_entropy) == 0 as real,
{
    let xs = shares(s.actions@);
    if s.total_samples > 0 && xs.len() > 1 {
        lemma_disorder(m, xs);
        lemma_few_moves(root, s);
        let n = xs.len() as u64;
        assert(n as real == root.edges@.len() as real);
        let top = entropy_of(positive(xs));
        assert(m.of(count(n).log()) == (m.log)(n as real)) by {
            reveal_with_fuel(Exact::of, 2);
        }
        assert(m.of(top.over(count(n).log())) == m.of(top) / (m.log)(n as real));
        lemma_quotient(m.of(top), (m.log)(n as real), m.at(s.allocation_entropy));
    }
}

/// A vector has no more entries than can be counted.
proof fn lemma_few_moves(root: Node, s: RootSnapshot)
    requires
        s.actions@.len() == root.edges@.len(),
    ensures
        shares(s.actions@).len() <= u64::MAX,
{
    assert(s.actions@.len() == s.actions.len());
}

/// Samples spread evenly over the moves have an entropy of one.
pub proof fn law_even_shares_have_full_entropy(m: Exact, xs: Seq<Double>, n: nat)
    requires
        n > 1,
        xs.len() == n,
        (m.log)(1 as real / (n as real)) == -(m.log)(n as real),
        forall|i: int| 0 <= i < xs.len() ==> m.at(#[trigger] xs[i]) == 1 as real / (n as real),
    ensures
        disorder(m, xs) == (m.log)(n as real),
{
    let p = 1 as real / (n as real);
    lemma_quotient(1 as real, n as real, p);
    assert(p > 0 as real) by (nonlinear_arith)
        requires
            p * (n as real) == 1 as real,
            n as real > 0 as real,
    ;
    let l = (m.log)(n as real);
    assert(-(p * (-l)) == p * l) by (nonlinear_arith);
    lemma_even_disorder(m, xs, p, p * l);
    assert((n as real) * (p * l) == (p * (n as real)) * l) by (nonlinear_arith);
    assert((1 as real) * l == l) by (nonlinear_arith);
}

proof fn lemma_even_disorder(m: Exact, xs: Seq<Double>, p: real, each: real)
    requires
        unevenness(m, p) == each,
        forall|i: int| 0 <= i < xs.len() ==> m.at(#[trigger] xs[i]) == p,
    ensures
        disorder(m, xs) == (xs.len() as real) * each,
    decreases xs.len(),
{
    if xs.len() == 0 {
        assert((0 as real) * each == 0 as real) by (nonlinear_arith);
    } else {
        lemma_even_disorder(m, xs.drop_last(), p, each);
        let n = xs.drop_last().len() as real;
        assert(xs.len() as real == n + 1 as real);
        assert((n + 1 as real) * each == n * each + each) by (nonlinear_arith);
    }
}

} // verus!
