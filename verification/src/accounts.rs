//! The accounts of games and benchmarks: what is played and in which order, what the games add up
//! to, and how fast a run goes, the latter in exact arithmetic.

use crate::arith::{count, evaluates, num, Arithmetic, Formula};
use crate::double::Double;
use crate::exact::{lemma_quotient, Exact};
use crate::figures::{is_rate, millis, percent, ratio};
use crate::game::{GameResult, Timing};
use crate::jobs::{benchmark_jobs, budget_jobs, game_seed, policy_jobs};
use crate::policy::Policy;
use crate::span::Span;
use crate::summary::{
    is_pace, is_time_left, mean_score, minutes, percent_of, surplus, Aggregate, Pace, Tally,
};
use crate::units::{exact_at, lemma_against_zero, plain};
use vstd::prelude::*;

verus! {

/// A quotient from its parts.
proof fn lemma_parts(x: real, y: real, q: real)
    requires
        y != 0 as real,
        q == x / y,
    ensures
        q * y == x,
{
    lemma_quotient(x, y, q);
}

/// A part in percent is a hundred times the part, and a span in milliseconds a thousand times its
/// seconds.
pub proof fn law_percent_and_milliseconds(m: Exact, part: Double, span: Span)
    requires
        m.at(Double::hundred()) == 100 as real,
        m.at(Double::thousand()) == 1000 as real,
    ensures
        m.of(percent(part)) == (100 as real) * m.at(part),
        m.of(millis(span)) == (1000 as real) * (m.seconds)(span),
{
    reveal_with_fuel(Exact::of, 2);
    let s = (m.seconds)(span);
    assert(s * (1000 as real) == (1000 as real) * s) by (nonlinear_arith);
}

/// A rate times the seconds is the count, and no rate is taken where no time has passed.
pub proof fn law_rates_are_by_the_second<K: Arithmetic>(
    k: &K,
    m: Exact,
    n: usize,
    seconds: Double,
    rate: Double,
)
    requires
        m.ordered(),
        plain(seconds),
        m.at(seconds) > 0 as real ==> exact_at(k, m, ratio(n, seconds)),
        is_rate(k, n, seconds, rate),
    ensures
        m.at(seconds) > 0 as real ==> m.at(rate) * m.at(seconds) == n as real,
        m.at(seconds) <= 0 as real ==> m.at(rate) == 0 as real,
        plain(rate),
{
    lemma_against_zero(m, seconds);
    if m.at(seconds) > 0 as real {
        assert(n as u64 as real == n as real);
        assert(m.at(rate) == n as real / m.at(seconds)) by {
            reveal_with_fuel(Exact::of, 2);
        }
        lemma_parts(n as real, m.at(seconds), m.at(rate));
    }
}

/// Nothing rounds in the time of a game.
pub open spec fn exact_timing<K: Arithmetic>(k: &K, m: Exact, g: GameResult, elapsed: Span) -> bool {
    &&& exact_at(k, m, Formula::Seconds(elapsed))
    &&& forall|seconds: Double| #[trigger]
        evaluates(k, Formula::Seconds(elapsed), seconds) ==> {
            &&& exact_at(k, m, num(seconds).times(num(Double::thousand())))
            &&& m.at(seconds) > 0 as real ==> exact_at(
                k,
                m,
                count(g.simulations as u64).times(count(g.moves as u64)).over(num(seconds)),
            )
        }
}

/// A game took a thousand milliseconds for each of its seconds, and its simulations by the second
/// times its seconds are as many as it has moves times the simulations of each.
pub proof fn law_games_are_timed<K: Arithmetic>(k: &K, m: Exact, g: GameResult, elapsed: Span, t: Timing)
    requires
        m.ordered(),
        m.at(Double::thousand()) == 1000 as real,
        exact_timing(k, m, g, elapsed),
        g.is_timing(k, elapsed, t),
    ensures
        m.at(t.wall_ms) == (1000 as real) * (m.seconds)(elapsed),
        (m.seconds)(elapsed) > 0 as real ==> m.at(t.sims_per_second) * (m.seconds)(elapsed) == (
        g.simulations as real) * (g.moves as real),
        (m.seconds)(elapsed) <= 0 as real ==> m.at(t.sims_per_second) == 0 as real,
{
    let seconds = choose|seconds: Double|
        {
            &&& #[trigger] evaluates(k, Formula::Seconds(elapsed), seconds)
            &&& evaluates(k, num(seconds).times(num(Double::thousand())), t.wall_ms)
            &&& if Double::zero().below(seconds) {
                evaluates(
                    k,
                    count(g.simulations as u64).times(count(g.moves as u64)).over(num(seconds)),
                    t.sims_per_second,
                )
            } else {
                t.sims_per_second == Double::zero()
            }
        };
    let s = m.at(seconds);
    assert(s == (m.seconds)(elapsed));
    lemma_against_zero(m, seconds);
    assert(m.at(t.wall_ms) == s * (1000 as real)) by {
        reveal_with_fuel(Exact::of, 2);
    }
    assert(s * (1000 as real) == (1000 as real) * s) by (nonlinear_arith);
    if s > 0 as real {
        assert(g.simulations as u64 as real == g.simulations as real);
        assert(g.moves as u64 as real == g.moves as real);
        let total = (g.simulations as real) * (g.moves as real);
        assert(m.at(t.sims_per_second) == total / s) by {
            reveal_with_fuel(Exact::of, 3);
        }
        lemma_parts(total, s, m.at(t.sims_per_second));
    }
}

/// Nothing rounds in the figures of a checkpoint.
pub open spec fn exact_pace<K: Arithmetic>(
    k: &K,
    m: Exact,
    n: usize,
    already_done: usize,
    total: usize,
    elapsed: Span,
) -> bool {
    &&& exact_at(k, m, Formula::Seconds(elapsed))
    &&& exact_at(k, m, percent_of(n, total))
    &&& forall|seconds: Double| #[trigger]
        evaluates(k, Formula::Seconds(elapsed), seconds) ==> {
            &&& exact_at(k, m, minutes(seconds))
            &&& m.at(seconds) > 0 as real ==> exact_at(k, m, ratio(surplus(n, already_done), seconds))
        }
    &&& forall|rate: Double, left: Double| #[trigger]
        is_time_left(k, surplus(total, n), rate, left) && plain(rate) && m.at(rate) > 0 as real ==> {
            &&& exact_at(k, m, ratio(surplus(total, n), rate))
            &&& exact_at(k, m, minutes(left))
        }
}

proof fn lemma_minutes(m: Exact, seconds: Double, x: Double)
    requires
        m.at(Double::sixty()) == 60 as real,
        m.at(x) == m.of(minutes(seconds)),
    ensures
        m.at(x) * (60 as real) == m.at(seconds),
{
    assert(m.at(x) == m.at(seconds) / (60 as real)) by {
        reveal_with_fuel(Exact::of, 2);
    }
    lemma_parts(m.at(seconds), 60 as real, m.at(x));
}

/// How far a run has come, in exact arithmetic: the percentage of all games that are there, sixty
/// seconds to the minute, the games of this run by the second, and the minutes in which the games
/// that are missing come at that rate.
pub proof fn law_pace_of_a_run<K: Arithmetic>(
    k: &K,
    m: Exact,
    n: usize,
    already_done: usize,
    total: usize,
    elapsed: Span,
    p: Pace,
)
    requires
        m.ordered(),
        m.at(Double::hundred()) == 100 as real,
        m.at(Double::sixty()) == 60 as real,
        total > 0,
        exact_pace(k, m, n, already_done, total, elapsed),
        is_pace(k, n, already_done, total, elapsed, p),
    ensures
        m.at(p.percent) * (total as real) == (100 as real) * (n as real),
        m.at(p.elapsed_minutes) * (60 as real) == (m.seconds)(elapsed),
        (m.seconds)(elapsed) > 0 as real && n >= already_done ==> m.at(p.rate) * (m.seconds)(elapsed) == n
            as real - already_done as real,
        (m.seconds)(elapsed) > 0 as real && n < already_done ==> m.at(p.rate) * (m.seconds)(elapsed)
            == 0 as real,
        (m.seconds)(elapsed) <= 0 as real ==> m.at(p.rate) == 0 as real,
        m.at(p.rate) > 0 as real && total >= n ==> (m.at(p.left_minutes) * (60 as real)) * m.at(p.rate)
            == total as real - n as real,
        m.at(p.rate) > 0 as real && total < n ==> (m.at(p.left_minutes) * (60 as real)) * m.at(p.rate)
            == 0 as real,
{
    let (seconds, left) = choose|seconds: Double, left: Double|
        {
            &&& #[trigger] evaluates(k, Formula::Seconds(elapsed), seconds)
            &&& #[trigger] is_time_left(k, surplus(total, n), p.rate, left)
            &&& is_rate(k, surplus(n, already_done), seconds, p.rate)
            &&& evaluates(k, percent_of(n, total), p.percent)
            &&& evaluates(k, minutes(seconds), p.elapsed_minutes)
            &&& evaluates(k, minutes(left), p.left_minutes)
        };
    assert(m.at(seconds) == (m.seconds)(elapsed) && plain(seconds));
    assert(n as u64 as real == n as real && total as u64 as real == total as real);
    assert(m.at(p.percent) == ((100 as real) * (n as real)) / (total as real)) by {
        reveal_with_fuel(Exact::of, 3);
    }
    lemma_parts((100 as real) * (n as real), total as real, m.at(p.percent));
    lemma_minutes(m, seconds, p.elapsed_minutes);
    law_rates_are_by_the_second(k, m, surplus(n, already_done), seconds, p.rate);
    if m.at(p.rate) > 0 as real {
        lemma_against_zero(m, p.rate);
        assert(exact_at(k, m, ratio(surplus(total, n), p.rate)));
        assert(exact_at(k, m, minutes(left)));
        let missing = surplus(total, n);
        assert(missing as u64 as real == missing as real);
        assert(m.at(left) == missing as real / m.at(p.rate)) by {
            reveal_with_fuel(Exact::of, 2);
        }
        lemma_parts(missing as real, m.at(p.rate), m.at(left));
        lemma_minutes(m, left, p.left_minutes);
    }
}

/// The mean score of an entry times the number of its games is the sum of their scores.
pub proof fn law_mean_score_is_of_the_games(m: Exact, a: Aggregate)
    requires
        a.count > 0,
    ensures
        m.of(mean_score(a)) * (a.count as real) == a.score_sum as real,
{
    assert(a.count as u64 as real == a.count as real);
    assert(m.of(mean_score(a)) == a.score_sum as real / a.count as real) by {
        reveal_with_fuel(Exact::of, 2);
    }
    lemma_parts(a.score_sum as real, a.count as real, m.of(mean_score(a)));
}

/// The totals after games with these scores and largest tiles.
pub open spec fn tally_of(games: Seq<(u64, u64)>) -> Tally
    decreases games.len(),
{
    if games.len() == 0 {
        Tally::none()
    } else {
        tally_of(games.drop_last()).plus(games.last().0, games.last().1)
    }
}

/// The totals of games are their number, the sum of their scores and the sum of their largest
/// tiles, each counted once.
pub proof fn law_tallies_add_up(games: Seq<(u64, u64)>)
    ensures
        tally_of(games).count == games.len(),
        tally_of(games).scores == games.fold_left(0nat, |sum: nat, g: (u64, u64)| sum + g.0 as nat),
        tally_of(games).tiles == games.fold_left(0nat, |sum: nat, g: (u64, u64)| sum + g.1 as nat),
    decreases games.len(),
{
    if games.len() > 0 {
        law_tallies_add_up(games.drop_last());
    }
}

/// The games of a benchmark in order: the last thing to change from one to the next is the budget,
/// then the policy, and first the seed. Game `g` of policy `p` with budget `b` is number
/// `(b * policies + p) * games + g`, its seed is the base seed and `g` modulo `2^64`, and there
/// are no other games.
pub proof fn law_games_of_a_benchmark_are_in_order(
    budgets: Seq<usize>,
    policies: Seq<Policy>,
    base: u64,
    games: nat,
    b: int,
    p: int,
    g: int,
)
    requires
        0 <= b < budgets.len(),
        0 <= p < policies.len(),
        0 <= g < games,
        games <= u64::MAX,
    ensures
        ({
            let jobs = benchmark_jobs(budgets, policies, base, games);
            let i = (b * policies.len() + p) * games + g;
            &&& jobs.len() == (budgets.len() * policies.len()) * games
            &&& 0 <= i < jobs.len()
            &&& jobs[i].budget == budgets[b]
            &&& jobs[i].policy == policies[p]
            &&& jobs[i].seed as int == (base + g) % 0x1_0000_0000_0000_0000
        }),
    decreases budgets.len(),
{
    let front = benchmark_jobs(budgets.drop_last(), policies, base, games);
    let back = budget_jobs(budgets.last(), policies, base, games);
    let rows = (budgets.len() - 1) as int;
    let n = policies.len() as int;
    lemma_budget_games(budgets.last(), policies, base, games, p, g);
    lemma_number_of_games(budgets.drop_last(), policies, base, games);
    assert((budgets.len() * policies.len()) * games == (rows * n) * games + n * games) by (nonlinear_arith)
        requires
            budgets.len() == rows + 1,
            n == policies.len(),
    ;
    if b == budgets.len() - 1 {
        assert((b * n + p) * games + g == (rows * n) * games + (p * games + g)) by (nonlinear_arith)
            requires
                b == rows,
        ;
        assert((b * n + p) * games + g >= 0) by (nonlinear_arith)
            requires
                b >= 0,
                n >= 0,
                p >= 0,
                g >= 0,
                games >= 0,
        ;
    } else {
        law_games_of_a_benchmark_are_in_order(budgets.drop_last(), policies, base, games, b, p, g);
    }
}

proof fn lemma_number_of_games(budgets: Seq<usize>, policies: Seq<Policy>, base: u64, games: nat)
    ensures
        benchmark_jobs(budgets, policies, base, games).len() == (budgets.len() * policies.len()) * games,
    decreases budgets.len(),
{
    let n = policies.len() as int;
    if budgets.len() > 0 {
        let rows = (budgets.len() - 1) as int;
        lemma_number_of_games(budgets.drop_last(), policies, base, games);
        lemma_number_of_budget_games(budgets.last(), policies, base, games);
        assert((budgets.len() * policies.len()) * games == (rows * n) * games + n * games) by (nonlinear_arith)
            requires
                budgets.len() == rows + 1,
                n == policies.len(),
        ;
    } else {
        assert((budgets.len() * policies.len()) * games == 0) by (nonlinear_arith)
            requires
                budgets.len() == 0,
        ;
    }
}

proof fn lemma_number_of_budget_games(budget: usize, policies: Seq<Policy>, base: u64, games: nat)
    ensures
        budget_jobs(budget, policies, base, games).len() == policies.len() * games,
    decreases policies.len(),
{
    if policies.len() > 0 {
        let n = (policies.len() - 1) as int;
        lemma_number_of_budget_games(budget, policies.drop_last(), base, games);
        assert(policies.len() * games == n * games + games) by (nonlinear_arith)
            requires
                policies.len() == n + 1,
        ;
    } else {
        assert(policies.len() * games == 0) by (nonlinear_arith)
            requires
                policies.len() == 0,
        ;
    }
}

proof fn lemma_budget_games(budget: usize, policies: Seq<Policy>, base: u64, games: nat, p: int, g: int)
    requires
        0 <= p < policies.len(),
        0 <= g < games,
        games <= u64::MAX,
    ensures
        ({
            let jobs = budget_jobs(budget, policies, base, games);
            let i = p * games + g;
            &&& jobs.len() == policies.len() * games
            &&& 0 <= i < jobs.len()
            &&& jobs[i].budget == budget
            &&& jobs[i].policy == policies[p]
            &&& jobs[i].seed as int == (base + g) % 0x1_0000_0000_0000_0000
        }),
    decreases policies.len(),
{
    let n = (policies.len() - 1) as int;
    lemma_number_of_budget_games(budget, policies, base, games);
    lemma_number_of_budget_games(budget, policies.drop_last(), base, games);
    assert(policies.len() * games == n * games + games) by (nonlinear_arith)
        requires
            policies.len() == n + 1,
    ;
    assert(p * games + g >= 0) by (nonlinear_arith)
        requires
            p >= 0,
            g >= 0,
            games >= 0,
    ;
    if p == n {
        let last = policy_jobs(budget, policies.last(), base, games);
        let job = budget_jobs(budget, policies, base, games)[p * games + g];
        assert(job == last[g]);
        lemma_seed(base, g);
    } else {
        lemma_budget_games(budget, policies.drop_last(), base, games, p, g);
    }
}

proof fn lemma_seed(base: u64, g: int)
    requires
        0 <= g <= u64::MAX,
    ensures
        game_seed(base, g) as int == (base + g) % 0x1_0000_0000_0000_0000,
{
    let n = g as u64;
    assert(n as int == g);
    if base + g <= u64::MAX {
        assert((base + g) % 0x1_0000_0000_0000_0000 == base + g);
    } else {
        assert((base + g) % 0x1_0000_0000_0000_0000 == base + g - 0x1_0000_0000_0000_0000);
    }
}

} // verus!
