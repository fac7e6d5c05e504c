//! What the calls of the search promise their callers, told of the calls themselves: of one
//! simulation, of the choice of a move, of draws and values, and of a step of a live search.

use crate::arith::{evaluates, Arithmetic};
use crate::board::{Board, Dir};
use crate::bounds::{
    are_bounds, exact_bounds, is_first_top, is_range, is_top, law_greatest_bound_is_chosen,
    plain_samples,
};
use crate::course::{
    law_random_play_stops_at_the_cap, law_search_comes_to_the_greatest_mean, lemma_ways, played_on,
    ways, ways_before,
};
use crate::credit::{law_simulation_credits_the_whole_play, observes, plays, went};
use crate::double::{greatest_above, Double};
use crate::estimate::{exact_voc, one_step_voc_and_switch, with_sample, RewardTransform, Stats};
use crate::exact::{lemma_quotient, Exact};
use crate::figures::{is_fixed, shows};
use crate::gauges::law_next_due_keeps_the_beat;
use crate::live::{
    is_voc_notice, session_noted, Action, Flow, Phase, SearchOutcome, SearchRun, INPUT_POLL_MS,
};
use crate::outlook::are_outlooks;
use crate::policy::Policy;
use crate::posterior::{
    drawn_in_turn, is_about_mean, law_deviation_is_of_the_samples, law_greatest_draw_is_chosen,
    law_means_are_drawn_about_the_mean, law_returns_are_drawn_about_the_mean, spread_samples,
    square,
};
use crate::preference::{
    are_worths, exact_ties, is_drawn_from, law_few_samples_come_first,
    law_greatest_drawn_value_is_chosen, law_greatest_value_is_chosen, lists_best, students,
};
use crate::rescale::{exact_drawn_values, exact_mean_draws, exact_values};
use crate::search::{choose_move, random_rollout, simulate, simulated, visited, SearchCfg};
use crate::select::{are_drawn_vocs, are_vocs, is_choice, select_edge};
use crate::session::{LiveCommand, LiveSession};
use crate::snapshot::{is_max_voc, max_exact_voc, RootSnapshot};
use crate::span::Span;
use crate::tree::{is_fresh_edge, sampled_at_least, Node};
use crate::turns::{board_after, points, Turn};
use crate::units::{
    exact_deviation, exact_mean_draw, exact_observation, exact_return_draw, exact_value, plain,
};
use crate::verdict::{
    comparable_moves, is_cost, law_going_on_is_worth_it, law_stopped_searches_have_no_value_left,
    law_worthwhile_searches_go_on, lemma_greatest_above, on_offer, used_up,
};
use crate::worth::{
    exact_switch, is_turn_probability, is_worth, law_switch_is_the_probability_of_a_turn,
    law_value_is_the_expected_turn,
};
use rand::rngs::SmallRng;
use vstd::prelude::*;

verus! {

/// A call of [`simulate`] credits the move that the policy chose with the whole play, from that
/// move on to the end: what it returns is what the play scores, and the one sample that the move
/// takes in, its first or any later one, is that score times the scale plus the shift.
pub proof fn law_simulating_credits_the_whole_play<K: Arithmetic>(
    node: &mut Node,
    cfg: SearchCfg,
    k: &K,
    rng: &mut SmallRng,
    total: u64,
)
    requires
        old(node).wf(),
        old(node).edges@.len() > 0,
        call_ensures(simulate::<K>, (node, &cfg, k, rng), total),
    ensures
        final(node).visits == old(node).visits + 1,
        exists|i: int, x: Double, turns: Seq<Turn>, chosen: SmallRng|
            {
                &&& 0 <= i < old(node).edges@.len()
                &&& #[trigger] is_choice(k, cfg.policy, visited(*old(node)), *old(rng), i, chosen)
                &&& #[trigger] plays(old(node).board, cfg.rollout_cap as nat + 1, total as nat, turns)
                &&& turns[0].dir == old(node).edges@[i].dir
                &&& total >= old(node).board.slide_score(turns[0].dir)
                &&& observes(k, cfg.reward_transform, total, x)
                &&& #[trigger] with_sample(
                    k,
                    old(node).edges@[i].stats,
                    x,
                    final(node).edges@[i].stats,
                )
                &&& forall|j: int|
                    0 <= j < old(node).edges@.len() && j != i ==> #[trigger] final(node).edges@[j]
                        == old(node).edges@[j]
            },
{
    law_simulation_credits_the_whole_play(
        k,
        cfg,
        *old(node),
        *final(node),
        total,
        *old(rng),
        *final(rng),
    );
}

/// A call of [`simulate`] where no move is legal returns nothing and changes nothing.
pub proof fn law_simulating_the_end_does_nothing<K: Arithmetic>(
    node: &mut Node,
    cfg: SearchCfg,
    k: &K,
    rng: &mut SmallRng,
    total: u64,
)
    requires
        old(node).edges@.len() == 0,
        call_ensures(simulate::<K>, (node, &cfg, k, rng), total),
    ensures
        total == 0,
        *final(node) == *old(node),
        *final(rng) == *old(rng),
{
}

/// What is observed of a score is the score times the scale plus the shift.
pub proof fn law_transform_is_linear<K: Arithmetic>(t: RewardTransform, k: &K, score: u64, x: Double)
    requires
        call_ensures(RewardTransform::apply::<K>, (t, k, score), x),
    ensures
        observes(k, t, score, x),
{
    reveal_with_fuel(evaluates, 4);
}

/// A sample that is taken in moves the mean of the samples to that of all of them, in exact
/// arithmetic: `n` times the mean grows by the sample. The sum of the squared deviations grows by
/// the product of the distances of the sample from the mean before and after, and the least and
/// the greatest sample take it in.
pub proof fn law_observing_takes_the_sample_in<K: Arithmetic>(m: Exact, s: &mut Stats, k: &K, x: Double)
    requires
        m.ordered(),
        plain(x),
        plain(old(s).min),
        plain(old(s).max),
        exact_observation(k, m, *old(s), x, *final(s)),
        call_ensures(Stats::observe::<K>, (s, k, x), ()),
    ensures
        final(s).n == old(s).n + 1,
        old(s).n == 0 ==> m.at(final(s).mean) == m.at(x) && m.at(final(s).m2) == 0 as real
            && final(s).min == x && final(s).max == x,
        old(s).n > 0 ==> {
            let n = old(s).n as real;
            &&& (n + 1 as real) * m.at(final(s).mean) == n * m.at(old(s).mean) + m.at(x)
            &&& m.at(final(s).m2) == m.at(old(s).m2) + (m.at(x) - m.at(old(s).mean)) * (m.at(x) - m.at(
                final(s).mean,
            ))
            &&& m.at(final(s).min) <= m.at(old(s).min) && m.at(final(s).min) <= m.at(x)
            &&& m.at(final(s).max) >= m.at(old(s).max) && m.at(final(s).max) >= m.at(x)
            &&& final(s).min == old(s).min || final(s).min == x
            &&& final(s).max == old(s).max || final(s).max == x
        },
{
    let before = *old(s);
    let after = *final(s);
    if before.n > 0 {
        let n = before.n as real;
        let mean = m.at(before.mean);
        let d = m.at(x) - mean;
        assert(after.n as u64 as real == n + 1 as real);
        assert(m.at(after.mean) == mean + d / (n + 1 as real)) by {
            reveal_with_fuel(Exact::of, 4);
        }
        let q = d / (n + 1 as real);
        lemma_quotient(d, n + 1 as real, q);
        assert((n + 1 as real) * (mean + q) == n * mean + mean + q * (n + 1 as real)) by (nonlinear_arith);
        assert(m.at(after.m2) == m.at(before.m2) + d * (m.at(x) - m.at(after.mean))) by {
            reveal_with_fuel(Exact::of, 4);
        }
        assert(x.below(before.min) <==> m.at(x) < m.at(before.min));
        assert(before.max.below(x) <==> m.at(before.max) < m.at(x));
    }
}

/// The deviation of the samples: `n - 1` times its square is their sum of squared deviations.
pub proof fn law_sd_is_of_the_samples<K: Arithmetic>(m: Exact, s: Stats, k: &K, sd: Double)
    requires
        m.sound(),
        m.ordered(),
        s.n >= 2,
        plain(s.m2),
        m.at(s.m2) >= 0 as real,
        exact_deviation(k, m, s),
        call_ensures(Stats::sd::<K>, (s, k), sd),
    ensures
        m.at(sd) >= 0 as real,
        (s.n as real - 1 as real) * square(m.at(sd)) == m.at(s.m2),
{
    law_deviation_is_of_the_samples(k, m, s, sd);
}

/// A drawn mean falls about the mean of the samples: with a draw `t` of Student's t distribution
/// with `n - 1` degrees of freedom, `n (n - 1)` times the square of its distance is the sum of the
/// squared deviations times `t^2`.
pub proof fn law_mean_sample_spreads<K: Arithmetic>(m: Exact, s: Stats, k: &K, rng: &mut SmallRng, x: Double)
    requires
        m.sound(),
        m.ordered(),
        plain(s.m2),
        m.at(s.m2) >= 0 as real,
        exact_mean_draw(k, m, s, *old(rng)),
        call_ensures(Stats::mean_sample::<K>, (s, k, rng), x),
    ensures
        is_about_mean(k, m, s, 1 as real, *old(rng), x, *final(rng)),
{
    law_means_are_drawn_about_the_mean(k, m, s, *old(rng), x, *final(rng));
}

/// A drawn return falls about the mean of the samples, `n + 1` times as far in squares as a drawn
/// mean.
pub proof fn law_return_sample_spreads<K: Arithmetic>(
    m: Exact,
    s: Stats,
    k: &K,
    rng: &mut SmallRng,
    x: Double,
)
    requires
        m.sound(),
        m.ordered(),
        plain(s.m2),
        m.at(s.m2) >= 0 as real,
        exact_return_draw(k, m, s, *old(rng)),
        call_ensures(Stats::return_sample::<K>, (s, k, rng), x),
    ensures
        is_about_mean(k, m, s, s.n as real + 1 as real, *old(rng), x, *final(rng)),
{
    law_returns_are_drawn_about_the_mean(k, m, s, *old(rng), x, *final(rng));
}

/// The value of one more sample is by how much it is expected to turn the order round.
pub proof fn law_exact_voc_is_the_expected_turn<K: Arithmetic>(
    m: Exact,
    k: &K,
    s: Stats,
    competitor: Double,
    voc: Double,
)
    requires
        m.sound(),
        m.ordered(),
        plain(s.m2),
        m.at(s.m2) >= 0 as real,
        s.n >= 3 ==> m.student(s.n as real - 1 as real),
        exact_value(k, m, s, competitor),
        call_ensures(exact_voc::<K>, (k, s, competitor), voc),
    ensures
        is_worth(m, s, competitor, m.at(voc)),
{
    law_value_is_the_expected_turn(k, m, s, competitor, voc);
}

/// The value of one more sample comes with the probability that it turns the order round.
pub proof fn law_voc_comes_with_the_switch<K: Arithmetic>(
    m: Exact,
    k: &K,
    s: Stats,
    competitor: Double,
    r: (Double, Double),
)
    requires
        m.sound(),
        m.ordered(),
        plain(s.m2),
        plain(s.mean),
        plain(competitor),
        m.at(s.m2) >= 0 as real,
        s.n >= 3 ==> m.student(s.n as real - 1 as real),
        exact_value(k, m, s, competitor),
        exact_switch(k, m, s, competitor),
        call_ensures(one_step_voc_and_switch::<K>, (k, s, competitor), r),
    ensures
        is_worth(m, s, competitor, m.at(r.0)),
        is_turn_probability(m, s, competitor, m.at(r.1)),
{
    law_switch_is_the_probability_of_a_turn(k, m, s, competitor, r.0, r.1);
}

/// Until every move has enough samples, one for the upper confidence bounds and three for the other
/// policies, [`select_edge`] takes the first of the moves with the fewest, and draws nothing.
pub proof fn law_selecting_samples_every_move_first<K: Arithmetic>(
    node: Node,
    policy: Policy,
    k: &K,
    rng: &mut SmallRng,
    r: usize,
    i: int,
)
    requires
        0 <= i < node.edges@.len(),
        node.edges@[i].stats.n == 0 || (policy != Policy::Uct && node.edges@[i].stats.n < 3),
        call_ensures(select_edge::<K>, (&node, policy, k, rng), r),
    ensures
        r < node.edges@.len(),
        *final(rng) == *old(rng),
        forall|j: int|
            0 <= j < node.edges@.len() ==> node.edges@[r as int].stats.n <= (
            #[trigger] node.edges@[j]).stats.n,
        forall|j: int|
            0 <= j < r ==> node.edges@[r as int].stats.n < (#[trigger] node.edges@[j]).stats.n,
{
    law_few_samples_come_first(k, policy, node, *old(rng), r as int, *final(rng), i);
}

/// With upper confidence bounds [`select_edge`] takes the first move with the greatest bound: the
/// place of its mean between the least and the greatest return, and a bonus of which `n` times
/// the square is twice the natural logarithm of the visits.
pub proof fn law_selecting_by_bounds<K: Arithmetic>(
    m: Exact,
    node: Node,
    k: &K,
    rng: &mut SmallRng,
    r: usize,
)
    requires
        m.sound(),
        m.ordered(),
        m.at(Double::two()) == 2 as real,
        m.at(Double::half()) + m.at(Double::half()) == 1 as real,
        node.visits > 0,
        (m.log)(node.visits as real) >= 0 as real,
        plain_samples(node.edges@),
        sampled_at_least(node.edges@, 1),
        exact_bounds(k, m, node),
        call_ensures(select_edge::<K>, (&node, Policy::Uct, k, rng), r),
    ensures
        *final(rng) == *old(rng),
        exists|low: real, high: real, us: Seq<real>|
            {
                &&& is_range(m, node.edges@, low, high)
                &&& #[trigger] are_bounds(m, node, low, high, us)
                &&& is_first_top(us, r as int)
            },
{
    law_greatest_bound_is_chosen(k, m, node, *old(rng), r as int, *final(rng));
}

/// With Thompson sampling [`select_edge`] takes the first move with the greatest drawn mean.
pub proof fn law_selecting_by_drawn_means<K: Arithmetic>(
    m: Exact,
    node: Node,
    k: &K,
    rng: &mut SmallRng,
    r: usize,
)
    requires
        m.sound(),
        m.ordered(),
        spread_samples(m, node.edges@),
        sampled_at_least(node.edges@, 3),
        exact_mean_draws(k, m, node.edges@, *old(rng)),
        call_ensures(select_edge::<K>, (&node, Policy::Thompson, k, rng), r),
    ensures
        exists|gens: Seq<SmallRng>, xs: Seq<Double>|
            {
                &&& xs.len() == node.edges@.len()
                &&& #[trigger] drawn_in_turn(k, m, node.edges@, gens, xs)
                &&& gens[0] == *old(rng)
                &&& gens[xs.len() as int] == *final(rng)
                &&& is_top(m, xs, m.at(xs[r as int]))
                &&& forall|i: int| 0 <= i < r ==> m.at(#[trigger] xs[i]) < m.at(xs[r as int])
            },
{
    law_greatest_draw_is_chosen(k, m, node, *old(rng), r as int, *final(rng));
}

/// With exact values [`select_edge`] draws one of the moves whose value of one more sample against
/// the best of the others is the greatest, up to a relative margin.
pub proof fn law_selecting_by_values<K: Arithmetic>(
    m: Exact,
    node: Node,
    k: &K,
    rng: &mut SmallRng,
    r: usize,
)
    requires
        m.sound(),
        m.ordered(),
        m.signed(),
        node.edges@.len() > 1,
        sampled_at_least(node.edges@, 3),
        spread_samples(m, node.edges@),
        students(m, node.edges@),
        exact_values(k, m, node.edges@),
        forall|scores: Seq<Double>| #[trigger]
            are_vocs(k, node.edges@, scores) ==> exact_ties(k, m, true, scores),
        call_ensures(select_edge::<K>, (&node, Policy::ExactVoc, k, rng), r),
    ensures
        exists|vs: Seq<real>, listed: Seq<usize>|
            {
                &&& #[trigger] are_worths(m, node.edges@, vs)
                &&& #[trigger] lists_best(m, true, vs, listed)
                &&& is_drawn_from(listed, *old(rng), r as int, *final(rng))
            },
{
    law_greatest_value_is_chosen(k, m, node, *old(rng), r as int, *final(rng));
}

/// With drawn values [`select_edge`] draws one of the moves whose drawn value is the greatest, up
/// to a fixed margin. Each draw of a move looks at the greatest of the means with its own replaced
/// by its mean with one more return.
pub proof fn law_selecting_by_drawn_values<K: Arithmetic>(
    m: Exact,
    draws: usize,
    node: Node,
    k: &K,
    rng: &mut SmallRng,
    r: usize,
)
    requires
        m.sound(),
        m.ordered(),
        m.signed(),
        draws > 0,
        node.edges@.len() > 1,
        sampled_at_least(node.edges@, 3),
        spread_samples(m, node.edges@),
        exact_drawn_values(k, m, node.edges@, draws, *old(rng)),
        forall|scores: Seq<Double>, middle: SmallRng| #[trigger]
            are_drawn_vocs(k, node.edges@, draws, node.edges@.len(), *old(rng), scores, middle)
                ==> exact_ties(k, m, false, scores),
        call_ensures(select_edge::<K>, (&node, Policy::McVoc(draws), k, rng), r),
    ensures
        exists|gens: Seq<SmallRng>, vs: Seq<real>, listed: Seq<usize>|
            {
                &&& vs.len() == node.edges@.len()
                &&& #[trigger] are_outlooks(k, m, node.edges@, draws as nat, gens, vs)
                &&& gens[0] == *old(rng)
                &&& #[trigger] lists_best(m, false, vs, listed)
                &&& is_drawn_from(listed, gens[vs.len() as int], r as int, *final(rng))
            },
{
    law_greatest_drawn_value_is_chosen(k, m, draws, node, *old(rng), r as int, *final(rng));
}

/// Random play from a board makes as many turns as its cap, or fewer where no move is left, and
/// returns what they score.
pub proof fn law_random_rollout_stops_at_the_cap(board: Board, rng: &mut SmallRng, cap: usize, score: u64)
    requires
        call_ensures(random_rollout, (board, rng, cap), score),
    ensures
        exists|turns: Seq<Turn>, gens: Seq<SmallRng>|
            {
                &&& #[trigger] played_on(board, turns, gens)
                &&& gens[0] == *old(rng)
                &&& gens[turns.len() as int] == *final(rng)
                &&& points(board, turns) == score
                &&& turns.len() == cap || (turns.len() < cap && board_after(board, turns).stuck())
            },
{
    law_random_play_stops_at_the_cap(board, cap as nat, *old(rng), score as nat, *final(rng));
}

/// A search makes as many simulations as asked for and comes to a move of which the mean return is
/// the greatest; it comes to none exactly where no move is legal.
pub proof fn law_choosing_takes_the_greatest_mean<K: Arithmetic>(
    board: Board,
    simulations: usize,
    cfg: SearchCfg,
    k: &K,
    rng: &mut SmallRng,
    r: Option<Dir>,
)
    requires
        call_ensures(choose_move::<K>, (board, simulations, &cfg, k, rng), r),
    ensures
        r is None <==> board.stuck(),
        r is None ==> *final(rng) == *old(rng),
        r matches Some(dir) ==> board.legal(dir) && exists|
            picks: Seq<int>,
            totals: Seq<u64>,
            root: Node,
            i: int,
        |
            {
                &&& picks.len() == simulations
                &&& #[trigger] went(k, cfg, board, picks, totals, root, *old(rng), *final(rng))
                &&& 0 <= i < root.edges@.len()
                &&& (#[trigger] root.edges@[i]).dir == dir
                &&& forall|j: int|
                    0 <= j < root.edges@.len() ==> !root.edges@[i].stats.mean.below(
                        (#[trigger] root.edges@[j]).stats.mean,
                    )
            },
{
    law_search_comes_to_the_greatest_mean(
        k,
        cfg,
        board,
        simulations as nat,
        *old(rng),
        r,
        *final(rng),
    );
}

/// A step of a search that is stopped though neither its simulations nor its time are used up finds
/// no sample worth its cost, and one that goes on under a cost finds one that is.
pub proof fn law_stepping_weighs_value_against_cost<K: Arithmetic>(
    run: &mut SearchRun,
    wall: Span,
    cfg: SearchCfg,
    k: &K,
    rng: &mut SmallRng,
    action: Action,
)
    requires
        old(run).phase == Phase::Limits,
        call_ensures(SearchRun::step::<K>, (run, wall, &cfg, k, rng), action),
    ensures
        used_up(*old(run), wall) ==> action == Action::Finish,
        action == Action::Finish && !used_up(*old(run), wall) ==> {
            &&& final(run).stopped_by_voc
            &&& comparable_moves(old(run).root)
            &&& exists|cost: Double|
                {
                    &&& #[trigger] is_cost(k, cfg, *old(run), cost)
                    &&& Double::zero().at_most(cost)
                    &&& old(run).root.edges@.len() > 1 ==> exists|vocs: Seq<Double>| #[trigger]
                        are_vocs(k, old(run).root.edges@, vocs) && forall|i: int|
                            0 <= i < vocs.len() ==> !cost.below(#[trigger] vocs[i])
                }
        },
        action != Action::Finish && old(run).active.min_voc is Some && comparable_moves(old(run).root)
            ==> exists|cost: Double|
            {
                &&& #[trigger] is_cost(k, cfg, *old(run), cost)
                &&& cost.nan() || cost.below(Double::zero()) || exists|vocs: Seq<Double>, v: Double|
                    #[trigger] on_offer(k, old(run).root, vocs, v) && cost.below(v)
            },
{
    law_going_on_is_worth_it(k, cfg, *old(run), wall, action, *final(run), *old(rng), *final(rng));
    if action == Action::Finish && !used_up(*old(run), wall) {
        law_stopped_searches_have_no_value_left(
            k,
            cfg,
            *old(run),
            wall,
            action,
            *final(run),
            *old(rng),
            *final(rng),
        );
    }
}

/// A step of a search whose simulations and time are not used up simulates once more where it has
/// no cost, where some move has fewer than three samples, or where one more sample of some move is
/// worth more than the cost.
pub proof fn law_stepping_goes_on_while_it_is_worth_it<K: Arithmetic>(
    run: &mut SearchRun,
    wall: Span,
    cfg: SearchCfg,
    k: &K,
    rng: &mut SmallRng,
    action: Action,
)
    requires
        old(run).phase == Phase::Limits,
        call_ensures(SearchRun::step::<K>, (run, wall, &cfg, k, rng), action),
        !used_up(*old(run), wall),
        old(run).active.min_voc is Some && comparable_moves(old(run).root) ==> old(run).root.edges@.len()
            > 1 && forall|vocs: Seq<Double>, cost: Double| #[trigger]
            are_vocs(k, old(run).root.edges@, vocs) && #[trigger] is_cost(k, cfg, *old(run), cost)
                ==> exists|i: int| 0 <= i < vocs.len() && cost.below(#[trigger] vocs[i]),
    ensures
        action == Action::Again,
        final(run).sims_done == (old(run).sims_done + 1) as u32,
        exists|total: u64| #[trigger]
            simulated(k, cfg, old(run).root, final(run).root, total, *old(rng), *final(rng)),
{
    law_worthwhile_searches_go_on(
        k,
        cfg,
        *old(run),
        wall,
        action,
        *final(run),
        *old(rng),
        *final(rng),
    );
}

/// What a search comes to: the move that a key forced, or else the one with the greatest mean; as
/// many simulations as were made; the time on the clock less what went to the keyboard and the
/// screen, which is told apart; and the greatest value of one more sample, in score units.
pub proof fn law_outcomes_tell_what_was_done<K: Arithmetic>(
    run: SearchRun,
    snapshot: RootSnapshot,
    wall: Span,
    overhead: Span,
    end: Span,
    cfg: SearchCfg,
    k: &K,
    r: (SearchOutcome, Option<LiveSession>),
)
    requires
        call_ensures(SearchRun::finish::<K>, (run, snapshot, wall, overhead, end, &cfg, k), r),
    ensures
        run.selected matches Some(d) ==> r.0.dir == d,
        run.selected is None ==> r.0.dir == snapshot.best_dir,
        r.0.root == snapshot,
        r.0.simulations == run.sims_done,
        r.0.constraints == run.active,
        r.0.stopped_by_voc == run.stopped_by_voc,
        r.0.wall_elapsed == end,
        wall.nanos >= run.excluded.nanos ==> r.0.compute_elapsed.nanos == wall.nanos - run.excluded.nanos,
        wall.nanos < run.excluded.nanos ==> r.0.compute_elapsed.nanos == 0,
        r.0.excluded_overhead.nanos == run.excluded.nanos + overhead.nanos,
        r.1 == run.session,
        exists|max: Double| #[trigger]
            is_max_voc(k, run.root, max) && call_ensures(
                K::over,
                (k, max, cfg.reward_transform.scale),
                r.0.max_voc,
            ),
{
    let max = choose|max: Double| #[trigger]
        is_max_voc(k, run.root, max) && evaluates(
            k,
            cfg.reward_transform.score_units(max),
            r.0.max_voc,
        );
    reveal_with_fuel(evaluates, 2);
    assert(is_max_voc(k, run.root, max));
}

/// The greatest value of one more sample: zero with one move at most, without bound while some move
/// has fewer than three samples, and else the greatest of the values of the moves that are numbers
/// and zero.
pub proof fn law_greatest_value_is_one_of_the_values<K: Arithmetic>(node: Node, k: &K, r: Double)
    requires
        call_ensures(max_exact_voc::<K>, (&node, k), r),
    ensures
        node.edges@.len() <= 1 ==> r == Double::zero(),
        node.edges@.len() > 1 && !comparable_moves(node) ==> r == Double::infinity(),
        node.edges@.len() > 1 && comparable_moves(node) ==> exists|vocs: Seq<Double>|
            {
                &&& #[trigger] are_vocs(k, node.edges@, vocs)
                &&& r == Double::zero() || vocs.contains(r)
                &&& !r.nan() && !r.below(Double::zero())
                &&& forall|i: int| 0 <= i < vocs.len() ==> !r.below(#[trigger] vocs[i])
            },
{
    if node.edges@.len() > 1 && comparable_moves(node) {
        let vocs = choose|vocs: Seq<Double>|
            #[trigger] are_vocs(k, node.edges@, vocs) && r == greatest_above(Double::zero(), vocs);
        lemma_greatest_above(Double::zero(), vocs);
        assert(are_vocs(k, node.edges@, vocs));
    }
}

/// A look at the keyboard does not count as search: what it took is added to the time that is left
/// out, and the simulations made so far stay. The constraints of the session are in force then. A
/// key can force a legal move and no other; quitting and acting end the search. The next look is due
/// a whole number of five milliseconds after the one that was due, as soon as that lies ahead; the
/// next frame where it was, or one interval ahead where the interval changed.
pub proof fn law_commands_take_no_search_time(
    run: &mut SearchRun,
    wall: Span,
    old_frame: Span,
    overhead: Span,
    command: LiveCommand,
    r: Flow,
)
    requires
        old(run).next_input is Some,
        wall.nanos >= old(run).excluded.nanos,
        call_ensures(SearchRun::take_command, (run, wall, old_frame, overhead, command), r),
    ensures
        ({
            let now = wall.nanos - old(run).excluded.nanos;
            let due = old(run).next_input->0;
            &&& final(run).next_input matches Some(next) && next.nanos > now && next.nanos > due.nanos && (
            next.nanos - due.nanos) % 5_000_000 == 0 && (next.nanos - 5_000_000 <= now || next.nanos
                - 5_000_000 == due.nanos)
            &&& old(run).session matches Some(s) && if old_frame != s.settings.frame_interval {
                final(run).next_frame matches Some(f) && f.nanos as int
                    == (now + s.settings.frame_interval.nanos) as u128
            } else {
                final(run).next_frame == old(run).next_frame
            }
        }),
        final(run).excluded.nanos == old(run).excluded.nanos + overhead.nanos,
        final(run).root == old(run).root,
        final(run).sims_done == old(run).sims_done,
        old(run).session matches Some(s) && final(run).active == s.settings.constraints,
        r == Flow::Quit <==> command == LiveCommand::Quit,
        r == Flow::Stop <==> command == LiveCommand::ActBest || (command matches LiveCommand::Force(d)
            && old(run).root.board.legal(d)),
        command matches LiveCommand::Force(d) ==> if old(run).root.board.legal(d) {
            final(run).selected == Some(d)
        } else {
            final(run).selected == old(run).selected
        },
        !(command is Force) ==> final(run).selected == old(run).selected,
        r == Flow::Go ==> final(run).phase == Phase::Limits,
        r != Flow::Go ==> final(run).phase == Phase::Ended,
{
    law_next_due_keeps_the_beat(
        old(run).next_input->0,
        Span::from_millis(INPUT_POLL_MS),
        old(run).compute_time(wall),
        final(run).next_input->0,
    );
}

/// A frame that was drawn does not count as search either, and is noted with what it showed. The next
/// one is due a whole number of intervals after it was, as soon as that lies ahead.
pub proof fn law_frames_take_no_search_time(run: &mut SearchRun, wall: Span, overhead: Span)
    requires
        old(run).next_frame is Some,
        wall.nanos >= old(run).excluded.nanos,
        old(run).session matches Some(s) ==> s.settings.frame_interval.nanos > 0,
        call_ensures(SearchRun::frame_drawn, (run, wall, overhead), ()),
    ensures
        final(run).excluded.nanos == old(run).excluded.nanos + overhead.nanos,
        final(run).root == old(run).root,
        final(run).sims_done == old(run).sims_done,
        final(run).active == old(run).active,
        final(run).phase == Phase::Keys,
        old(run).session matches Some(s) && final(run).last_rendered == Some(
            (old(run).sims_done, s.revision),
        ),
        ({
            let now = wall.nanos - old(run).excluded.nanos;
            let due = old(run).next_frame->0;
            old(run).session matches Some(s) && final(run).next_frame matches Some(next) && next.nanos > now
                && (next.nanos - due.nanos) % (s.settings.frame_interval.nanos as int) == 0 && (next.nanos
                - s.settings.frame_interval.nanos <= now || next.nanos - s.settings.frame_interval.nanos
                == due.nanos)
        }),
{
    law_next_due_keeps_the_beat(
        old(run).next_frame->0,
        old(run).session->0.settings.frame_interval,
        old(run).compute_time(wall),
        final(run).next_frame->0,
    );
}

/// A last frame is due in a session that has not shown the last simulation with the last notice.
pub proof fn law_last_frame_shows_the_end(run: SearchRun, r: bool)
    requires
        call_ensures(SearchRun::last_frame_due, (&run,), r),
    ensures
        run.session is None ==> !r,
        run.session matches Some(s) ==> (r <==> run.last_rendered is None || (
        run.last_rendered matches Some(shown) && (shown.0 != run.sims_done || shown.1 != s.revision))),
{
}

/// A search does one thing after the other: it looks at the keyboard where that is due, at its
/// limits, and at the screen where a frame is due, and so on round. A thing is due once the time on
/// the clock, less what was left out, has come to it. Only a look at the limits draws or changes
/// the tree.
pub proof fn law_stepping_goes_round<K: Arithmetic>(
    run: &mut SearchRun,
    wall: Span,
    cfg: SearchCfg,
    k: &K,
    rng: &mut SmallRng,
    action: Action,
)
    requires
        call_ensures(SearchRun::step::<K>, (run, wall, &cfg, k, rng), action),
        wall.nanos >= old(run).excluded.nanos,
    ensures
        old(run).phase == Phase::Keys ==> {
            &&& action == Action::PollKeys <==> (old(run).next_input matches Some(due)
                && old(run).excluded.nanos + due.nanos <= wall.nanos)
            &&& action == Action::PollKeys ==> *final(run) == *old(run)
            &&& action != Action::PollKeys ==> action == Action::Again && final(run).phase == Phase::Limits
        },
        old(run).phase == Phase::Frames ==> {
            &&& action == Action::DrawFrame <==> (old(run).next_frame matches Some(due)
                && old(run).excluded.nanos + due.nanos <= wall.nanos)
            &&& action == Action::DrawFrame ==> *final(run) == *old(run)
            &&& action != Action::DrawFrame ==> action == Action::Again && final(run).phase == Phase::Keys
        },
        old(run).phase == Phase::Limits ==> action == Action::Finish || (action == Action::Again
            && final(run).phase == Phase::Frames),
        old(run).phase == Phase::Ended ==> action == Action::Finish && *final(run) == *old(run),
        old(run).phase != Phase::Limits ==> *final(rng) == *old(rng) && final(run).root == old(run).root
            && final(run).sims_done == old(run).sims_done,
        final(run).active == old(run).active,
        final(run).excluded == old(run).excluded,
        final(run).selected == old(run).selected,
{
}

/// A search with a session that ends for want of value says so there: with the greatest value of one
/// more sample in score units, and with the cost, which that value does not exceed in the units of
/// the returns.
pub proof fn law_verdicts_are_announced<K: Arithmetic>(
    run: &mut SearchRun,
    wall: Span,
    cfg: SearchCfg,
    k: &K,
    rng: &mut SmallRng,
    action: Action,
)
    requires
        old(run).phase == Phase::Limits,
        call_ensures(SearchRun::step::<K>, (run, wall, &cfg, k, rng), action),
        action == Action::Finish,
        !used_up(*old(run), wall),
        old(run).session is Some,
    ensures
        old(run).active.min_voc is Some,
        final(run).session is Some,
        exists|max: Double, cost: Double, shown: Double, a: Seq<char>, b: Seq<char>|
            {
                &&& #[trigger] is_max_voc(k, old(run).root, max)
                &&& #[trigger] is_cost(k, cfg, *old(run), cost)
                &&& max.at_most(cost)
                &&& #[trigger] call_ensures(K::over, (k, max, cfg.reward_transform.scale), shown)
                &&& #[trigger] is_fixed(k, shown, 4, a)
                &&& #[trigger] is_fixed(k, old(run).active.min_voc->0, 4, b)
                &&& final(run).session->0.notice@ == "VOC stop: max "@ + a + " <= min "@ + b
            },
{
    let before = *old(run);
    let after = *final(run);
    assert(used_up(before, wall) == before.exhausted(wall));
    let (stop, mid) = choose|stop: bool, mid: SearchRun|
        {
            &&& #[trigger] before.decides(k, cfg, wall, stop, mid)
            &&& if stop {
                &&& action == Action::Finish
                &&& after == (SearchRun { phase: Phase::Ended, ..mid })
                &&& *final(rng) == *old(rng)
            } else {
                &&& action == Action::Again
                &&& after == (SearchRun {
                    phase: Phase::Frames,
                    root: after.root,
                    sims_done: (before.sims_done + 1) as u32,
                    ..before
                })
                &&& exists|total: u64| #[trigger]
                    simulated(k, cfg, before.root, after.root, total, *old(rng), *final(rng))
            }
        };
    let (max, cost) = choose|max: Double, cost: Double|
        {
            &&& #[trigger] before.voc_against(k, cfg, max, cost)
            &&& stop == max.at_most(cost)
            &&& !stop ==> mid == before
            &&& stop ==> mid == (SearchRun { stopped_by_voc: true, session: mid.session, ..before })
                && exists|text: Seq<char>| #[trigger]
                is_voc_notice(k, cfg.reward_transform, max, before.active.min_voc->0, text)
                    && session_noted(before.session, text, mid.session)
        };
    let text = choose|text: Seq<char>| #[trigger]
        is_voc_notice(k, cfg.reward_transform, max, before.active.min_voc->0, text) && session_noted(
            before.session,
            text,
            mid.session,
        );
    let (a, b) = choose|a: Seq<char>, b: Seq<char>|
        {
            &&& #[trigger] shows(k, cfg.reward_transform.score_units(max), 4, a)
            &&& #[trigger] is_fixed(k, before.active.min_voc->0, 4, b)
            &&& text == "VOC stop: max "@ + a + " <= min "@ + b
        };
    let shown = choose|shown: Double| #[trigger]
        evaluates(k, cfg.reward_transform.score_units(max), shown) && is_fixed(k, shown, 4, a);
    reveal_with_fuel(evaluates, 2);
    assert(is_cost(k, cfg, before, cost));
    assert(call_ensures(K::over, (k, max, cfg.reward_transform.scale), shown));
    assert(is_max_voc(k, before.root, max));
    assert(is_fixed(k, shown, 4, a));
    assert(is_fixed(k, before.active.min_voc->0, 4, b));
}

/// A new node holds the legal moves of its board in the order up, down, left, right, each with the
/// board after it and its score, and with nothing sampled or reached below it.
pub proof fn law_new_nodes_hold_the_legal_moves(b: Board, r: Node)
    requires
        call_ensures(Node::new, (b,), r),
    ensures
        r.board == b,
        r.visits == 0,
        r.edges@.len() == ways(b),
        forall|i: int|
            0 <= i < r.edges@.len() ==> {
                let e = #[trigger] r.edges@[i];
                &&& b.legal(e.dir)
                &&& ways_before(b, e.dir) == i
                &&& e.moved@ == b.slide(e.dir)
                &&& e.immediate_reward == b.slide_score(e.dir)
                &&& e.stats.n == 0
                &&& e.children@.len() == 0
            },
{
    lemma_ways(b);
    assert forall|i: int| 0 <= i < r.edges@.len() implies {
        let e = #[trigger] r.edges@[i];
        &&& b.legal(e.dir)
        &&& ways_before(b, e.dir) == i
        &&& e.moved@ == b.slide(e.dir)
        &&& e.immediate_reward == b.slide_score(e.dir)
        &&& e.stats.n == 0
        &&& e.children@.len() == 0
    } by {
        assert(is_fresh_edge(r.edges@[i], b, b.legal_dirs()[i]));
    }
}

} // verus!
