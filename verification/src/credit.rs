//! What a simulation credits a move with: the whole of what the play scored from that move
//! on, its own merges among it, through the transform of the scores.

use crate::arith::{evaluates, Arithmetic};
use crate::board::{law_drawn_tiles_can_appear, lemma_board_ext, spawned, Board};
use crate::double::Double;
use crate::estimate::{with_sample, RewardTransform, Stats};
use crate::exact::{exact_sample, exactly_takes_in, law_statistics_are_of_the_samples, sum, Exact};
use crate::growth::{board_of, lemma_board_of};
use crate::search::{children_step, edge_step, searched, simulated, visited, SearchCfg};
use crate::select::is_choice;
use crate::tree::{edge_fits, is_fresh, is_fresh_edge, Edge, Node};
use crate::turns::{
    allowed, board_after, lemma_stuck_iff_none_listed, lemma_turn_before, points, random_turns,
    turn_allowed, Turn,
};
use crate::units::{exact_at, exact_observation, lemma_one_more_return};
use rand::rngs::SmallRng;
use vstd::prelude::*;

verus! {

/// `x` is what is observed of a score: the score times the scale, and the shift added.
pub open spec fn observes<K: Arithmetic>(k: &K, t: RewardTransform, score: u64, x: Double) -> bool {
    exists|n: Double, scaled: Double|
        {
            &&& call_ensures(K::of_count, (k, score), n)
            &&& #[trigger] call_ensures(K::times, (k, t.scale, n), scaled)
            &&& call_ensures(K::plus, (k, scaled, t.shift), x)
        }
}

/// A play of a board that scores so much, and that ends where no move is left or after `cap`
/// turns at least.
pub open spec fn plays(b: Board, cap: nat, score: nat, turns: Seq<Turn>) -> bool {
    &&& allowed(b, turns)
    &&& points(b, turns) == score
    &&& turns.len() >= cap || board_after(b, turns).stuck()
}

/// The formula of the transform comes to what is observed.
proof fn lemma_observes<K: Arithmetic>(k: &K, t: RewardTransform, score: u64, x: Double)
    requires
        evaluates(k, t.formula(score), x),
    ensures
        observes(k, t, score, x),
{
    reveal_with_fuel(evaluates, 4);
}

/// A play below a move, with the move before it.
proof fn lemma_edge_plays<K: Arithmetic>(
    k: &K,
    cfg: SearchCfg,
    b: Board,
    before: Edge,
    after: Edge,
    total: u64,
    start: SmallRng,
    end: SmallRng,
) -> (turns: Seq<Turn>)
    requires
        edge_fits(before, b, before.dir),
        b.legal(before.dir),
        forall|j: int| 0 <= j < before.children@.len() ==> (#[trigger] before.children@[j]).node.wf(),
        edge_step(k, cfg, before, after, total, start, end),
    ensures
        plays(b, cfg.rollout_cap as nat + 1, total as nat, turns),
        turns.len() > 0,
        turns[0].dir == before.dir,
        before.children@.len() == 0 ==> turns.len() <= cfg.rollout_cap + 1,
    decreases before, 1nat,
{
    let (reached, middle) = choose|reached: Board, middle: SmallRng|
        #[trigger] spawned(before.moved, start, reached, middle) && children_step(
            k,
            cfg,
            before,
            after,
            reached,
            (total - before.immediate_reward) as u64,
            middle,
            end,
        );
    let downstream = (total - before.immediate_reward) as u64;
    let below = if exists|c: int|
        0 <= c < before.children@.len() && (#[trigger] before.children@[c]).board == reached {
        let c = choose|c: int| #![trigger before.children@[c]]
            {
                &&& 0 <= c < before.children@.len()
                &&& before.children@[c].board == reached
                &&& forall|j: int| 0 <= j < c ==> (#[trigger] before.children@[j]).board != reached
                &&& after.children@.len() == before.children@.len()
                &&& after.children@[c].board == reached
                &&& simulated(k, cfg, before.children@[c].node, after.children@[c].node, downstream, middle, end)
                &&& forall|j: int|
                    0 <= j < before.children@.len() && j != c ==> #[trigger] after.children@[j]
                        == before.children@[j]
            };
        lemma_simulation_plays(
            k,
            cfg,
            before.children@[c].node,
            after.children@[c].node,
            downstream,
            middle,
            end,
        )
    } else {
        choose|turns: Seq<Turn>|
            {
                &&& allowed(reached, turns)
                &&& turns.len() <= cfg.rollout_cap
                &&& turns.len() < cfg.rollout_cap ==> board_after(reached, turns).stuck()
                &&& downstream as nat == points(reached, turns)
                &&& #[trigger] random_turns(reached, turns, middle, end)
            }
    };
    let t = Turn { dir: before.dir, after: reached };
    lemma_board_of(b.slide(before.dir));
    lemma_board_ext(before.moved, board_of(b.slide(before.dir)));
    law_drawn_tiles_can_appear(before.moved, start, reached, middle);
    assert(turn_allowed(b, t));
    lemma_turn_before(b, t, below);
    seq![t] + below
}

/// What a simulation returns is what some play scores that the rules allow.
proof fn lemma_simulation_plays<K: Arithmetic>(
    k: &K,
    cfg: SearchCfg,
    before: Node,
    after: Node,
    total: u64,
    start: SmallRng,
    end: SmallRng,
) -> (turns: Seq<Turn>)
    requires
        before.wf(),
        simulated(k, cfg, before, after, total, start, end),
    ensures
        plays(before.board, cfg.rollout_cap as nat, total as nat, turns),
    decreases before, 2nat,
{
    if before.edges@.len() == 0 {
        lemma_stuck_iff_none_listed(before.board);
        Seq::empty()
    } else {
        let (i, middle) = choose|i: int, middle: SmallRng|
            {
                &&& 0 <= i < before.edges@.len()
                &&& #[trigger] is_choice(k, cfg.policy, visited(before), start, i, middle)
                &&& edge_step(k, cfg, before.edges@[i], after.edges@[i], total, middle, end)
                &&& forall|j: int|
                    0 <= j < before.edges@.len() && j != i ==> #[trigger] after.edges@[j]
                        == before.edges@[j]
            };
        assert(edge_fits(before.edges@[i], before.board, before.board.legal_dirs()[i]));
        lemma_edge_plays(k, cfg, before.board, before.edges@[i], after.edges@[i], total, middle, end)
    }
}

/// Every simulation credits one move, the one that the policy chose, with all that the play
/// scored from that move on: there is a play of the board that begins with the move and goes on
/// to the end or past the cap of the random play, no further than that where nothing was reached
/// below the move before; the simulation returns what that play scores, and the one sample that
/// the move takes in is that score times the scale plus the shift. It is so of the first sample
/// of a move as of all later ones, and no other move takes anything in.
pub proof fn law_simulation_credits_the_whole_play<K: Arithmetic>(
    k: &K,
    cfg: SearchCfg,
    before: Node,
    after: Node,
    total: u64,
    start: SmallRng,
    end: SmallRng,
)
    requires
        before.wf(),
        before.edges@.len() > 0,
        simulated(k, cfg, before, after, total, start, end),
    ensures
        exists|i: int, x: Double, turns: Seq<Turn>, chosen: SmallRng|
            {
                &&& 0 <= i < before.edges@.len()
                &&& #[trigger] is_choice(k, cfg.policy, visited(before), start, i, chosen)
                &&& #[trigger] plays(before.board, cfg.rollout_cap as nat + 1, total as nat, turns)
                &&& turns[0].dir == before.edges@[i].dir
                &&& before.edges@[i].children@.len() == 0 ==> turns.len() <= cfg.rollout_cap + 1
                &&& total >= before.board.slide_score(turns[0].dir)
                &&& observes(k, cfg.reward_transform, total, x)
                &&& #[trigger] with_sample(k, before.edges@[i].stats, x, after.edges@[i].stats)
                &&& forall|j: int|
                    0 <= j < before.edges@.len() && j != i ==> #[trigger] after.edges@[j]
                        == before.edges@[j]
            },
{
    let (i, middle) = choose|i: int, middle: SmallRng|
        {
            &&& 0 <= i < before.edges@.len()
            &&& #[trigger] is_choice(k, cfg.policy, visited(before), start, i, middle)
            &&& edge_step(k, cfg, before.edges@[i], after.edges@[i], total, middle, end)
            &&& forall|j: int|
                0 <= j < before.edges@.len() && j != i ==> #[trigger] after.edges@[j]
                    == before.edges@[j]
        };
    let e = before.edges@[i];
    assert(edge_fits(e, before.board, before.board.legal_dirs()[i]));
    let turns = lemma_edge_plays(k, cfg, before.board, e, after.edges@[i], total, middle, end);
    let x = choose|x: Double|
        #[trigger] evaluates(k, cfg.reward_transform.formula(total), x) && with_sample(
            k,
            e.stats,
            x,
            after.edges@[i].stats,
        );
    lemma_observes(k, cfg.reward_transform, total, x);
    assert(with_sample(k, before.edges@[i].stats, x, after.edges@[i].stats));
}

/// A policy chooses with the visit counted that it chooses for, and with the tree as it is.
pub proof fn law_choices_count_their_visit(n: Node)
    ensures
        visited(n).visits == (n.visits + 1) as u32,
        visited(n).edges == n.edges,
        visited(n).board == n.board,
{
}

/// A search with a record of it: which move each simulation sampled, and what it returned.
pub open spec fn went<K: Arithmetic>(
    k: &K,
    cfg: SearchCfg,
    board: Board,
    picks: Seq<int>,
    totals: Seq<u64>,
    root: Node,
    start: SmallRng,
    end: SmallRng,
) -> bool
    decreases picks.len(),
{
    &&& picks.len() == totals.len()
    &&& if picks.len() == 0 {
        is_fresh(root, board) && end == start
    } else {
        exists|before: Node, middle: SmallRng|
            {
                &&& #[trigger] simulated(k, cfg, before, root, totals.last(), middle, end)
                &&& went(k, cfg, board, picks.drop_last(), totals.drop_last(), before, start, middle)
                &&& 0 <= picks.last() < before.edges@.len()
                &&& root.edges@[picks.last()].stats.n == before.edges@[picks.last()].stats.n + 1
            }
    }
}

/// What the simulations returned that sampled the move `i`, in order.
pub open spec fn returns_to(picks: Seq<int>, totals: Seq<u64>, i: int) -> Seq<u64>
    decreases picks.len(),
{
    if picks.len() == 0 || totals.len() == 0 {
        Seq::empty()
    } else if picks.last() == i {
        returns_to(picks.drop_last(), totals.drop_last(), i).push(totals.last())
    } else {
        returns_to(picks.drop_last(), totals.drop_last(), i)
    }
}

/// The sum of the scores.
pub open spec fn score_sum(scores: Seq<u64>) -> nat
    decreases scores.len(),
{
    if scores.len() == 0 {
        0
    } else {
        score_sum(scores.drop_last()) + scores.last() as nat
    }
}

/// The move that a simulation sampled.
proof fn lemma_sampled_move<K: Arithmetic>(
    k: &K,
    cfg: SearchCfg,
    before: Node,
    after: Node,
    total: u64,
    start: SmallRng,
    end: SmallRng,
) -> (i: int)
    requires
        before.edges@.len() > 0,
        simulated(k, cfg, before, after, total, start, end),
    ensures
        0 <= i < before.edges@.len(),
        after.edges@[i].stats.n == before.edges@[i].stats.n + 1,
{
    let (i, chosen) = choose|i: int, chosen: SmallRng|
        {
            &&& 0 <= i < before.edges@.len()
            &&& #[trigger] is_choice(k, cfg.policy, visited(before), start, i, chosen)
            &&& edge_step(k, cfg, before.edges@[i], after.edges@[i], total, chosen, end)
            &&& forall|j: int|
                0 <= j < before.edges@.len() && j != i ==> #[trigger] after.edges@[j]
                    == before.edges@[j]
        };
    i
}

/// A record with one more simulation.
proof fn lemma_record_one_more<K: Arithmetic>(
    k: &K,
    cfg: SearchCfg,
    board: Board,
    picks: Seq<int>,
    totals: Seq<u64>,
    before: Node,
    root: Node,
    start: SmallRng,
    middle: SmallRng,
    end: SmallRng,
    i: int,
    total: u64,
)
    requires
        went(k, cfg, board, picks, totals, before, start, middle),
        simulated(k, cfg, before, root, total, middle, end),
        0 <= i < before.edges@.len(),
        root.edges@[i].stats.n == before.edges@[i].stats.n + 1,
    ensures
        went(k, cfg, board, picks.push(i), totals.push(total), root, start, end),
{
    let p = picks.push(i);
    let q = totals.push(total);
    assert(picks.len() == totals.len());
    assert(p.drop_last() =~= picks);
    assert(q.drop_last() =~= totals);
    assert(went(k, cfg, board, p.drop_last(), q.drop_last(), before, start, middle));
    assert(simulated(k, cfg, before, root, q.last(), middle, end));
    assert(p.last() == i);
}

/// Every search of a board with a legal move has a record: as many simulations as were made,
/// each with the move that it sampled.
pub proof fn law_searches_have_a_record<K: Arithmetic>(
    k: &K,
    cfg: SearchCfg,
    board: Board,
    n: nat,
    root: Node,
    start: SmallRng,
    end: SmallRng,
)
    requires
        !board.stuck(),
        searched(k, cfg, board, n, root, start, end),
    ensures
        exists|picks: Seq<int>, totals: Seq<u64>|
            picks.len() == n && #[trigger] went(k, cfg, board, picks, totals, root, start, end),
    decreases n,
{
    lemma_stuck_iff_none_listed(board);
    if n == 0 {
        assert(went(k, cfg, board, Seq::empty(), Seq::empty(), root, start, end));
    } else {
        let (before, total, middle) = choose|before: Node, total: u64, middle: SmallRng|
            #[trigger] simulated(k, cfg, before, root, total, middle, end) && searched(
                k,
                cfg,
                board,
                (n - 1) as nat,
                before,
                start,
                middle,
            );
        law_searches_have_a_record(k, cfg, board, (n - 1) as nat, before, start, middle);
        let (picks, totals) = choose|picks: Seq<int>, totals: Seq<u64>|
            picks.len() == n - 1 && #[trigger] went(k, cfg, board, picks, totals, before, start, middle);
        lemma_record_keeps_moves(k, cfg, board, picks, totals, before, start, middle);
        let i = lemma_sampled_move(k, cfg, before, root, total, middle, end);
        lemma_record_one_more(
            k,
            cfg,
            board,
            picks,
            totals,
            before,
            root,
            start,
            middle,
            end,
            i,
            total,
        );
    }
}

/// The moves of a search are the legal moves of the board, with their scores.
proof fn lemma_record_keeps_moves<K: Arithmetic>(
    k: &K,
    cfg: SearchCfg,
    board: Board,
    picks: Seq<int>,
    totals: Seq<u64>,
    root: Node,
    start: SmallRng,
    end: SmallRng,
)
    requires
        went(k, cfg, board, picks, totals, root, start, end),
    ensures
        searched(k, cfg, board, picks.len(), root, start, end),
        root.edges@.len() == board.legal_dirs().len(),
        forall|i: int|
            0 <= i < root.edges@.len() ==> (#[trigger] root.edges@[i]).dir == board.legal_dirs()[i]
                && root.edges@[i].immediate_reward == board.slide_score(root.edges@[i].dir),
    decreases picks.len(),
{
    if picks.len() == 0 {
        assert forall|i: int| 0 <= i < root.edges@.len() implies (#[trigger] root.edges@[i]).dir
            == board.legal_dirs()[i] && root.edges@[i].immediate_reward == board.slide_score(
            root.edges@[i].dir,
        ) by {
            assert(is_fresh_edge(root.edges@[i], board, board.legal_dirs()[i]));
        }
    } else {
        let (before, middle) = choose|before: Node, middle: SmallRng|
            {
                &&& #[trigger] simulated(k, cfg, before, root, totals.last(), middle, end)
                &&& went(k, cfg, board, picks.drop_last(), totals.drop_last(), before, start, middle)
                &&& 0 <= picks.last() < before.edges@.len()
                &&& root.edges@[picks.last()].stats.n == before.edges@[picks.last()].stats.n + 1
            };
        lemma_record_keeps_moves(
            k,
            cfg,
            board,
            picks.drop_last(),
            totals.drop_last(),
            before,
            start,
            middle,
        );
        assert forall|i: int| 0 <= i < root.edges@.len() implies (#[trigger] root.edges@[i]).dir
            == board.legal_dirs()[i] && root.edges@[i].immediate_reward == board.slide_score(
            root.edges@[i].dir,
        ) by {
            assert(before.edges@[i].dir == board.legal_dirs()[i]);
        }
    }
}

/// Nothing rounds where the moves at the root take in what the first `n` simulations returned.
pub open spec fn exact_returns<K: Arithmetic>(
    k: &K,
    m: Exact,
    cfg: SearchCfg,
    board: Board,
    n: nat,
    start: SmallRng,
) -> bool {
    forall|j: nat, root: Node, middle: SmallRng, after: Node, total: u64, end: SmallRng, i: int, x: Double|
        {
            &&& j < n
            &&& #[trigger] searched(k, cfg, board, j, root, start, middle)
            &&& #[trigger] simulated(k, cfg, root, after, total, middle, end)
            &&& 0 <= i < root.edges@.len()
            &&& #[trigger] with_sample(k, root.edges@[i].stats, x, after.edges@[i].stats)
        } ==> exact_at(k, m, cfg.reward_transform.formula(total)) && exact_observation(
            k,
            m,
            root.edges@[i].stats,
            x,
            after.edges@[i].stats,
        )
}

/// The statistics are those of the scores through the transform, computed exactly.
pub open spec fn exactly_credited(m: Exact, t: RewardTransform, scores: Seq<u64>, s: Stats) -> bool {
    exists|xs: Seq<Double>|
        {
            &&& xs.len() == scores.len()
            &&& forall|j: int|
                0 <= j < xs.len() ==> m.at(#[trigger] xs[j]) == m.at(t.scale) * (scores[j] as real) + m.at(
                    t.shift,
                )
            &&& #[trigger] exactly_takes_in(m, xs, s)
        }
}

/// One more score.
proof fn lemma_credited_one_more<K: Arithmetic>(
    k: &K,
    m: Exact,
    t: RewardTransform,
    scores: Seq<u64>,
    before: Stats,
    total: u64,
    x: Double,
    after: Stats,
)
    requires
        exactly_credited(m, t, scores, before),
        evaluates(k, t.formula(total), x),
        with_sample(k, before, x, after),
        exact_at(k, m, t.formula(total)),
        exact_observation(k, m, before, x, after),
    ensures
        exactly_credited(m, t, scores.push(total), after),
{
    let xs = choose|xs: Seq<Double>|
        {
            &&& xs.len() == scores.len()
            &&& forall|j: int|
                0 <= j < xs.len() ==> m.at(#[trigger] xs[j]) == m.at(t.scale) * (scores[j] as real) + m.at(
                    t.shift,
                )
            &&& #[trigger] exactly_takes_in(m, xs, before)
        };
    assert(xs.push(x).drop_last() =~= xs);
    assert(exact_sample(m, before, xs.push(x).last(), after));
    assert(exactly_takes_in(m, xs.push(x), after));
    assert(m.at(x) == m.at(t.scale) * (total as real) + m.at(t.shift)) by {
        reveal_with_fuel(Exact::of, 4);
    }
}

/// The samples that the moves of a search took in.
#[verifier::rlimit(40)]
proof fn lemma_record_is_credited<K: Arithmetic>(
    k: &K,
    m: Exact,
    cfg: SearchCfg,
    board: Board,
    picks: Seq<int>,
    totals: Seq<u64>,
    root: Node,
    start: SmallRng,
    end: SmallRng,
    i: int,
)
    requires
        exact_returns(k, m, cfg, board, picks.len(), start),
        went(k, cfg, board, picks, totals, root, start, end),
        0 <= i < root.edges@.len(),
    ensures
        exactly_credited(m, cfg.reward_transform, returns_to(picks, totals, i), root.edges@[i].stats),
        forall|j: int|
            0 <= j < returns_to(picks, totals, i).len() ==> #[trigger] returns_to(picks, totals, i)[j]
                >= root.edges@[i].immediate_reward,
    decreases picks.len(),
{
    if picks.len() == 0 {
        assert(is_fresh_edge(root.edges@[i], board, board.legal_dirs()[i]));
        assert(exactly_takes_in(m, Seq::empty(), root.edges@[i].stats));
    } else {
        let (before, middle) = choose|before: Node, middle: SmallRng|
            {
                &&& #[trigger] simulated(k, cfg, before, root, totals.last(), middle, end)
                &&& went(k, cfg, board, picks.drop_last(), totals.drop_last(), before, start, middle)
                &&& 0 <= picks.last() < before.edges@.len()
                &&& root.edges@[picks.last()].stats.n == before.edges@[picks.last()].stats.n + 1
            };
        let total = totals.last();
        let (c, chosen) = choose|c: int, chosen: SmallRng|
            {
                &&& 0 <= c < before.edges@.len()
                &&& #[trigger] is_choice(k, cfg.policy, visited(before), middle, c, chosen)
                &&& edge_step(k, cfg, before.edges@[c], root.edges@[c], total, chosen, end)
                &&& forall|j: int|
                    0 <= j < before.edges@.len() && j != c ==> #[trigger] root.edges@[j]
                        == before.edges@[j]
            };
        assert(c == picks.last());
        lemma_record_is_credited(
            k,
            m,
            cfg,
            board,
            picks.drop_last(),
            totals.drop_last(),
            before,
            start,
            middle,
            i,
        );
        lemma_record_keeps_moves(
            k,
            cfg,
            board,
            picks.drop_last(),
            totals.drop_last(),
            before,
            start,
            middle,
        );
        if i == c {
            let e = before.edges@[i];
            let x = choose|x: Double|
                #[trigger] evaluates(k, cfg.reward_transform.formula(total), x) && with_sample(
                    k,
                    e.stats,
                    x,
                    root.edges@[i].stats,
                );
            assert(with_sample(k, before.edges@[i].stats, x, root.edges@[i].stats));
            lemma_credited_one_more(
                k,
                m,
                cfg.reward_transform,
                returns_to(picks.drop_last(), totals.drop_last(), i),
                e.stats,
                total,
                x,
                root.edges@[i].stats,
            );
        }
    }
}

/// A sum of transformed scores is the transformed sum.
proof fn lemma_transformed_sum(m: Exact, a: real, b: real, xs: Seq<Double>, scores: Seq<u64>)
    requires
        xs.len() == scores.len(),
        forall|j: int| 0 <= j < xs.len() ==> m.at(#[trigger] xs[j]) == a * (scores[j] as real) + b,
    ensures
        sum(m, xs) == a * (score_sum(scores) as real) + (scores.len() as real) * b,
    decreases xs.len(),
{
    if xs.len() == 0 {
        lemma_no_scores(a, b);
    } else {
        lemma_transformed_sum(m, a, b, xs.drop_last(), scores.drop_last());
        let total = score_sum(scores.drop_last()) as real;
        let n = scores.drop_last().len() as real;
        lemma_one_more_return(a, b, n, total, scores.last() as real);
        assert(scores.len() as real == n + 1 as real);
        assert(score_sum(scores) as real == total + scores.last() as real);
    }
}

proof fn lemma_no_scores(a: real, b: real)
    ensures
        a * (0 as real) + (0 as real) * b == 0 as real,
{
    assert(a * (0 as real) == 0 as real) by (nonlinear_arith);
    assert((0 as real) * b == 0 as real) by (nonlinear_arith);
}

/// Scores that are each so much at least have a sum of as many times that at least.
proof fn lemma_sum_at_least(scores: Seq<u64>, least: u64)
    requires
        forall|j: int| 0 <= j < scores.len() ==> #[trigger] scores[j] >= least,
    ensures
        score_sum(scores) >= scores.len() * least,
    decreases scores.len(),
{
    if scores.len() > 0 {
        lemma_sum_at_least(scores.drop_last(), least);
        let n = scores.drop_last().len();
        assert(scores.len() * least == n * least + least) by (nonlinear_arith)
            requires
                scores.len() == n + 1,
        ;
    } else {
        assert(scores.len() * least == 0) by (nonlinear_arith)
            requires
                scores.len() == 0,
        ;
    }
}

/// A mean of scores that are each so much at least is so much at least, through the transform.
proof fn lemma_mean_at_least(n: real, mean: real, a: real, b: real, total: real, least: real)
    requires
        n > 0 as real,
        a >= 0 as real,
        n * mean == a * total + n * b,
        total >= n * least,
    ensures
        mean >= a * least + b,
{
    assert(a * total >= a * (n * least)) by (nonlinear_arith)
        requires
            a >= 0 as real,
            total >= n * least,
    ;
    assert(a * (n * least) == n * (a * least)) by (nonlinear_arith);
    assert(n * (a * least) + n * b == n * (a * least + b)) by (nonlinear_arith);
    let low = a * least + b;
    assert(mean >= low) by (nonlinear_arith)
        requires
            n > 0 as real,
            n * mean >= n * low,
    ;
}

proof fn lemma_plain_transform(a: real, b: real, total: real, n: real)
    requires
        a == 1 as real,
        b == 0 as real,
    ensures
        a * total + n * b == total,
{
    assert(a * total == total) by (nonlinear_arith)
        requires
            a == 1 as real,
    ;
    assert(n * b == 0 as real) by (nonlinear_arith)
        requires
            b == 0 as real,
    ;
}

/// In exact arithmetic the mean of a move is the mean of what the simulations returned that
/// sampled it, through the transform: `n * mean` is the scale times the sum of those scores plus
/// `n` times the shift, and there are as many samples as there were such simulations. Each of
/// those scores holds the merges of the move itself, so with a scale that is not negative the
/// mean is at least the transform of the score of the move; with scale one and shift zero it is
/// at least that score, and `n * mean` is the sum of the scores.
pub proof fn law_means_are_of_the_returns<K: Arithmetic>(
    k: &K,
    m: Exact,
    cfg: SearchCfg,
    board: Board,
    picks: Seq<int>,
    totals: Seq<u64>,
    root: Node,
    start: SmallRng,
    end: SmallRng,
    i: int,
)
    requires
        m.at(Double::zero()) == 0 as real,
        exact_returns(k, m, cfg, board, picks.len(), start),
        went(k, cfg, board, picks, totals, root, start, end),
        0 <= i < root.edges@.len(),
    ensures
        ({
            let s = root.edges@[i].stats;
            let scores = returns_to(picks, totals, i);
            let scale = m.at(cfg.reward_transform.scale);
            let shift = m.at(cfg.reward_transform.shift);
            let own = board.slide_score(root.edges@[i].dir) as real;
            &&& s.n == scores.len()
            &&& (s.n as real) * m.at(s.mean) == scale * (score_sum(scores) as real) + (s.n as real)
                * shift
            &&& s.n > 0 && scale >= 0 as real ==> m.at(s.mean) >= scale * own + shift
            &&& scale == 1 as real && shift == 0 as real ==> (s.n as real) * m.at(s.mean) == score_sum(
                scores,
            ) as real
            &&& s.n > 0 && scale == 1 as real && shift == 0 as real ==> m.at(s.mean) >= own
        }),
{
    let s = root.edges@[i].stats;
    let scores = returns_to(picks, totals, i);
    let t = cfg.reward_transform;
    let scale = m.at(t.scale);
    let shift = m.at(t.shift);
    lemma_record_is_credited(k, m, cfg, board, picks, totals, root, start, end, i);
    lemma_record_keeps_moves(k, cfg, board, picks, totals, root, start, end);
    let own = root.edges@[i].immediate_reward;
    let xs = choose|xs: Seq<Double>|
        {
            &&& xs.len() == scores.len()
            &&& forall|j: int|
                0 <= j < xs.len() ==> m.at(#[trigger] xs[j]) == m.at(t.scale) * (scores[j] as real) + m.at(
                    t.shift,
                )
            &&& #[trigger] exactly_takes_in(m, xs, s)
        };
    law_statistics_are_of_the_samples(m, xs, s);
    lemma_transformed_sum(m, scale, shift, xs, scores);
    let n = s.n as real;
    let total = score_sum(scores) as real;
    assert(n * m.at(s.mean) == scale * total + n * shift);
    if scale == 1 as real && shift == 0 as real {
        lemma_plain_transform(scale, shift, total, n);
        lemma_plain_transform(scale, shift, own as real, 1 as real);
    }
    if s.n > 0 && scale >= 0 as real {
        lemma_sum_at_least(scores, own);
        lemma_as_reals(scores.len(), own as nat, score_sum(scores));
        lemma_mean_at_least(n, m.at(s.mean), scale, shift, total, own as real);
    }
}

proof fn lemma_as_reals(n: nat, least: nat, total: nat)
    requires
        total >= n * least,
    ensures
        total as real >= (n as real) * (least as real),
{
    assert((n * least) as real == (n as real) * (least as real)) by (nonlinear_arith);
}

} // verus!
