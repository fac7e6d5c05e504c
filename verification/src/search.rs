//! The tree search: random play, one simulation, and the move that a search chooses.

use crate::arith::{evaluates, Arithmetic};
use crate::board::{lemma_board_ext, spawned, Board, Dir};
use crate::double::{index_of_last_greatest, last_greatest, Double};
use crate::estimate::{with_sample, RewardTransform};
use crate::growth::{board_of, lemma_board_of};
use crate::policy::Policy;
use crate::random::{draw_below, draws_below};
use crate::select::{is_choice, is_least_sampled, needed, select_edge};
use crate::tree::{
    edge_fits, edge_means, is_fresh, is_fresh_edge, lemma_fresh_is_wf, lemma_samples_between,
    lemma_samples_bound, lemma_samples_one_more, means, sampled_at_least, samples, Child, Edge,
    Node,
};
use crate::turns::{
    allowed, attainable, board_after, is_rollout, law_play_keeps_boards_playable,
    law_playable_scores_fit, law_turns_keep_boards_playable, lemma_attainable_before,
    lemma_one_more_random_turn, lemma_one_more_turn, lemma_stuck_iff_none_listed, points,
    random_turn, random_turns, turn_allowed, Turn,
};
use rand::rngs::SmallRng;
use vstd::prelude::*;

verus! {

/// What a search goes by: its policy, how many moves a random play has at most, and how
/// it observes the scores.
#[derive(Clone, Copy, Debug)]
pub struct SearchCfg {
    pub policy: Policy,
    pub rollout_cap: usize,
    pub reward_transform: RewardTransform,
}

/// Plays random legal moves from a board, at most `cap` of them, and returns their
/// score.
pub fn random_rollout(board: Board, rng: &mut SmallRng, cap: usize) -> (score: u64)
    requires
        board.playable(),
    ensures
        is_rollout(board, cap as nat, *old(rng), score as nat, *final(rng)),
        attainable(board, score as nat),
        cap == 0 || board.stuck() ==> score == 0 && *final(rng) == *old(rng),
{
    let mut current = board;
    let mut score: u64 = 0;
    let ghost mut turns: Seq<Turn> = seq![];
    let ghost start = *rng;
    let mut i: usize = 0;
    while i < cap
        invariant
            board.playable(),
            i <= cap,
            allowed(board, turns),
            turns.len() == i,
            current == board_after(board, turns),
            score == points(board, turns),
            random_turns(board, turns, start, *rng),
            start == *old(rng),
            i > 0 ==> !board.stuck(),
        decreases cap - i,
    {
        proof {
            law_play_keeps_boards_playable(board, turns);
            law_playable_scores_fit(current);
            lemma_stuck_iff_none_listed(current);
        }
        let legal = current.legal_moves();
        if legal.len() == 0 {
            return score;
        }
        let ghost before = *rng;
        let pick = draw_below(rng, legal.len());
        let ghost middle = *rng;
        let (dir, moved, reward) = legal[pick];
        let next = moved.spawn(rng);
        proof {
            let t = Turn { dir, after: next };
            lemma_board_of(current.slide(dir));
            lemma_board_ext(moved, board_of(current.slide(dir)));
            assert(turn_allowed(current, t));
            assert(draws_below(before, current.legal_dirs().len() as usize, pick, middle));
            assert(random_turn(current, t, before, *rng));
            lemma_one_more_turn(board, turns, t);
            lemma_one_more_random_turn(board, turns, start, before, t, *rng);
            turns = turns.push(t);
            assert(points(board, turns) <= u64::MAX);
        }
        score = score + reward;
        current = next;
        i = i + 1;
    }
    score
}

/// The children after a position was reached below a move. A position seen before was
/// simulated again; a new one was played out at random and joined the tree.
pub open spec fn children_step<K: Arithmetic>(
    k: &K,
    cfg: SearchCfg,
    before: Edge,
    after: Edge,
    reached: Board,
    downstream: u64,
    start: SmallRng,
    end: SmallRng,
) -> bool
    decreases before, 0nat,
{
    if exists|c: int| 0 <= c < before.children@.len() && (#[trigger] before.children@[c]).board == reached {
        exists|c: int| #![trigger before.children@[c]]
            {
                &&& 0 <= c < before.children@.len()
                &&& before.children@[c].board == reached
                &&& forall|j: int| 0 <= j < c ==> (#[trigger] before.children@[j]).board != reached
                &&& after.children@.len() == before.children@.len()
                &&& after.children@[c].board == reached
                &&& simulated(k, cfg, before.children@[c].node, after.children@[c].node, downstream, start, end)
                &&& forall|j: int|
                    0 <= j < before.children@.len() && j != c ==> #[trigger] after.children@[j]
                        == before.children@[j]
            }
    } else {
        &&& is_rollout(reached, cfg.rollout_cap as nat, start, downstream as nat, end)
        &&& after.children@.len() == before.children@.len() + 1
        &&& after.children@.last().board == reached
        &&& is_fresh(after.children@.last().node, reached)
        &&& forall|j: int|
            0 <= j < before.children@.len() ==> #[trigger] after.children@[j] == before.children@[j]
    }
}

/// The edge after it was sampled once: a tile appeared on the moved board, the play
/// went on from there, and the return of the whole was observed.
pub open spec fn edge_step<K: Arithmetic>(
    k: &K,
    cfg: SearchCfg,
    before: Edge,
    after: Edge,
    total: u64,
    start: SmallRng,
    end: SmallRng,
) -> bool
    decreases before, 1nat,
{
    &&& after.dir == before.dir
    &&& after.moved == before.moved
    &&& after.immediate_reward == before.immediate_reward
    &&& exists|x: Double|
        #[trigger] evaluates(k, cfg.reward_transform.formula(total), x) && with_sample(
            k,
            before.stats,
            x,
            after.stats,
        )
    &&& before.immediate_reward <= total
    &&& exists|reached: Board, middle: SmallRng|
        #[trigger] spawned(before.moved, start, reached, middle) && children_step(
            k,
            cfg,
            before,
            after,
            reached,
            (total - before.immediate_reward) as u64,
            middle,
            end,
        )
}

/// The node before a simulation, counted as visited.
pub open spec fn visited(n: Node) -> Node {
    Node { visits: (n.visits + 1) as u32, ..n }
}

/// `after` is the tree after one simulation that returned `total`, with the generator
/// `start`, which is `end` then: nothing where no move is legal, else the move that the
/// policy chooses was sampled once and the rest is as before.
pub open spec fn simulated<K: Arithmetic>(
    k: &K,
    cfg: SearchCfg,
    before: Node,
    after: Node,
    total: u64,
    start: SmallRng,
    end: SmallRng,
) -> bool
    decreases before, 2nat,
{
    if before.edges@.len() == 0 {
        after == before && total == 0 && end == start
    } else {
        &&& after.board == before.board
        &&& after.visits == before.visits + 1
        &&& after.edges@.len() == before.edges@.len()
        &&& exists|i: int, middle: SmallRng|
            {
                &&& 0 <= i < before.edges@.len()
                &&& #[trigger] is_choice(k, cfg.policy, visited(before), start, i, middle)
                &&& edge_step(k, cfg, before.edges@[i], after.edges@[i], total, middle, end)
                &&& forall|j: int|
                    0 <= j < before.edges@.len() && j != i ==> #[trigger] after.edges@[j]
                        == before.edges@[j]
            }
    }
}

/// Simulates once from a node: chooses a move, lets a tile appear, goes on below where
/// that position was seen before or plays it out at random, and lets the move observe
/// the return, which is the result.
pub fn simulate<K: Arithmetic>(node: &mut Node, cfg: &SearchCfg, k: &K, rng: &mut SmallRng) -> (total:
    u64)
    requires
        old(node).wf(),
        old(node).visits < u32::MAX,
    ensures
        simulated(k, *cfg, *old(node), *final(node), total, *old(rng), *final(rng)),
        final(node).wf(),
        final(node).board == old(node).board,
        attainable(old(node).board, total as nat),
        old(node).edges@.len() == 0 ==> *final(rng) == *old(rng),
    decreases *old(node),
{
    let ghost first = *node;
    let ghost start = *rng;
    if node.terminal() {
        assert(allowed(first.board, Seq::empty()));
        return 0;
    }
    node.visits = node.visits + 1;
    assert(*node == visited(first));
    let edge_i = select_edge(node, cfg.policy, k, rng);
    let ghost chosen = *rng;
    let ghost before = first.edges@[edge_i as int];
    assert(edge_fits(before, first.board, first.board.legal_dirs()[edge_i as int]));
    proof {
        lemma_samples_bound(first.edges@, edge_i as int);
        lemma_board_of(first.board.slide(before.dir));
        lemma_board_ext(before.moved, board_of(first.board.slide(before.dir)));
    }
    let immediate = node.edges[edge_i].immediate_reward;
    let moved = node.edges[edge_i].moved;
    let reached = moved.spawn(rng);
    let ghost there = *rng;
    let ghost turn = Turn { dir: before.dir, after: reached };
    proof {
        assert(turn_allowed(first.board, turn));
        law_turns_keep_boards_playable(first.board, turn);
        law_playable_scores_fit(reached);
    }
    let c = node.edges[edge_i].find_child(reached);
    let downstream: u64 = if c < node.edges[edge_i].children.len() {
        let below = simulate(&mut node.edges[edge_i].children[c].node, cfg, k, rng);
        assert(node.edges@[edge_i as int].children@[c as int].board == reached);
        below
    } else {
        let rollout = random_rollout(reached, rng, cfg.rollout_cap);
        let fresh = Node::new(reached);
        proof {
            lemma_fresh_is_wf(fresh, reached);
        }
        node.edges[edge_i].children.push(Child { board: reached, node: fresh });
        rollout
    };
    proof {
        lemma_attainable_before(first.board, turn, downstream as nat);
    }
    let total = immediate + downstream;
    let x = cfg.reward_transform.apply(k, total);
    node.edges[edge_i].stats.observe(k, x);
    proof {
        let after = node.edges@[edge_i as int];
        assert(children_step(k, *cfg, before, after, reached, downstream, there, *rng));
        assert(spawned(before.moved, chosen, reached, there));
        assert(edge_step(k, *cfg, before, after, total, chosen, *rng));
        assert(is_choice(k, cfg.policy, visited(first), start, edge_i as int, chosen));
        lemma_samples_one_more(first.edges@, node.edges@, edge_i as int);
        assert(edge_fits(after, node.board, node.board.legal_dirs()[edge_i as int]));
    }
    total
}

/// `root` is the tree of a board after `n` simulations, one after the other with the
/// generator `start`, which is `end` then.
pub open spec fn searched<K: Arithmetic>(
    k: &K,
    cfg: SearchCfg,
    board: Board,
    n: nat,
    root: Node,
    start: SmallRng,
    end: SmallRng,
) -> bool
    decreases n,
{
    if n == 0 {
        is_fresh(root, board) && end == start
    } else {
        exists|before: Node, total: u64, middle: SmallRng|
            #[trigger] simulated(k, cfg, before, root, total, middle, end) && searched(
                k,
                cfg,
                board,
                (n - 1) as nat,
                before,
                start,
                middle,
            )
    }
}

/// `dir` is the last of the moves of the root with the greatest mean return.
pub open spec fn is_best_move(root: Node, dir: Dir) -> bool {
    exists|i: int| #[trigger] last_greatest(means(root.edges@), i) && root.edges@[i].dir == dir
}

/// One more simulation.
pub proof fn lemma_searched_one_more<K: Arithmetic>(
    k: &K,
    cfg: SearchCfg,
    board: Board,
    n: nat,
    before: Node,
    root: Node,
    total: u64,
    start: SmallRng,
    middle: SmallRng,
    end: SmallRng,
)
    requires
        searched(k, cfg, board, n, before, start, middle),
        simulated(k, cfg, before, root, total, middle, end),
    ensures
        searched(k, cfg, board, n + 1, root, start, end),
{
}

/// The move with the greatest mean return at the root.
pub fn best_move(root: &Node) -> (dir: Dir)
    requires
        root.edges@.len() > 0,
    ensures
        is_best_move(*root, dir),
{
    let ms = edge_means(&root.edges);
    let i = index_of_last_greatest(&ms);
    assert(last_greatest(means(root.edges@), i as int));
    root.edges[i].dir
}

/// `r` is what a search of `n` simulations with the generator `start` chooses on a board:
/// a move of the tree with the greatest mean return, or nothing where no move is legal. The
/// generator is `end` then.
pub open spec fn chooses<K: Arithmetic>(
    k: &K,
    cfg: SearchCfg,
    board: Board,
    n: nat,
    start: SmallRng,
    r: Option<Dir>,
    end: SmallRng,
) -> bool {
    match r {
        None => board.stuck() && end == start,
        Some(dir) => board.legal(dir) && exists|root: Node| #[trigger]
            searched(k, cfg, board, n, root, start, end) && is_best_move(root, dir),
    }
}

/// Searches a board with the given number of simulations and returns the move with the
/// greatest mean return, or nothing where no move is legal.
pub fn choose_move<K: Arithmetic>(
    board: Board,
    simulations: usize,
    cfg: &SearchCfg,
    k: &K,
    rng: &mut SmallRng,
) -> (r: Option<Dir>)
    requires
        board.playable(),
        simulations <= u32::MAX,
    ensures
        chooses(k, *cfg, board, simulations as nat, *old(rng), r, *final(rng)),
        r is None <==> board.stuck(),
        r is None ==> *final(rng) == *old(rng),
{
    proof {
        law_playable_scores_fit(board);
        lemma_stuck_iff_none_listed(board);
    }
    let mut root = Node::new(board);
    if root.terminal() {
        return None;
    }
    proof {
        lemma_fresh_is_wf(root, board);
    }
    let ghost start = *rng;
    for i in 0..simulations
        invariant
            simulations <= u32::MAX,
            root.wf(),
            root.board == board,
            root.edges@.len() > 0,
            root.visits == i,
            searched(k, *cfg, board, i as nat, root, start, *rng),
    {
        let ghost before = root;
        let ghost middle = *rng;
        let total = simulate(&mut root, cfg, k, rng);
        proof {
            lemma_searched_one_more(
                k,
                *cfg,
                board,
                i as nat,
                before,
                root,
                total,
                start,
                middle,
                *rng,
            );
        }
    }
    let dir = best_move(&root);
    proof {
        let i = choose|i: int|
            #[trigger] last_greatest(means(root.edges@), i) && root.edges@[i].dir == dir;
        assert(edge_fits(root.edges@[i], root.board, root.board.legal_dirs()[i]));
    }
    Some(dir)
}

/// A simulation leaves one sample on one move, and changes neither the moves nor the
/// samples of the others.
pub proof fn law_simulation_leaves_one_sample<K: Arithmetic>(
    k: &K,
    cfg: SearchCfg,
    before: Node,
    after: Node,
    total: u64,
    start: SmallRng,
    end: SmallRng,
)
    requires
        simulated(k, cfg, before, after, total, start, end),
        before.edges@.len() > 0,
    ensures
        after.visits == before.visits + 1,
        samples(after.edges@) == samples(before.edges@) + 1,
        after.edges@.len() == before.edges@.len(),
        forall|j: int|
            0 <= j < before.edges@.len() ==> (#[trigger] after.edges@[j]).dir == before.edges@[j].dir,
{
    let (i, middle) = choose|i: int, middle: SmallRng|
        {
            &&& 0 <= i < before.edges@.len()
            &&& #[trigger] is_choice(k, cfg.policy, visited(before), start, i, middle)
            &&& edge_step(k, cfg, before.edges@[i], after.edges@[i], total, middle, end)
            &&& forall|j: int|
                0 <= j < before.edges@.len() && j != i ==> #[trigger] after.edges@[j]
                    == before.edges@[j]
        };
    assert(edge_step(k, cfg, before.edges@[i], after.edges@[i], total, middle, end));
    lemma_samples_one_more(before.edges@, after.edges@, i);
}

/// After `n` simulations of a board with a legal move, its moves have `n` samples in
/// all, as many as the root was visited, and they are the legal moves.
pub proof fn law_search_spends_its_budget<K: Arithmetic>(
    k: &K,
    cfg: SearchCfg,
    board: Board,
    n: nat,
    root: Node,
    start: SmallRng,
    end: SmallRng,
)
    requires
        searched(k, cfg, board, n, root, start, end),
        !board.stuck(),
    ensures
        root.visits == n,
        samples(root.edges@) == n,
        root.edges@.len() == board.legal_dirs().len(),
        forall|j: int|
            0 <= j < root.edges@.len() ==> (#[trigger] root.edges@[j]).dir == board.legal_dirs()[j],
    decreases n,
{
    lemma_stuck_iff_none_listed(board);
    if n == 0 {
        assert forall|j: int| 0 <= j < root.edges@.len() implies (#[trigger] root.edges@[j]).stats.n == 0
            && root.edges@[j].dir == board.legal_dirs()[j] by {
            assert(is_fresh_edge(root.edges@[j], board, board.legal_dirs()[j]));
        }
        crate::tree::lemma_no_samples(root.edges@);
    } else {
        let (before, total, middle) = choose|before: Node, total: u64, middle: SmallRng|
            #[trigger] simulated(k, cfg, before, root, total, middle, end) && searched(
                k,
                cfg,
                board,
                (n - 1) as nat,
                before,
                start,
                middle,
            );
        law_search_spends_its_budget(k, cfg, board, (n - 1) as nat, before, start, middle);
        law_simulation_leaves_one_sample(k, cfg, before, root, total, middle, end);
    }
}

/// No move has two samples more than another.
pub open spec fn even(edges: Seq<Edge>) -> bool {
    forall|i: int, j: int|
        0 <= i < edges.len() && 0 <= j < edges.len() ==> (#[trigger] edges[i]).stats.n <= (
        #[trigger] edges[j]).stats.n + 1
}

/// The first samples of a search are forced: until every legal move has as many as the
/// policy needs, they go to the moves in turn, and no more than that are forced.
pub proof fn law_first_samples_are_forced<K: Arithmetic>(
    k: &K,
    cfg: SearchCfg,
    board: Board,
    n: nat,
    root: Node,
    start: SmallRng,
    end: SmallRng,
)
    requires
        searched(k, cfg, board, n, root, start, end),
        !board.stuck(),
    ensures
        n <= needed(cfg.policy) * board.legal_dirs().len() ==> even(root.edges@),
        n == needed(cfg.policy) * board.legal_dirs().len() ==> forall|i: int|
            0 <= i < root.edges@.len() ==> (#[trigger] root.edges@[i]).stats.n == needed(cfg.policy),
        n >= needed(cfg.policy) * board.legal_dirs().len() <==> sampled_at_least(
            root.edges@,
            needed(cfg.policy),
        ),
    decreases n,
{
    let want = needed(cfg.policy);
    let moves = board.legal_dirs().len() as int;
    lemma_stuck_iff_none_listed(board);
    law_search_spends_its_budget(k, cfg, board, n, root, start, end);
    assert(want * moves >= moves) by (nonlinear_arith)
        requires
            want >= 1,
            moves >= 0,
    ;
    if n == 0 {
        assert forall|j: int| 0 <= j < root.edges@.len() implies (#[trigger] root.edges@[j]).stats.n == 0 by {
            assert(is_fresh_edge(root.edges@[j], board, board.legal_dirs()[j]));
        }
        assert(root.edges@[0].stats.n == 0);
    } else {
        let (before, total, middle) = choose|before: Node, total: u64, middle: SmallRng|
            #[trigger] simulated(k, cfg, before, root, total, middle, end) && searched(
                k,
                cfg,
                board,
                (n - 1) as nat,
                before,
                start,
                middle,
            );
        law_first_samples_are_forced(k, cfg, board, (n - 1) as nat, before, start, middle);
        law_search_spends_its_budget(k, cfg, board, (n - 1) as nat, before, start, middle);
        let (i, chosen) = choose|i: int, chosen: SmallRng|
            {
                &&& 0 <= i < before.edges@.len()
                &&& #[trigger] is_choice(k, cfg.policy, visited(before), middle, i, chosen)
                &&& edge_step(k, cfg, before.edges@[i], root.edges@[i], total, chosen, end)
                &&& forall|j: int|
                    0 <= j < before.edges@.len() && j != i ==> #[trigger] root.edges@[j]
                        == before.edges@[j]
            };
        assert(edge_step(k, cfg, before.edges@[i], root.edges@[i], total, chosen, end));
        assert(root.edges@[i].stats.n == before.edges@[i].stats.n + 1);
        if n <= want * moves {
            assert(is_least_sampled(before.edges@, i));
            assert forall|a: int, b: int|
                0 <= a < root.edges@.len() && 0 <= b < root.edges@.len() implies (
            #[trigger] root.edges@[a]).stats.n <= (#[trigger] root.edges@[b]).stats.n + 1 by {
                assert(before.edges@[a].stats.n <= before.edges@[b].stats.n + 1);
                assert(before.edges@[i].stats.n <= before.edges@[b].stats.n);
            }
        }
        if n < want * moves {
            if sampled_at_least(root.edges@, want) {
                lemma_samples_between(root.edges@, want, u32::MAX as int);
            }
        }
        if n == want * moves {
            lemma_even_is_equal(root.edges@, want);
        }
        if n > want * moves {
            assert forall|j: int| 0 <= j < root.edges@.len() implies (#[trigger] root.edges@[j]).stats.n
                >= want by {
                assert(before.edges@[j].stats.n >= want);
            }
        }
    }
}

/// Where no move has two samples more than another, and there are `want` for each in
/// all, each has `want`.
proof fn lemma_even_is_equal(edges: Seq<Edge>, want: int)
    requires
        even(edges),
        samples(edges) == want * edges.len(),
    ensures
        forall|i: int| 0 <= i < edges.len() ==> (#[trigger] edges[i]).stats.n == want,
{
    assert forall|i: int| 0 <= i < edges.len() implies (#[trigger] edges[i]).stats.n == want by {
        let m = edges[i].stats.n as int;
        if m < want {
            assert forall|j: int| 0 <= j < edges.len() implies 0 <= (#[trigger] edges[j]).stats.n <= want by {
                assert(edges[j].stats.n <= edges[i].stats.n + 1);
            }
            lemma_one_below(edges, i, want);
        } else if m > want {
            assert forall|j: int| 0 <= j < edges.len() implies want <= (#[trigger] edges[j]).stats.n by {
                assert(edges[i].stats.n <= edges[j].stats.n + 1);
            }
            lemma_one_above(edges, i, want);
        }
    }
}

/// A move with fewer samples than `want`, where none has more, leaves fewer in all.
pub proof fn lemma_one_below(edges: Seq<Edge>, i: int, want: int)
    requires
        0 <= i < edges.len(),
        edges[i].stats.n < want,
        forall|j: int| 0 <= j < edges.len() ==> (#[trigger] edges[j]).stats.n <= want,
    ensures
        samples(edges) < want * edges.len(),
    decreases edges.len(),
{
    let front = edges.drop_last();
    assert(forall|j: int| 0 <= j < front.len() ==> front[j] == edges[j]);
    assert(want * edges.len() == want * front.len() + want) by (nonlinear_arith)
        requires
            edges.len() == front.len() + 1,
    ;
    assert(edges[edges.len() - 1].stats.n <= want);
    if i < front.len() {
        lemma_one_below(front, i, want);
    } else {
        lemma_samples_between(front, 0, want);
    }
}

proof fn lemma_one_above(edges: Seq<Edge>, i: int, want: int)
    requires
        0 <= i < edges.len(),
        edges[i].stats.n > want,
        forall|j: int| 0 <= j < edges.len() ==> (#[trigger] edges[j]).stats.n >= want,
    ensures
        samples(edges) > want * edges.len(),
    decreases edges.len(),
{
    let front = edges.drop_last();
    assert(forall|j: int| 0 <= j < front.len() ==> front[j] == edges[j]);
    assert(want * edges.len() == want * front.len() + want) by (nonlinear_arith)
        requires
            edges.len() == front.len() + 1,
    ;
    assert(edges[edges.len() - 1].stats.n >= want);
    if i < front.len() {
        lemma_one_above(front, i, want);
    } else {
        lemma_samples_between(front, want, u32::MAX as int);
    }
}

/// A simulation where no move is legal changes nothing and returns nothing.
pub proof fn law_terminal_simulation<K: Arithmetic>(
    k: &K,
    cfg: SearchCfg,
    before: Node,
    after: Node,
    total: u64,
    start: SmallRng,
    end: SmallRng,
)
    requires
        simulated(k, cfg, before, after, total, start, end),
        before.edges@.len() == 0,
    ensures
        after == before,
        total == 0,
        end == start,
{
}

/// Which move is best depends on the order of the means alone: a search that observes
/// its returns in other units, without changing that order, plays the same move.
pub proof fn law_order_decides_best_move(a: Node, b: Node, dir: Dir)
    requires
        a.edges@.len() == b.edges@.len(),
        forall|i: int| 0 <= i < a.edges@.len() ==> (#[trigger] a.edges@[i]).dir == b.edges@[i].dir,
        forall|i: int, j: int|
            0 <= i < a.edges@.len() && 0 <= j < a.edges@.len() ==> ((#[trigger] means(
                a.edges@,
            )[i]).total_rank() < (#[trigger] means(a.edges@)[j]).total_rank() <==> means(
                b.edges@,
            )[i].total_rank() < means(b.edges@)[j].total_rank()),
        is_best_move(a, dir),
    ensures
        is_best_move(b, dir),
{
    let xs = means(a.edges@);
    let ys = means(b.edges@);
    let r = choose|r: int| #[trigger] last_greatest(xs, r) && a.edges@[r].dir == dir;
    assert(a.edges@[r].dir == b.edges@[r].dir);
    assert forall|i: int| 0 <= i < ys.len() implies (#[trigger] ys[i]).total_rank()
        <= ys[r].total_rank() by {
        assert(!(xs[r].total_rank() < xs[i].total_rank()));
    }
    assert forall|i: int| r < i < ys.len() implies (#[trigger] ys[i]).total_rank()
        < ys[r].total_rank() by {
        assert(xs[i].total_rank() < xs[r].total_rank());
    }
    assert(last_greatest(ys, r));
}

/// Without a simulation the search chooses the last of the legal moves and draws nothing.
pub proof fn law_no_simulation_chooses_the_last_move<K: Arithmetic>(
    k: &K,
    cfg: SearchCfg,
    board: Board,
    start: SmallRng,
    dir: Dir,
    end: SmallRng,
)
    requires
        chooses(k, cfg, board, 0, start, Some(dir), end),
    ensures
        dir == board.legal_dirs().last(),
        end == start,
{
    let root = choose|root: Node| #[trigger]
        searched(k, cfg, board, 0, root, start, end) && is_best_move(root, dir);
    let ms = means(root.edges@);
    let i = choose|i: int| #[trigger] last_greatest(ms, i) && root.edges@[i].dir == dir;
    assert(is_fresh_edge(root.edges@[i], board, board.legal_dirs()[i]));
    if i < ms.len() - 1 {
        assert(is_fresh_edge(root.edges@[ms.len() - 1], board, board.legal_dirs()[ms.len() - 1]));
        assert(ms[ms.len() - 1].total_rank() < ms[i].total_rank());
    }
}

} // verus!
