//! Searches and games can be repeated: where the arithmetic and the generator are steady,
//! one generator leads to one search, and one seed to one game.

use crate::arith::{evaluates, Arithmetic};
use crate::board::{lemma_board_ext, spawned, started, Board, Dir};
use crate::double::{last_greatest, Double};
use crate::estimate::with_sample;
use crate::game::{
    is_complete, law_results_of_whole_games, search_picks, search_seed, tiles_are_seeded,
    turns_are_searched, GameResult, GameTrace, TraceRun, TraceStep,
};
use crate::growth::board_of;
use crate::limits::SearchConstraints;
use crate::line::tile_value;
use crate::live::{Action, Phase, SearchRun};
use crate::random::{draws_below, draws_word, is_seeded};
use crate::search::{
    children_step, chooses, edge_step, is_best_move, lemma_searched_one_more, searched, simulated,
    visited, SearchCfg,
};
use crate::select::is_choice;
use crate::snapshot::{is_snapshot, RootSnapshot};
use crate::span::Span;
use crate::steady::{
    alike, generators_are_steady, lemma_choice_once, lemma_evaluates_once, lemma_sample_once, steady,
};
use crate::tree::{is_fresh, is_fresh_edge, means, Edge, Node};
use crate::turns::{
    allowed, board_after, is_rollout, law_points_only_grow, lemma_turn_is_allowed, points,
    random_turn, random_turns, tiles_from, Turn,
};
use rand::rngs::SmallRng;
use vstd::prelude::*;

verus! {

/// One tile appears.
pub proof fn lemma_spawned_once(
    from: Board,
    before: SmallRng,
    a: Board,
    after_a: SmallRng,
    b: Board,
    after_b: SmallRng,
)
    requires
        generators_are_steady(),
        spawned(from, before, a, after_a),
        spawned(from, before, b, after_b),
    ensures
        a == b,
        after_a == after_b,
{
    if from.empties().len() > 0 {
        let n = from.empties().len() as usize;
        let (p, v, g) = choose|p: usize, v: u64, g: SmallRng|
            {
                &&& p < from.empties().len()
                &&& #[trigger] draws_below(before, n, p, g)
                &&& #[trigger] draws_word(g, v, after_a)
                &&& a@ == from.with_tile(p as int, v)
            };
        let (q, w, h) = choose|q: usize, w: u64, h: SmallRng|
            {
                &&& q < from.empties().len()
                &&& #[trigger] draws_below(before, n, q, h)
                &&& #[trigger] draws_word(h, w, after_b)
                &&& b@ == from.with_tile(q as int, w)
            };
        assert(p == q && g == h);
        assert(v == w);
        lemma_board_ext(a, b);
    }
}

/// One starting board.
pub proof fn lemma_started_once(
    before: SmallRng,
    a: Board,
    after_a: SmallRng,
    b: Board,
    after_b: SmallRng,
)
    requires
        generators_are_steady(),
        started(before, a, after_a),
        started(before, b, after_b),
    ensures
        a == b,
        after_a == after_b,
{
    let (n, p, g) = choose|n: Board, p: Board, g: SmallRng|
        {
            &&& n@ == Seq::new(16, |i: int| 0u8)
            &&& #[trigger] spawned(n, before, p, g)
            &&& #[trigger] spawned(p, g, a, after_a)
        };
    let (m, q, h) = choose|m: Board, q: Board, h: SmallRng|
        {
            &&& m@ == Seq::new(16, |i: int| 0u8)
            &&& #[trigger] spawned(m, before, q, h)
            &&& #[trigger] spawned(q, h, b, after_b)
        };
    lemma_board_ext(n, m);
    lemma_spawned_once(n, before, p, g, q, h);
    lemma_spawned_once(p, g, a, after_a, b, after_b);
}

proof fn lemma_random_turn_once(
    from: Board,
    before: SmallRng,
    s: Turn,
    after_s: SmallRng,
    t: Turn,
    after_t: SmallRng,
)
    requires
        generators_are_steady(),
        random_turn(from, s, before, after_s),
        random_turn(from, t, before, after_t),
    ensures
        s == t,
        after_s == after_t,
{
    let n = from.legal_dirs().len() as usize;
    let (p, g) = choose|p: usize, g: SmallRng|
        {
            &&& p < from.legal_dirs().len()
            &&& #[trigger] draws_below(before, n, p, g)
            &&& s.dir == from.legal_dirs()[p as int]
            &&& spawned(board_of(from.slide(s.dir)), g, s.after, after_s)
        };
    let (q, h) = choose|q: usize, h: SmallRng|
        {
            &&& q < from.legal_dirs().len()
            &&& #[trigger] draws_below(before, n, q, h)
            &&& t.dir == from.legal_dirs()[q as int]
            &&& spawned(board_of(from.slide(t.dir)), h, t.after, after_t)
        };
    assert(p == q && g == h);
    lemma_spawned_once(board_of(from.slide(s.dir)), g, s.after, after_s, t.after, after_t);
}

/// As many turns of random play are the same turns.
proof fn lemma_random_turns_once(
    from: Board,
    before: SmallRng,
    s: Seq<Turn>,
    after_s: SmallRng,
    t: Seq<Turn>,
    after_t: SmallRng,
)
    requires
        generators_are_steady(),
        s.len() == t.len(),
        random_turns(from, s, before, after_s),
        random_turns(from, t, before, after_t),
    ensures
        s == t,
        after_s == after_t,
    decreases s.len(),
{
    if s.len() == 0 {
        assert(s =~= t);
    } else {
        let g = choose|g: SmallRng|
            random_turns(from, s.drop_last(), before, g) && #[trigger] random_turn(
                board_after(from, s.drop_last()),
                s.last(),
                g,
                after_s,
            );
        let h = choose|h: SmallRng|
            random_turns(from, t.drop_last(), before, h) && #[trigger] random_turn(
                board_after(from, t.drop_last()),
                t.last(),
                h,
                after_t,
            );
        lemma_random_turns_once(from, before, s.drop_last(), g, t.drop_last(), h);
        lemma_random_turn_once(
            board_after(from, s.drop_last()),
            g,
            s.last(),
            after_s,
            t.last(),
            after_t,
        );
        assert(s =~= s.drop_last().push(s.last()));
        assert(t =~= t.drop_last().push(t.last()));
    }
}

/// The first turns of random play are random play.
proof fn lemma_first_random_turns(
    from: Board,
    before: SmallRng,
    t: Seq<Turn>,
    after: SmallRng,
    n: int,
) -> (middle: SmallRng)
    requires
        random_turns(from, t, before, after),
        0 <= n <= t.len(),
    ensures
        random_turns(from, t.take(n), before, middle),
    decreases t.len(),
{
    if n == t.len() {
        assert(t.take(n) =~= t);
        after
    } else {
        let h = choose|h: SmallRng|
            random_turns(from, t.drop_last(), before, h) && #[trigger] random_turn(
                board_after(from, t.drop_last()),
                t.last(),
                h,
                after,
            );
        assert(t.drop_last().take(n) =~= t.take(n));
        lemma_first_random_turns(from, before, t.drop_last(), h, n)
    }
}

/// A play that ended while another went on cannot be its beginning.
proof fn lemma_rollout_is_no_shorter(
    from: Board,
    cap: nat,
    before: SmallRng,
    s: Seq<Turn>,
    after_s: SmallRng,
    t: Seq<Turn>,
    after_t: SmallRng,
)
    requires
        generators_are_steady(),
        random_turns(from, s, before, after_s),
        random_turns(from, t, before, after_t),
        allowed(from, t),
        t.len() <= cap,
        s.len() < cap ==> board_after(from, s).stuck(),
    ensures
        s.len() >= t.len(),
{
    if s.len() < t.len() {
        let middle = lemma_first_random_turns(from, before, t, after_t, s.len() as int);
        lemma_random_turns_once(from, before, s, after_s, t.take(s.len() as int), middle);
        lemma_turn_is_allowed(from, t, s.len() as int);
        assert(board_after(from, s).legal(t[s.len() as int].dir));
    }
}

/// One random play.
pub proof fn lemma_rollout_once(
    from: Board,
    cap: nat,
    before: SmallRng,
    x: nat,
    after_x: SmallRng,
    y: nat,
    after_y: SmallRng,
)
    requires
        generators_are_steady(),
        is_rollout(from, cap, before, x, after_x),
        is_rollout(from, cap, before, y, after_y),
    ensures
        x == y,
        after_x == after_y,
{
    let s = choose|s: Seq<Turn>|
        {
            &&& allowed(from, s)
            &&& s.len() <= cap
            &&& s.len() < cap ==> board_after(from, s).stuck()
            &&& x == points(from, s)
            &&& #[trigger] random_turns(from, s, before, after_x)
        };
    let t = choose|t: Seq<Turn>|
        {
            &&& allowed(from, t)
            &&& t.len() <= cap
            &&& t.len() < cap ==> board_after(from, t).stuck()
            &&& y == points(from, t)
            &&& #[trigger] random_turns(from, t, before, after_y)
        };
    lemma_rollout_is_no_shorter(from, cap, before, s, after_x, t, after_y);
    lemma_rollout_is_no_shorter(from, cap, before, t, after_y, s, after_x);
    lemma_random_turns_once(from, before, s, after_x, t, after_y);
}

/// Random play from one board and one generator scores no less where it may go on for
/// longer.
pub proof fn law_longer_play_scores_no_less(
    from: Board,
    cap: nat,
    longer: nat,
    before: SmallRng,
    x: nat,
    after_x: SmallRng,
    y: nat,
    after_y: SmallRng,
)
    requires
        generators_are_steady(),
        cap <= longer,
        is_rollout(from, cap, before, x, after_x),
        is_rollout(from, longer, before, y, after_y),
    ensures
        x <= y,
{
    let s = choose|s: Seq<Turn>|
        {
            &&& allowed(from, s)
            &&& s.len() <= cap
            &&& s.len() < cap ==> board_after(from, s).stuck()
            &&& x == points(from, s)
            &&& #[trigger] random_turns(from, s, before, after_x)
        };
    let t = choose|t: Seq<Turn>|
        {
            &&& allowed(from, t)
            &&& t.len() <= longer
            &&& t.len() < longer ==> board_after(from, t).stuck()
            &&& y == points(from, t)
            &&& #[trigger] random_turns(from, t, before, after_y)
        };
    lemma_rollout_is_no_shorter(from, longer, before, t, after_y, s, after_x);
    let n = s.len() as int;
    let middle = lemma_first_random_turns(from, before, t, after_y, n);
    lemma_random_turns_once(from, before, s, after_x, t.take(n), middle);
    law_points_only_grow(from, t, n);
}

/// Two trees are the same: the same boards, moves, samples and children, in the same order.
pub open spec fn same_tree(a: Node, b: Node) -> bool
    decreases a, 1nat,
{
    &&& a.board == b.board
    &&& a.visits == b.visits
    &&& a.edges@.len() == b.edges@.len()
    &&& forall|i: int| 0 <= i < a.edges@.len() ==> same_branch(#[trigger] a.edges@[i], b.edges@[i])
}

/// Two moves are the same, with the same tree below each.
pub open spec fn same_branch(e: Edge, f: Edge) -> bool
    decreases e, 0nat,
{
    &&& e.dir == f.dir
    &&& e.moved == f.moved
    &&& e.immediate_reward == f.immediate_reward
    &&& e.stats == f.stats
    &&& e.children@.len() == f.children@.len()
    &&& forall|j: int|
        0 <= j < e.children@.len() ==> (#[trigger] e.children@[j]).board == f.children@[j].board
            && same_tree(e.children@[j].node, f.children@[j].node)
}

/// One tree of a board before any simulation.
proof fn lemma_fresh_once(a: Node, b: Node, board: Board)
    requires
        is_fresh(a, board),
        is_fresh(b, board),
    ensures
        same_tree(a, b),
{
    assert forall|i: int| 0 <= i < a.edges@.len() implies same_branch(#[trigger] a.edges@[i], b.edges@[i]) by {
        assert(is_fresh_edge(a.edges@[i], board, board.legal_dirs()[i]));
        assert(is_fresh_edge(b.edges@[i], board, board.legal_dirs()[i]));
        lemma_board_ext(a.edges@[i].moved, b.edges@[i].moved);
    }
}

/// A position was reached below one of two moves that are the same.
proof fn lemma_children_once<K: Arithmetic>(
    k: &K,
    cfg: SearchCfg,
    e: Edge,
    f: Edge,
    e2: Edge,
    f2: Edge,
    reached: Board,
    x: u64,
    y: u64,
    start: SmallRng,
    end_x: SmallRng,
    end_y: SmallRng,
)
    requires
        steady(k),
        generators_are_steady(),
        same_branch(e, f),
        children_step(k, cfg, e, e2, reached, x, start, end_x),
        children_step(k, cfg, f, f2, reached, y, start, end_y),
    ensures
        x == y,
        end_x == end_y,
        e2.children@.len() == f2.children@.len(),
        forall|j: int|
            0 <= j < e2.children@.len() ==> (#[trigger] e2.children@[j]).board == f2.children@[j].board
                && same_tree(e2.children@[j].node, f2.children@[j].node),
    decreases e, 0nat,
{
    if exists|c: int| 0 <= c < e.children@.len() && (#[trigger] e.children@[c]).board == reached {
        let known = choose|c: int| 0 <= c < e.children@.len() && (#[trigger] e.children@[c]).board == reached;
        assert(f.children@[known].board == reached);
        let c = choose|c: int| #![trigger e.children@[c]]
            {
                &&& 0 <= c < e.children@.len()
                &&& e.children@[c].board == reached
                &&& forall|j: int| 0 <= j < c ==> (#[trigger] e.children@[j]).board != reached
                &&& e2.children@.len() == e.children@.len()
                &&& e2.children@[c].board == reached
                &&& simulated(k, cfg, e.children@[c].node, e2.children@[c].node, x, start, end_x)
                &&& forall|j: int|
                    0 <= j < e.children@.len() && j != c ==> #[trigger] e2.children@[j] == e.children@[j]
            };
        let d = choose|d: int| #![trigger f.children@[d]]
            {
                &&& 0 <= d < f.children@.len()
                &&& f.children@[d].board == reached
                &&& forall|j: int| 0 <= j < d ==> (#[trigger] f.children@[j]).board != reached
                &&& f2.children@.len() == f.children@.len()
                &&& f2.children@[d].board == reached
                &&& simulated(k, cfg, f.children@[d].node, f2.children@[d].node, y, start, end_y)
                &&& forall|j: int|
                    0 <= j < f.children@.len() && j != d ==> #[trigger] f2.children@[j] == f.children@[j]
            };
        assert(e.children@[c].board == f.children@[c].board);
        assert(e.children@[d].board == f.children@[d].board);
        assert(c == d);
        lemma_simulated_once(
            k,
            cfg,
            e.children@[c].node,
            f.children@[c].node,
            e2.children@[c].node,
            f2.children@[c].node,
            x,
            y,
            start,
            end_x,
            end_y,
        );
        assert forall|j: int| 0 <= j < e2.children@.len() implies (#[trigger] e2.children@[j]).board
            == f2.children@[j].board && same_tree(e2.children@[j].node, f2.children@[j].node) by {
            assert(e.children@[j].board == f.children@[j].board);
            if j != c {
                assert(e2.children@[j] == e.children@[j]);
                assert(f2.children@[j] == f.children@[j]);
            }
        }
    } else {
        assert forall|c: int| 0 <= c < f.children@.len() implies (#[trigger] f.children@[c]).board
            != reached by {
            assert(e.children@[c].board == f.children@[c].board);
        }
        lemma_rollout_once(reached, cfg.rollout_cap as nat, start, x as nat, end_x, y as nat, end_y);
        lemma_fresh_once(e2.children@.last().node, f2.children@.last().node, reached);
        assert forall|j: int| 0 <= j < e2.children@.len() implies (#[trigger] e2.children@[j]).board
            == f2.children@[j].board && same_tree(e2.children@[j].node, f2.children@[j].node) by {
            if j < e.children@.len() {
                assert(e.children@[j].board == f.children@[j].board);
                assert(e2.children@[j] == e.children@[j]);
                assert(f2.children@[j] == f.children@[j]);
            }
        }
    }
}

/// One sample of one of two moves that are the same.
proof fn lemma_edge_once<K: Arithmetic>(
    k: &K,
    cfg: SearchCfg,
    e: Edge,
    f: Edge,
    e2: Edge,
    f2: Edge,
    x: u64,
    y: u64,
    start: SmallRng,
    end_x: SmallRng,
    end_y: SmallRng,
)
    requires
        steady(k),
        generators_are_steady(),
        same_branch(e, f),
        edge_step(k, cfg, e, e2, x, start, end_x),
        edge_step(k, cfg, f, f2, y, start, end_y),
    ensures
        x == y,
        end_x == end_y,
        same_branch(e2, f2),
    decreases e, 1nat,
{
    let (p, g) = choose|p: Board, g: SmallRng|
        #[trigger] spawned(e.moved, start, p, g) && children_step(
            k,
            cfg,
            e,
            e2,
            p,
            (x - e.immediate_reward) as u64,
            g,
            end_x,
        );
    let (q, h) = choose|q: Board, h: SmallRng|
        #[trigger] spawned(f.moved, start, q, h) && children_step(
            k,
            cfg,
            f,
            f2,
            q,
            (y - f.immediate_reward) as u64,
            h,
            end_y,
        );
    lemma_spawned_once(e.moved, start, p, g, q, h);
    lemma_children_once(
        k,
        cfg,
        e,
        f,
        e2,
        f2,
        p,
        (x - e.immediate_reward) as u64,
        (y - f.immediate_reward) as u64,
        g,
        end_x,
        end_y,
    );
    let u = choose|u: Double|
        #[trigger] evaluates(k, cfg.reward_transform.formula(x), u) && with_sample(
            k,
            e.stats,
            u,
            e2.stats,
        );
    let v = choose|v: Double|
        #[trigger] evaluates(k, cfg.reward_transform.formula(y), v) && with_sample(
            k,
            f.stats,
            v,
            f2.stats,
        );
    lemma_evaluates_once(k, cfg.reward_transform.formula(x), u, v);
    lemma_sample_once(k, e.stats, u, e2.stats, f2.stats);
}

/// One simulation of one of two trees that are the same.
proof fn lemma_simulated_once<K: Arithmetic>(
    k: &K,
    cfg: SearchCfg,
    a: Node,
    b: Node,
    a2: Node,
    b2: Node,
    x: u64,
    y: u64,
    start: SmallRng,
    end_x: SmallRng,
    end_y: SmallRng,
)
    requires
        steady(k),
        generators_are_steady(),
        same_tree(a, b),
        simulated(k, cfg, a, a2, x, start, end_x),
        simulated(k, cfg, b, b2, y, start, end_y),
    ensures
        x == y,
        end_x == end_y,
        same_tree(a2, b2),
    decreases a, 2nat,
{
    if a.edges@.len() > 0 {
        let (i, g) = choose|i: int, g: SmallRng|
            {
                &&& 0 <= i < a.edges@.len()
                &&& #[trigger] is_choice(k, cfg.policy, visited(a), start, i, g)
                &&& edge_step(k, cfg, a.edges@[i], a2.edges@[i], x, g, end_x)
                &&& forall|j: int|
                    0 <= j < a.edges@.len() && j != i ==> #[trigger] a2.edges@[j] == a.edges@[j]
            };
        let (m, h) = choose|m: int, h: SmallRng|
            {
                &&& 0 <= m < b.edges@.len()
                &&& #[trigger] is_choice(k, cfg.policy, visited(b), start, m, h)
                &&& edge_step(k, cfg, b.edges@[m], b2.edges@[m], y, h, end_y)
                &&& forall|j: int|
                    0 <= j < b.edges@.len() && j != m ==> #[trigger] b2.edges@[j] == b.edges@[j]
            };
        assert forall|j: int| 0 <= j < a.edges@.len() implies (#[trigger] a.edges@[j]).stats
            == b.edges@[j].stats by {
            assert(same_branch(a.edges@[j], b.edges@[j]));
        }
        assert(alike(visited(a).edges@, visited(b).edges@));
        lemma_choice_once(k, cfg.policy, visited(a), visited(b), start, i, g, m, h);
        assert(same_branch(a.edges@[i], b.edges@[i]));
        lemma_edge_once(
            k,
            cfg,
            a.edges@[i],
            b.edges@[i],
            a2.edges@[i],
            b2.edges@[i],
            x,
            y,
            g,
            end_x,
            end_y,
        );
        assert forall|j: int| 0 <= j < a2.edges@.len() implies same_branch(
            #[trigger] a2.edges@[j],
            b2.edges@[j],
        ) by {
            if j != i {
                assert(a2.edges@[j] == a.edges@[j]);
                assert(b2.edges@[j] == b.edges@[j]);
                assert(same_branch(a.edges@[j], b.edges@[j]));
            }
        }
    }
}

/// A search can be repeated: the same board, configuration, number of simulations and
/// generator lead to the same tree, and leave the generator in the same state.
pub proof fn law_searches_repeat<K: Arithmetic>(
    k: &K,
    cfg: SearchCfg,
    board: Board,
    n: nat,
    a: Node,
    b: Node,
    start: SmallRng,
    end_a: SmallRng,
    end_b: SmallRng,
)
    requires
        steady(k),
        generators_are_steady(),
        searched(k, cfg, board, n, a, start, end_a),
        searched(k, cfg, board, n, b, start, end_b),
    ensures
        same_tree(a, b),
        end_a == end_b,
    decreases n,
{
    if n == 0 {
        lemma_fresh_once(a, b, board);
    } else {
        let (p, x, g) = choose|p: Node, x: u64, g: SmallRng|
            #[trigger] simulated(k, cfg, p, a, x, g, end_a) && searched(
                k,
                cfg,
                board,
                (n - 1) as nat,
                p,
                start,
                g,
            );
        let (q, y, h) = choose|q: Node, y: u64, h: SmallRng|
            #[trigger] simulated(k, cfg, q, b, y, h, end_b) && searched(
                k,
                cfg,
                board,
                (n - 1) as nat,
                q,
                start,
                h,
            );
        law_searches_repeat(k, cfg, board, (n - 1) as nat, p, q, start, g, h);
        lemma_simulated_once(k, cfg, p, q, a, b, x, y, g, end_a, end_b);
    }
}

/// Two trees that are the same have the same best move.
pub proof fn law_same_trees_same_move(a: Node, b: Node, s: Dir, t: Dir)
    requires
        same_tree(a, b),
        is_best_move(a, s),
        is_best_move(b, t),
    ensures
        s == t,
{
    let i = choose|i: int| #[trigger] last_greatest(means(a.edges@), i) && a.edges@[i].dir == s;
    let j = choose|j: int| #[trigger] last_greatest(means(b.edges@), j) && b.edges@[j].dir == t;
    assert forall|n: int| 0 <= n < a.edges@.len() implies means(a.edges@)[n] == means(b.edges@)[n] by {
        assert(same_branch(a.edges@[n], b.edges@[n]));
    }
    assert(means(a.edges@) =~= means(b.edges@));
    let ms = means(a.edges@);
    if i < j {
        assert(ms[j].total_rank() < ms[i].total_rank());
    } else if j < i {
        assert(ms[i].total_rank() < ms[j].total_rank());
    }
    assert(same_branch(a.edges@[i], b.edges@[i]));
}

/// A search step by step and [`crate::search::choose_move`] agree: with as many simulations
/// of the same board and the same generator they come to the same move, unless a key forced
/// another, and leave the generator in the same state.
pub proof fn law_steps_and_choose_move_agree<K: Arithmetic>(
    k: &K,
    cfg: SearchCfg,
    run: SearchRun,
    snapshot: RootSnapshot,
    origin: SmallRng,
    now: SmallRng,
    chosen: Dir,
    end: SmallRng,
)
    requires
        steady(k),
        generators_are_steady(),
        run.on_course(k, cfg, origin, now),
        is_snapshot(k, run.root, snapshot),
        chooses(k, cfg, run.root.board, run.sims_done as nat, origin, Some(chosen), end),
    ensures
        snapshot.best_dir == chosen,
        now == end,
{
    let root = choose|root: Node| #[trigger]
        searched(k, cfg, run.root.board, run.sims_done as nat, root, origin, end) && is_best_move(
            root,
            chosen,
        );
    law_searches_repeat(
        k,
        cfg,
        run.root.board,
        run.sims_done as nat,
        run.root,
        root,
        origin,
        now,
        end,
    );
    law_same_trees_same_move(run.root, root, snapshot.best_dir, chosen);
}

/// `last` is the search after `n` steps from `first` that each asked to be called again.
pub open spec fn goes_on<K: Arithmetic>(
    k: &K,
    cfg: SearchCfg,
    n: nat,
    first: SearchRun,
    last: SearchRun,
    start: SmallRng,
    end: SmallRng,
) -> bool
    decreases n,
{
    if n == 0 {
        last == first && end == start
    } else {
        exists|before: SearchRun, middle: SmallRng, wall: Span|
            goes_on(k, cfg, (n - 1) as nat, first, before, start, middle)
                && #[trigger] before.stepped(k, cfg, wall, Action::Again, last, middle, end)
    }
}

/// A search that has a limit on its simulations and no other, before its first step.
pub open spec fn starts_limited(run: SearchRun, board: Board, limit: nat) -> bool {
    &&& is_fresh(run.root, board)
    &&& run.root.edges@.len() > 0
    &&& run.sims_done == 0
    &&& run.phase == Phase::Keys
    &&& run.selected is None
    &&& run.active.time_limit is None
    &&& run.active.min_voc is None
    &&& run.active.simulation_limit matches Some(l) && l.size() == limit
}

proof fn lemma_limited_search_is_on_course<K: Arithmetic>(
    k: &K,
    cfg: SearchCfg,
    n: nat,
    board: Board,
    limit: nat,
    first: SearchRun,
    last: SearchRun,
    start: SmallRng,
    end: SmallRng,
)
    requires
        starts_limited(first, board, limit),
        limit <= u32::MAX,
        goes_on(k, cfg, n, first, last, start, end),
    ensures
        last.on_course(k, cfg, start, end),
        last.root.board == board,
        last.root.edges@.len() > 0,
        last.active == first.active,
        last.sims_done <= limit,
        last.selected is None,
        last.phase != Phase::Ended,
    decreases n,
{
    if n > 0 {
        let (before, middle, wall) = choose|before: SearchRun, middle: SmallRng, wall: Span|
            goes_on(k, cfg, (n - 1) as nat, first, before, start, middle)
                && #[trigger] before.stepped(k, cfg, wall, Action::Again, last, middle, end);
        lemma_limited_search_is_on_course(
            k,
            cfg,
            (n - 1) as nat,
            board,
            limit,
            first,
            before,
            start,
            middle,
        );
        if before.phase == Phase::Limits {
            let total = choose|total: u64| #[trigger]
                simulated(k, cfg, before.root, last.root, total, middle, end);
            assert(!before.exhausted(wall));
            lemma_searched_one_more(
                k,
                cfg,
                board,
                before.sims_done as nat,
                before.root,
                last.root,
                total,
                start,
                middle,
                end,
            );
        }
    }
}

/// A search with a limit on its simulations and no other does, step by step, what
/// [`crate::search::choose_move`] does with that many from the same generator: the same
/// simulations, the same move, and the same generator at the end.
pub proof fn law_limited_search_is_choose_move<K: Arithmetic>(
    k: &K,
    cfg: SearchCfg,
    n: nat,
    board: Board,
    limit: nat,
    first: SearchRun,
    before: SearchRun,
    wall: Span,
    last: SearchRun,
    snapshot: RootSnapshot,
    start: SmallRng,
    middle: SmallRng,
    end: SmallRng,
    chosen: Dir,
    other_end: SmallRng,
)
    requires
        steady(k),
        generators_are_steady(),
        starts_limited(first, board, limit),
        limit <= u32::MAX,
        goes_on(k, cfg, n, first, before, start, middle),
        before.stepped(k, cfg, wall, Action::Finish, last, middle, end),
        is_snapshot(k, last.root, snapshot),
        chooses(k, cfg, board, limit, start, Some(chosen), other_end),
    ensures
        last.sims_done == limit,
        last.selected is None,
        snapshot.best_dir == chosen,
        end == other_end,
{
    lemma_limited_search_is_on_course(k, cfg, n, board, limit, first, before, start, middle);
    law_steps_and_choose_move_agree(
        k,
        cfg,
        last,
        snapshot,
        start,
        end,
        chosen,
        other_end,
    );
}

/// Two games took the same directions.
pub open spec fn same_directions(s: Seq<Turn>, t: Seq<Turn>) -> bool {
    &&& s.len() == t.len()
    &&& forall|i: int| 0 <= i < s.len() ==> (#[trigger] s[i]).dir == t[i].dir
}

proof fn lemma_tiles_once(
    before: SmallRng,
    from: Board,
    s: Seq<Turn>,
    after_s: SmallRng,
    t: Seq<Turn>,
    after_t: SmallRng,
)
    requires
        generators_are_steady(),
        same_directions(s, t),
        tiles_from(before, from, s, after_s),
        tiles_from(before, from, t, after_t),
    ensures
        s == t,
        after_s == after_t,
    decreases s.len(),
{
    if s.len() == 0 {
        assert(s =~= t);
    } else {
        let g = choose|g: SmallRng|
            tiles_from(before, from, s.drop_last(), g) && #[trigger] spawned(
                board_of(board_after(from, s.drop_last()).slide(s.last().dir)),
                g,
                s.last().after,
                after_s,
            );
        let h = choose|h: SmallRng|
            tiles_from(before, from, t.drop_last(), h) && #[trigger] spawned(
                board_of(board_after(from, t.drop_last()).slide(t.last().dir)),
                h,
                t.last().after,
                after_t,
            );
        assert forall|i: int| 0 <= i < s.drop_last().len() implies (#[trigger] s.drop_last()[i]).dir
            == t.drop_last()[i].dir by {
            assert(s[i].dir == t[i].dir);
        }
        lemma_tiles_once(before, from, s.drop_last(), g, t.drop_last(), h);
        assert(s[s.len() - 1].dir == t[s.len() - 1].dir);
        lemma_spawned_once(
            board_of(board_after(from, s.drop_last()).slide(s.last().dir)),
            g,
            s.last().after,
            after_s,
            t.last().after,
            after_t,
        );
        assert(s =~= s.drop_last().push(s.last()));
        assert(t =~= t.drop_last().push(t.last()));
    }
}

proof fn lemma_first_tiles(before: SmallRng, from: Board, t: Seq<Turn>, after: SmallRng, n: int) -> (middle:
    SmallRng)
    requires
        tiles_from(before, from, t, after),
        0 <= n <= t.len(),
    ensures
        tiles_from(before, from, t.take(n), middle),
    decreases t.len(),
{
    if n == t.len() {
        assert(t.take(n) =~= t);
        after
    } else {
        let h = choose|h: SmallRng|
            tiles_from(before, from, t.drop_last(), h) && #[trigger] spawned(
                board_of(board_after(from, t.drop_last()).slide(t.last().dir)),
                h,
                t.last().after,
                after,
            );
        assert(t.drop_last().take(n) =~= t.take(n));
        lemma_first_tiles(before, from, t.drop_last(), h, n)
    }
}

/// The tiles of a game follow from its seed and its moves, whatever chose the moves.
pub proof fn law_tiles_follow_from_seed_and_moves(
    seed: u64,
    p: Board,
    s: Seq<Turn>,
    after_s: SmallRng,
    q: Board,
    t: Seq<Turn>,
    after_t: SmallRng,
)
    requires
        generators_are_steady(),
        same_directions(s, t),
        tiles_are_seeded(seed, p, s, after_s),
        tiles_are_seeded(seed, q, t, after_t),
    ensures
        p == q,
        s == t,
        after_s == after_t,
{
    let (a, c) = choose|a: SmallRng, c: SmallRng|
        is_seeded(seed, a) && #[trigger] started(a, p, c) && tiles_from(c, p, s, after_s);
    let (b, d) = choose|b: SmallRng, d: SmallRng|
        is_seeded(seed, b) && #[trigger] started(b, q, d) && tiles_from(d, q, t, after_t);
    assert(a == b);
    lemma_started_once(a, p, c, q, d);
    lemma_tiles_once(c, p, s, after_s, t, after_t);
}

/// One move of a game.
proof fn lemma_pick_once<K: Arithmetic>(
    k: &K,
    cfg: SearchCfg,
    simulations: nat,
    seed: u64,
    board: Board,
    a: Dir,
    b: Dir,
)
    requires
        steady(k),
        generators_are_steady(),
        search_picks(k, cfg, simulations, seed, board, a),
        search_picks(k, cfg, simulations, seed, board, b),
    ensures
        a == b,
{
    let (p, g, x) = choose|p: Node, g: SmallRng, x: SmallRng|
        {
            &&& is_seeded(seed, g)
            &&& #[trigger] searched(k, cfg, board, simulations, p, g, x)
            &&& is_best_move(p, a)
        };
    let (q, h, y) = choose|q: Node, h: SmallRng, y: SmallRng|
        {
            &&& is_seeded(seed, h)
            &&& #[trigger] searched(k, cfg, board, simulations, q, h, y)
            &&& is_best_move(q, b)
        };
    assert(g == h);
    law_searches_repeat(k, cfg, board, simulations, p, q, g, x, y);
    law_same_trees_same_move(p, q, a, b);
}

/// Two games from one seed take the same first turns.
proof fn lemma_same_first_turns<K: Arithmetic>(
    k: &K,
    cfg: SearchCfg,
    simulations: nat,
    seed: u64,
    before: SmallRng,
    from: Board,
    s: Seq<Turn>,
    after_s: SmallRng,
    t: Seq<Turn>,
    after_t: SmallRng,
    n: int,
)
    requires
        steady(k),
        generators_are_steady(),
        tiles_from(before, from, s, after_s),
        tiles_from(before, from, t, after_t),
        turns_are_searched(k, cfg, simulations, seed, from, s),
        turns_are_searched(k, cfg, simulations, seed, from, t),
        0 <= n <= s.len(),
        n <= t.len(),
    ensures
        s.take(n) == t.take(n),
    decreases n,
{
    if n > 0 {
        lemma_same_first_turns(
            k,
            cfg,
            simulations,
            seed,
            before,
            from,
            s,
            after_s,
            t,
            after_t,
            n - 1,
        );
        assert(s[n - 1].dir == t[n - 1].dir) by {
            reveal(turns_are_searched);
            let there = board_after(from, s.take(n - 1));
            assert(search_picks(
                k,
                cfg,
                simulations,
                search_seed(seed, (n - 1) as usize),
                there,
                s[n - 1].dir,
            ));
            assert(search_picks(
                k,
                cfg,
                simulations,
                search_seed(seed, (n - 1) as usize),
                there,
                t[n - 1].dir,
            ));
            lemma_pick_once(
                k,
                cfg,
                simulations,
                search_seed(seed, (n - 1) as usize),
                there,
                s[n - 1].dir,
                t[n - 1].dir,
            );
        }
        let g = lemma_first_tiles(before, from, s, after_s, n);
        let h = lemma_first_tiles(before, from, t, after_t, n);
        assert(same_directions(s.take(n), t.take(n))) by {
            assert forall|i: int| 0 <= i < n implies (#[trigger] s.take(n)[i]).dir == t.take(n)[i].dir by {
                if i < n - 1 {
                    assert(s.take(n - 1)[i] == s[i]);
                    assert(t.take(n - 1)[i] == t[i]);
                }
            }
        }
        lemma_tiles_once(before, from, s.take(n), g, t.take(n), h);
    } else {
        assert(s.take(n) =~= t.take(n));
    }
}

/// A game can be repeated: the same seed, configuration and number of simulations lead to
/// the same starting board and the same turns.
pub proof fn law_games_repeat<K: Arithmetic>(
    k: &K,
    cfg: SearchCfg,
    simulations: nat,
    seed: u64,
    p: Board,
    s: Seq<Turn>,
    after_s: SmallRng,
    q: Board,
    t: Seq<Turn>,
    after_t: SmallRng,
)
    requires
        steady(k),
        generators_are_steady(),
        is_complete(p, s),
        is_complete(q, t),
        tiles_are_seeded(seed, p, s, after_s),
        tiles_are_seeded(seed, q, t, after_t),
        turns_are_searched(k, cfg, simulations, seed, p, s),
        turns_are_searched(k, cfg, simulations, seed, q, t),
    ensures
        p == q,
        s == t,
        after_s == after_t,
{
    let (a, c) = choose|a: SmallRng, c: SmallRng|
        is_seeded(seed, a) && #[trigger] started(a, p, c) && tiles_from(c, p, s, after_s);
    let (b, d) = choose|b: SmallRng, d: SmallRng|
        is_seeded(seed, b) && #[trigger] started(b, q, d) && tiles_from(d, q, t, after_t);
    assert(a == b);
    lemma_started_once(a, p, c, q, d);
    if s.len() < t.len() {
        let n = s.len() as int;
        lemma_same_first_turns(k, cfg, simulations, seed, c, p, s, after_s, t, after_t, n);
        assert(s.take(n) =~= s);
        lemma_turn_is_allowed(q, t, n);
        assert(board_after(p, s).legal(t[n].dir));
    } else if t.len() < s.len() {
        let n = t.len() as int;
        lemma_same_first_turns(k, cfg, simulations, seed, c, p, s, after_s, t, after_t, n);
        assert(t.take(n) =~= t);
        lemma_turn_is_allowed(p, s, n);
        assert(board_after(p, t).legal(s[n].dir));
    }
    let n = s.len() as int;
    lemma_same_first_turns(k, cfg, simulations, seed, c, p, s, after_s, t, after_t, n);
    assert(s.take(n) =~= s);
    assert(t.take(n) =~= t);
    lemma_tiles_once(c, p, s, after_s, t, after_t);
}

/// Two plays of a game agree in all but the time they took: the score, the largest tile, the
/// number of moves and what they were played with. The score is a multiple of four.
pub proof fn law_results_repeat<K: Arithmetic>(
    k: &K,
    cfg: SearchCfg,
    simulations: usize,
    seed: u64,
    a: GameResult,
    b: GameResult,
)
    requires
        steady(k),
        generators_are_steady(),
        a.is_game(k, cfg, simulations, seed),
        b.is_game(k, cfg, simulations, seed),
    ensures
        a.seed == b.seed,
        a.policy@ == b.policy@,
        a.simulations == b.simulations,
        a.mc_samples == b.mc_samples,
        a.final_score == b.final_score,
        a.max_tile == b.max_tile,
        a.moves == b.moves,
        a.moves >= 1,
        a.final_score % 4 == 0,
{
    let (p, s, g) = choose|p: Board, s: Seq<Turn>, g: SmallRng|
        {
            &&& #[trigger] tiles_are_seeded(seed, p, s, g)
            &&& is_complete(p, s)
            &&& turns_are_searched(k, cfg, simulations as nat, seed, p, s)
            &&& a.is_of(p, s)
        };
    let (q, t, h) = choose|q: Board, t: Seq<Turn>, h: SmallRng|
        {
            &&& #[trigger] tiles_are_seeded(seed, q, t, h)
            &&& is_complete(q, t)
            &&& turns_are_searched(k, cfg, simulations as nat, seed, q, t)
            &&& b.is_of(q, t)
        };
    law_games_repeat(k, cfg, simulations as nat, seed, p, s, g, q, t, h);
    law_results_of_whole_games(a, p, s);
}

/// A search step by step, with a limit on its simulations and no other, ends with the move
/// `dir`: that of the last state of its root, or the one that a key forced.
pub open spec fn limited_search<K: Arithmetic>(
    k: &K,
    cfg: SearchCfg,
    limit: nat,
    board: Board,
    start: SmallRng,
    dir: Dir,
    end: SmallRng,
) -> bool {
    exists|
        n: nat,
        first: SearchRun,
        before: SearchRun,
        middle: SmallRng,
        wall: Span,
        last: SearchRun,
        snapshot: RootSnapshot,
    |
        {
            &&& starts_limited(first, board, limit)
            &&& #[trigger] goes_on(k, cfg, n, first, before, start, middle)
            &&& #[trigger] before.stepped(k, cfg, wall, Action::Finish, last, middle, end)
            &&& #[trigger] is_snapshot(k, last.root, snapshot)
            &&& dir == (match last.selected {
                Some(forced) => forced,
                None => snapshot.best_dir,
            })
        }
}

proof fn lemma_limited_search_is_search<K: Arithmetic>(
    k: &K,
    cfg: SearchCfg,
    limit: nat,
    board: Board,
    start: SmallRng,
    dir: Dir,
    end: SmallRng,
)
    requires
        limit <= u32::MAX,
        limited_search(k, cfg, limit, board, start, dir, end),
    ensures
        exists|root: Node| #[trigger]
            searched(k, cfg, board, limit, root, start, end) && is_best_move(root, dir),
{
    let (n, first, before, middle, wall, last, snapshot) = choose|
        n: nat,
        first: SearchRun,
        before: SearchRun,
        middle: SmallRng,
        wall: Span,
        last: SearchRun,
        snapshot: RootSnapshot,
    |
        {
            &&& starts_limited(first, board, limit)
            &&& #[trigger] goes_on(k, cfg, n, first, before, start, middle)
            &&& #[trigger] before.stepped(k, cfg, wall, Action::Finish, last, middle, end)
            &&& #[trigger] is_snapshot(k, last.root, snapshot)
            &&& dir == (match last.selected {
                Some(forced) => forced,
                None => snapshot.best_dir,
            })
        };
    lemma_limited_search_is_on_course(k, cfg, n, board, limit, first, before, start, middle);
    assert(searched(k, cfg, board, limit, last.root, start, end));
}

/// A search of a move of a game: limited, step by step, with a generator that starts from
/// `seed`.
pub open spec fn limited_pick<K: Arithmetic>(
    k: &K,
    cfg: SearchCfg,
    limit: nat,
    seed: u64,
    board: Board,
    dir: Dir,
) -> bool {
    exists|start: SmallRng, end: SmallRng|
        is_seeded(seed, start) && #[trigger] limited_search(k, cfg, limit, board, start, dir, end)
}

/// Every turn is the move of a limited search, step by step, whose generator starts from the
/// seed of the search.
#[verifier::opaque]
pub open spec fn turns_are_limited<K: Arithmetic>(
    k: &K,
    cfg: SearchCfg,
    limit: nat,
    seed: u64,
    start: Board,
    turns: Seq<Turn>,
) -> bool {
    forall|i: int|
        0 <= i < turns.len() ==> limited_pick(
            k,
            cfg,
            limit,
            search_seed(seed, i as usize),
            board_after(start, turns.take(i)),
            (#[trigger] turns[i]).dir,
        )
}

/// A traced game that is recorded from limited searches stays one: it is one before its
/// first move, and after every move of such a search that it records.
pub proof fn law_limited_traces_go_on<K: Arithmetic>(
    k: &K,
    cfg: SearchCfg,
    limit: nat,
    before: TraceRun,
    dir: Dir,
    after: TraceRun,
)
    requires
        before.wf(),
        before.steps@.len() > 0 ==> turns_are_limited(
            k,
            cfg,
            limit,
            before.seed,
            before.start@,
            before.turns@,
        ),
        limited_pick(
            k,
            cfg,
            limit,
            search_seed(before.seed, before.steps@.len() as usize),
            before.board,
            dir,
        ),
        after.seed == before.seed,
        after.start == before.start,
        after.turns@ == before.turns@.push(Turn { dir, after: after.board }),
    ensures
        turns_are_limited(k, cfg, limit, after.seed, after.start@, after.turns@),
{
    reveal(turns_are_limited);
    let turns = before.turns@;
    let more = after.turns@;
    assert forall|i: int| 0 <= i < more.len() implies limited_pick(
        k,
        cfg,
        limit,
        search_seed(after.seed, i as usize),
        board_after(after.start@, more.take(i)),
        (#[trigger] more[i]).dir,
    ) by {
        if i < turns.len() {
            assert(more.take(i) =~= turns.take(i));
            assert(turns[i] == more[i]);
        } else {
            assert(more.take(i) =~= turns);
        }
    }
}

/// The moves of limited searches, step by step, are those of searches in one go.
pub proof fn law_limited_turns_are_searched<K: Arithmetic>(
    k: &K,
    cfg: SearchCfg,
    limit: nat,
    seed: u64,
    start: Board,
    turns: Seq<Turn>,
)
    requires
        limit <= u32::MAX,
        turns_are_limited(k, cfg, limit, seed, start, turns),
    ensures
        turns_are_searched(k, cfg, limit, seed, start, turns),
{
    assert forall|i: int| 0 <= i < turns.len() implies search_picks(
        k,
        cfg,
        limit,
        search_seed(seed, i as usize),
        board_after(start, turns.take(i)),
        (#[trigger] turns[i]).dir,
    ) by {
        lemma_limited_turn_is_searched(k, cfg, limit, seed, start, turns, i);
    }
    reveal(turns_are_searched);
}

proof fn lemma_limited_turn_is_searched<K: Arithmetic>(
    k: &K,
    cfg: SearchCfg,
    limit: nat,
    seed: u64,
    start: Board,
    turns: Seq<Turn>,
    i: int,
)
    requires
        limit <= u32::MAX,
        turns_are_limited(k, cfg, limit, seed, start, turns),
        0 <= i < turns.len(),
    ensures
        search_picks(
            k,
            cfg,
            limit,
            search_seed(seed, i as usize),
            board_after(start, turns.take(i)),
            turns[i].dir,
        ),
{
    let board = board_after(start, turns.take(i));
    let dir = turns[i].dir;
    assert(limited_pick(k, cfg, limit, search_seed(seed, i as usize), board, dir)) by {
        reveal(turns_are_limited);
    }
    let (g, h) = choose|g: SmallRng, h: SmallRng|
        is_seeded(search_seed(seed, i as usize), g) && #[trigger] limited_search(
            k,
            cfg,
            limit,
            board,
            g,
            dir,
            h,
        );
    lemma_limited_search_is_search(k, cfg, limit, board, g, dir, h);
    let root = choose|root: Node| #[trigger]
        searched(k, cfg, board, limit, root, g, h) && is_best_move(root, dir);
    assert(searched(k, cfg, board, limit, root, g, h));
}

/// A traced game and the plain game with the same seed, configuration and number of
/// simulations agree: in the score, the largest tile, the number of moves, the policy and
/// the number of simulations. The traced game is recorded from searches step by step that
/// have this limit and no other, and came to its end.
pub proof fn law_traced_and_plain_games_agree<K: Arithmetic>(
    k: &K,
    cfg: SearchCfg,
    simulations: usize,
    run: TraceRun,
    trace: GameTrace,
    constraints: SearchConstraints,
    r: GameResult,
)
    requires
        steady(k),
        generators_are_steady(),
        simulations <= u32::MAX,
        run.wf(),
        run.board.stuck(),
        turns_are_limited(k, cfg, simulations as nat, run.seed, run.start@, run.turns@),
        constraints.simulation_limit matches Some(l) && l.size() == simulations,
        trace.is_of(run, cfg.policy, constraints),
        r.is_game(k, cfg, simulations, run.seed),
    ensures
        trace.final_score == r.final_score,
        trace.max_tile == r.max_tile,
        trace.moves@.len() == r.moves,
        trace.policy@ == r.policy@,
        trace.seed == r.seed,
        trace.simulations == Some(r.simulations),
{
    let (start, turns, after) = choose|start: Board, turns: Seq<Turn>, after: SmallRng|
        {
            &&& #[trigger] tiles_are_seeded(run.seed, start, turns, after)
            &&& is_complete(start, turns)
            &&& turns_are_searched(k, cfg, simulations as nat, run.seed, start, turns)
            &&& r.is_of(start, turns)
        };
    law_limited_turns_are_searched(
        k,
        cfg,
        simulations as nat,
        run.seed,
        run.start@,
        run.turns@,
    );
    law_games_repeat(
        k,
        cfg,
        simulations as nat,
        run.seed,
        run.start@,
        run.turns@,
        run.env_rng,
        start,
        turns,
        after,
    );
}

/// The first turns of a game whose tiles come from one generator.
proof fn lemma_first_seeded_tiles(seed: u64, from: Board, t: Seq<Turn>, after: SmallRng, n: int) -> (middle:
    SmallRng)
    requires
        tiles_are_seeded(seed, from, t, after),
        0 <= n <= t.len(),
    ensures
        tiles_are_seeded(seed, from, t.take(n), middle),
{
    let (a, c) = choose|a: SmallRng, c: SmallRng|
        is_seeded(seed, a) && #[trigger] started(a, from, c) && tiles_from(c, from, t, after);
    let middle = lemma_first_tiles(c, from, t, after, n);
    assert(started(a, from, c));
    middle
}

/// Two steps that record the same turn of the same game.
proof fn lemma_same_step(from: Board, t: Seq<Turn>, i: int, a: TraceStep, b: TraceStep)
    requires
        0 <= i < t.len(),
        a.is_turn(from, t, i),
        b.is_turn(from, t, i),
    ensures
        a.board_before@ == b.board_before@,
        a.chosen == b.chosen,
        a.reward == b.reward,
        a.score_before == b.score_before,
        a.score_after == b.score_after,
        a.spawn_index == b.spawn_index,
        a.spawn_tile == b.spawn_tile,
        a.board_after@ == b.board_after@,
{
    assert(a.board_before@ =~= b.board_before@);
    assert(a.board_after@ =~= b.board_after@);
    let moved = board_after(from, t.take(i)).slide(t[i].dir);
    let p = a.spawn_index as int;
    let q = b.spawn_index as int;
    if p != q {
        assert(moved.update(q, t[i].after@[q])[p] == 0);
        assert(tile_value(t[i].after@[p]) == 0);
    }
}

/// The tiles of traced games depend on the seed and the moves alone. Two traces from one
/// seed that chose the same first moves, by whatever policies and constraints, went through
/// the same boards, rewards and tiles up to there, and searched the same board next.
pub proof fn law_traces_share_their_tiles(a: TraceRun, b: TraceRun, n: int, j: int)
    requires
        generators_are_steady(),
        a.wf(),
        b.wf(),
        a.seed == b.seed,
        0 <= n <= a.steps@.len(),
        n <= b.steps@.len(),
        forall|i: int| 0 <= i < n ==> (#[trigger] a.steps@[i]).chosen == b.steps@[i].chosen,
    ensures
        a.start@ == b.start@,
        a.turns@.take(n) == b.turns@.take(n),
        0 <= j < n ==> {
            &&& a.steps@[j].board_before@ == b.steps@[j].board_before@
            &&& a.steps@[j].reward == b.steps@[j].reward
            &&& a.steps@[j].score_after == b.steps@[j].score_after
            &&& a.steps@[j].spawn_index == b.steps@[j].spawn_index
            &&& a.steps@[j].spawn_tile == b.steps@[j].spawn_tile
            &&& a.steps@[j].board_after@ == b.steps@[j].board_after@
        },
        n < a.steps@.len() && n < b.steps@.len() ==> a.steps@[n].board_before@
            == b.steps@[n].board_before@,
{
    let s = a.turns@;
    let t = b.turns@;
    let g = lemma_first_seeded_tiles(a.seed, a.start@, s, a.env_rng, n);
    let h = lemma_first_seeded_tiles(b.seed, b.start@, t, b.env_rng, n);
    assert(same_directions(s.take(n), t.take(n))) by {
        assert forall|i: int| 0 <= i < n implies (#[trigger] s.take(n)[i]).dir == t.take(n)[i].dir by {
            assert(a.steps@[i].is_turn(a.start@, s, i));
            assert(b.steps@[i].is_turn(b.start@, t, i));
            assert(a.steps@[i].chosen == b.steps@[i].chosen);
        }
    }
    law_tiles_follow_from_seed_and_moves(
        a.seed,
        a.start@,
        s.take(n),
        g,
        b.start@,
        t.take(n),
        h,
    );
    if 0 <= j < n {
        lemma_step_of_first_turns(a.start@, s, n, j, a.steps@[j]);
        lemma_step_of_first_turns(b.start@, t, n, j, b.steps@[j]);
        lemma_same_step(a.start@, s.take(n), j, a.steps@[j], b.steps@[j]);
    }
    if n < a.steps@.len() && n < b.steps@.len() {
        assert(a.steps@[n].is_turn(a.start@, s, n));
        assert(b.steps@[n].is_turn(b.start@, t, n));
        assert(a.steps@[n].board_before@ =~= b.steps@[n].board_before@);
    }
}

/// A step of a game is a step of its first turns.
proof fn lemma_step_of_first_turns(from: Board, t: Seq<Turn>, n: int, i: int, step: TraceStep)
    requires
        0 <= i < n <= t.len(),
        step.is_turn(from, t, i),
    ensures
        step.is_turn(from, t.take(n), i),
{
    assert(t.take(n).take(i) =~= t.take(i));
    assert(t.take(n).take(i + 1) =~= t.take(i + 1));
}

} // verus!
