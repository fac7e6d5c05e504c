//! Searches that observe their returns in other units: where nothing rounds and no margin
//! bites they grow the same tree and choose the same move.

use crate::arith::{count, evaluates, num, Arithmetic};
use crate::board::{law_drawn_tiles_can_appear, lemma_board_ext, spawned, Board, Dir};
use crate::double::{last_greatest, Double};
use crate::estimate::{with_sample, RewardTransform};
use crate::exact::{in_units, Exact};
use crate::growth::{board_of, lemma_board_of};
use crate::policy::Policy;
use crate::repeat::{lemma_rollout_once, lemma_spawned_once};
use crate::rescale::{
    all_in_units, clear_choice, edges_in_units, exact_choice, law_choice_has_no_units,
};
use crate::search::{
    children_step, chooses, edge_step, even, is_best_move, law_first_samples_are_forced,
    law_no_simulation_chooses_the_last_move, law_search_spends_its_budget, lemma_one_below, searched,
    simulated, visited, SearchCfg,
};
use crate::select::{is_choice, is_least_sampled, needed};
use crate::steady::{generators_are_steady, steady};
use crate::tree::{
    is_fresh, is_fresh_edge, lemma_samples_between, means, sampled_at_least, Edge, Node,
};
use crate::turns::{
    allowed, attainable, board_after, is_rollout, lemma_attainable_before,
    lemma_stuck_iff_none_listed, points, random_turns, Turn,
};
use crate::units::{
    exact_at, exact_observation, lemma_extremes_move, lemma_reward_in_units, lemma_sample_in_units,
    plain, stats_in_units, transforms_in_units,
};
use rand::rngs::SmallRng;
use vstd::prelude::*;

verus! {

/// Two trees are the same but for the units of what was sampled.
pub open spec fn tree_in_units(m: Exact, a: real, b: real, p: Node, q: Node) -> bool
    decreases p, 1nat,
{
    &&& p.board == q.board
    &&& p.visits == q.visits
    &&& p.edges@.len() == q.edges@.len()
    &&& forall|i: int|
        0 <= i < p.edges@.len() ==> branch_in_units(m, a, b, #[trigger] p.edges@[i], q.edges@[i])
}

/// Two moves are the same but for the units of what was sampled.
pub open spec fn branch_in_units(m: Exact, a: real, b: real, e: Edge, f: Edge) -> bool
    decreases e, 0nat,
{
    &&& e.dir == f.dir
    &&& e.moved == f.moved
    &&& e.immediate_reward == f.immediate_reward
    &&& stats_in_units(m, a, b, e.stats, f.stats)
    &&& e.children@.len() == f.children@.len()
    &&& forall|j: int|
        0 <= j < e.children@.len() ==> (#[trigger] e.children@[j]).board == f.children@[j].board
            && tree_in_units(m, a, b, e.children@[j].node, f.children@[j].node)
}

/// Two configurations differ in the units of the returns alone.
pub open spec fn cfgs_in_units(m: Exact, a: real, b: real, c: SearchCfg, d: SearchCfg) -> bool {
    &&& c.policy == d.policy
    &&& c.rollout_cap == d.rollout_cap
    &&& transforms_in_units(m, a, b, c.reward_transform, d.reward_transform)
}

/// What the laws on other units ask of the operations, the generator and the reading of the
/// numbers: they are steady, the reading is sound and keeps the order of the numbers, the
/// scale is positive, and an estimate is made of one draw at least.
pub open spec fn comparable<K: Arithmetic>(k: &K, m: Exact, a: real, policy: Policy) -> bool {
    &&& steady(k)
    &&& generators_are_steady()
    &&& m.sound()
    &&& m.ordered()
    &&& a > 0 as real
    &&& policy matches Policy::McVoc(draws) ==> draws > 0
}

/// Nothing rounds and no margin bites below a move whose sample reached a position, where that
/// was simulated again. A new position is played out at random, which computes nothing.
pub open spec fn exact_children<K: Arithmetic>(
    k: &K,
    m: Exact,
    cfg: SearchCfg,
    before: Edge,
    after: Edge,
    reached: Board,
    downstream: u64,
    start: SmallRng,
    end: SmallRng,
) -> bool
    decreases before, 0nat,
{
    forall|c: int| #![trigger before.children@[c]]
        0 <= c < before.children@.len() && before.children@[c].board == reached && simulated(
            k,
            cfg,
            before.children@[c].node,
            after.children@[c].node,
            downstream,
            start,
            end,
        ) ==> exact_simulation(
            k,
            m,
            cfg,
            before.children@[c].node,
            after.children@[c].node,
            downstream,
            start,
            end,
        )
}

/// Nothing rounds and no margin bites in one sample of a move: in what is observed of the
/// score, where the statistics take it in, and in the simulation below the move.
pub open spec fn exact_edge<K: Arithmetic>(
    k: &K,
    m: Exact,
    cfg: SearchCfg,
    before: Edge,
    after: Edge,
    total: u64,
    start: SmallRng,
    end: SmallRng,
) -> bool
    decreases before, 1nat,
{
    &&& exact_at(k, m, cfg.reward_transform.formula(total))
    &&& forall|x: Double| #[trigger]
        evaluates(k, cfg.reward_transform.formula(total), x) ==> exact_observation(
            k,
            m,
            before.stats,
            x,
            after.stats,
        )
    &&& forall|reached: Board, middle: SmallRng| #[trigger]
        spawned(before.moved, start, reached, middle) ==> exact_children(
            k,
            m,
            cfg,
            before,
            after,
            reached,
            (total - before.immediate_reward) as u64,
            middle,
            end,
        )
}

/// Nothing rounds and no margin bites in one simulation: where the policy chooses a move, and
/// in the sample of that move.
pub open spec fn exact_simulation<K: Arithmetic>(
    k: &K,
    m: Exact,
    cfg: SearchCfg,
    before: Node,
    after: Node,
    total: u64,
    start: SmallRng,
    end: SmallRng,
) -> bool
    decreases before, 2nat,
{
    before.edges@.len() > 0 ==> {
        &&& exact_choice(k, m, cfg.policy, visited(before), start)
        &&& clear_choice(k, cfg.policy, visited(before), start)
        &&& forall|i: int, middle: SmallRng|
            0 <= i < before.edges@.len() && #[trigger] is_choice(
                k,
                cfg.policy,
                visited(before),
                start,
                i,
                middle,
            ) && edge_step(k, cfg, before.edges@[i], after.edges@[i], total, middle, end)
                ==> exact_edge(
                k,
                m,
                cfg,
                before.edges@[i],
                after.edges@[i],
                total,
                middle,
                end,
            )
    }
}

/// Nothing rounds and no margin bites in any of the first `n` simulations of a search of a
/// board with the generator `start`.
pub open spec fn nothing_rounds<K: Arithmetic>(
    k: &K,
    m: Exact,
    cfg: SearchCfg,
    board: Board,
    n: nat,
    start: SmallRng,
) -> bool {
    forall|j: nat, root: Node, middle: SmallRng, after: Node, total: u64, end: SmallRng|
        j < n && #[trigger] searched(k, cfg, board, j, root, start, middle) && #[trigger] simulated(
            k,
            cfg,
            root,
            after,
            total,
            middle,
            end,
        ) ==> exact_simulation(k, m, cfg, root, after, total, middle, end)
}

proof fn lemma_fresh_in_units(m: Exact, a: real, b: real, p: Node, q: Node, board: Board)
    requires
        is_fresh(p, board),
        is_fresh(q, board),
    ensures
        tree_in_units(m, a, b, p, q),
{
    assert forall|i: int| 0 <= i < p.edges@.len() implies branch_in_units(
        m,
        a,
        b,
        #[trigger] p.edges@[i],
        q.edges@[i],
    ) by {
        assert(is_fresh_edge(p.edges@[i], board, board.legal_dirs()[i]));
        assert(is_fresh_edge(q.edges@[i], board, board.legal_dirs()[i]));
        lemma_board_ext(p.edges@[i].moved, q.edges@[i].moved);
    }
}

proof fn lemma_children_in_units<K: Arithmetic>(
    k: &K,
    m: Exact,
    a: real,
    b: real,
    cfg: SearchCfg,
    other: SearchCfg,
    e: Edge,
    f: Edge,
    e2: Edge,
    f2: Edge,
    reached: Board,
    x: u64,
    y: u64,
    start: SmallRng,
    end_x: SmallRng,
    end_y: SmallRng,
)
    requires
        comparable(k, m, a, cfg.policy),
        exact_children(k, m, cfg, e, e2, reached, x, start, end_x),
        exact_children(k, m, other, f, f2, reached, y, start, end_y),
        cfgs_in_units(m, a, b, cfg, other),
        branch_in_units(m, a, b, e, f),
        children_step(k, cfg, e, e2, reached, x, start, end_x),
        children_step(k, other, f, f2, reached, y, start, end_y),
    ensures
        x == y,
        end_x == end_y,
        e2.children@.len() == f2.children@.len(),
        forall|j: int|
            0 <= j < e2.children@.len() ==> (#[trigger] e2.children@[j]).board == f2.children@[j].board
                && tree_in_units(m, a, b, e2.children@[j].node, f2.children@[j].node),
    decreases e, 0nat,
{
    if exists|c: int| 0 <= c < e.children@.len() && (#[trigger] e.children@[c]).board == reached {
        let known = choose|c: int|
            0 <= c < e.children@.len() && (#[trigger] e.children@[c]).board == reached;
        assert(f.children@[known].board == reached);
        let c = choose|c: int| #![trigger e.children@[c]]
            {
                &&& 0 <= c < e.children@.len()
                &&& e.children@[c].board == reached
                &&& forall|j: int| 0 <= j < c ==> (#[trigger] e.children@[j]).board != reached
                &&& e2.children@.len() == e.children@.len()
                &&& e2.children@[c].board == reached
                &&& simulated(k, cfg, e.children@[c].node, e2.children@[c].node, x, start, end_x)
                &&& forall|j: int|
                    0 <= j < e.children@.len() && j != c ==> #[trigger] e2.children@[j] == e.children@[j]
            };
        let d = choose|d: int| #![trigger f.children@[d]]
            {
                &&& 0 <= d < f.children@.len()
                &&& f.children@[d].board == reached
                &&& forall|j: int| 0 <= j < d ==> (#[trigger] f.children@[j]).board != reached
                &&& f2.children@.len() == f.children@.len()
                &&& f2.children@[d].board == reached
                &&& simulated(k, other, f.children@[d].node, f2.children@[d].node, y, start, end_y)
                &&& forall|j: int|
                    0 <= j < f.children@.len() && j != d ==> #[trigger] f2.children@[j] == f.children@[j]
            };
        assert(e.children@[c].board == f.children@[c].board);
        assert(e.children@[d].board == f.children@[d].board);
        assert(c == d);
        lemma_simulated_in_units(
            k,
            m,
            a,
            b,
            cfg,
            other,
            e.children@[c].node,
            f.children@[c].node,
            e2.children@[c].node,
            f2.children@[c].node,
            x,
            y,
            start,
            end_x,
            end_y,
        );
        assert forall|j: int| 0 <= j < e2.children@.len() implies (#[trigger] e2.children@[j]).board
            == f2.children@[j].board && tree_in_units(
            m,
            a,
            b,
            e2.children@[j].node,
            f2.children@[j].node,
        ) by {
            assert(e.children@[j].board == f.children@[j].board);
            if j != c {
                assert(e2.children@[j] == e.children@[j]);
                assert(f2.children@[j] == f.children@[j]);
            }
        }
    } else {
        assert forall|c: int| 0 <= c < f.children@.len() implies (#[trigger] f.children@[c]).board
            != reached by {
            assert(e.children@[c].board == f.children@[c].board);
        }
        lemma_rollout_once(reached, cfg.rollout_cap as nat, start, x as nat, end_x, y as nat, end_y);
        lemma_fresh_in_units(m, a, b, e2.children@.last().node, f2.children@.last().node, reached);
        assert forall|j: int| 0 <= j < e2.children@.len() implies (#[trigger] e2.children@[j]).board
            == f2.children@[j].board && tree_in_units(
            m,
            a,
            b,
            e2.children@[j].node,
            f2.children@[j].node,
        ) by {
            if j < e.children@.len() {
                assert(e.children@[j].board == f.children@[j].board);
                assert(e2.children@[j] == e.children@[j]);
                assert(f2.children@[j] == f.children@[j]);
            }
        }
    }
}

proof fn lemma_edge_in_units<K: Arithmetic>(
    k: &K,
    m: Exact,
    a: real,
    b: real,
    cfg: SearchCfg,
    other: SearchCfg,
    e: Edge,
    f: Edge,
    e2: Edge,
    f2: Edge,
    x: u64,
    y: u64,
    start: SmallRng,
    end_x: SmallRng,
    end_y: SmallRng,
)
    requires
        comparable(k, m, a, cfg.policy),
        exact_edge(k, m, cfg, e, e2, x, start, end_x),
        exact_edge(k, m, other, f, f2, y, start, end_y),
        cfgs_in_units(m, a, b, cfg, other),
        branch_in_units(m, a, b, e, f),
        edge_step(k, cfg, e, e2, x, start, end_x),
        edge_step(k, other, f, f2, y, start, end_y),
    ensures
        x == y,
        end_x == end_y,
        branch_in_units(m, a, b, e2, f2),
    decreases e, 1nat,
{
    let (p, g) = choose|p: Board, g: SmallRng|
        #[trigger] spawned(e.moved, start, p, g) && children_step(
            k,
            cfg,
            e,
            e2,
            p,
            (x - e.immediate_reward) as u64,
            g,
            end_x,
        );
    let (q, h) = choose|q: Board, h: SmallRng|
        #[trigger] spawned(f.moved, start, q, h) && children_step(
            k,
            other,
            f,
            f2,
            q,
            (y - f.immediate_reward) as u64,
            h,
            end_y,
        );
    lemma_spawned_once(e.moved, start, p, g, q, h);
    lemma_children_in_units(
        k,
        m,
        a,
        b,
        cfg,
        other,
        e,
        f,
        e2,
        f2,
        p,
        (x - e.immediate_reward) as u64,
        (y - f.immediate_reward) as u64,
        g,
        end_x,
        end_y,
    );
    let u = choose|u: Double|
        #[trigger] evaluates(k, cfg.reward_transform.formula(x), u) && with_sample(
            k,
            e.stats,
            u,
            e2.stats,
        );
    let v = choose|v: Double|
        #[trigger] evaluates(k, other.reward_transform.formula(y), v) && with_sample(
            k,
            f.stats,
            v,
            f2.stats,
        );
    lemma_reward_in_units(k, m, a, b, cfg.reward_transform, other.reward_transform, x, u, v);
    lemma_sample_in_units(k, m, a, b, e.stats, u, e2.stats, f.stats, v, f2.stats);
}

proof fn lemma_simulated_in_units<K: Arithmetic>(
    k: &K,
    m: Exact,
    a: real,
    b: real,
    cfg: SearchCfg,
    other: SearchCfg,
    p: Node,
    q: Node,
    p2: Node,
    q2: Node,
    x: u64,
    y: u64,
    start: SmallRng,
    end_x: SmallRng,
    end_y: SmallRng,
)
    requires
        comparable(k, m, a, cfg.policy),
        exact_simulation(k, m, cfg, p, p2, x, start, end_x),
        exact_simulation(k, m, other, q, q2, y, start, end_y),
        cfgs_in_units(m, a, b, cfg, other),
        tree_in_units(m, a, b, p, q),
        simulated(k, cfg, p, p2, x, start, end_x),
        simulated(k, other, q, q2, y, start, end_y),
    ensures
        x == y,
        end_x == end_y,
        tree_in_units(m, a, b, p2, q2),
    decreases p, 2nat,
{
    if p.edges@.len() > 0 {
        let (i, g) = choose|i: int, g: SmallRng|
            {
                &&& 0 <= i < p.edges@.len()
                &&& #[trigger] is_choice(k, cfg.policy, visited(p), start, i, g)
                &&& edge_step(k, cfg, p.edges@[i], p2.edges@[i], x, g, end_x)
                &&& forall|j: int|
                    0 <= j < p.edges@.len() && j != i ==> #[trigger] p2.edges@[j] == p.edges@[j]
            };
        let (l, h) = choose|l: int, h: SmallRng|
            {
                &&& 0 <= l < q.edges@.len()
                &&& #[trigger] is_choice(k, other.policy, visited(q), start, l, h)
                &&& edge_step(k, other, q.edges@[l], q2.edges@[l], y, h, end_y)
                &&& forall|j: int|
                    0 <= j < q.edges@.len() && j != l ==> #[trigger] q2.edges@[j] == q.edges@[j]
            };
        assert forall|j: int| 0 <= j < p.edges@.len() implies stats_in_units(
            m,
            a,
            b,
            (#[trigger] p.edges@[j]).stats,
            q.edges@[j].stats,
        ) by {
            assert(branch_in_units(m, a, b, p.edges@[j], q.edges@[j]));
        }
        assert(edges_in_units(m, a, b, visited(p).edges@, visited(q).edges@));
        law_choice_has_no_units(k, m, a, b, cfg.policy, visited(p), visited(q), start, i, g, l, h);
        assert(branch_in_units(m, a, b, p.edges@[i], q.edges@[i]));
        lemma_edge_in_units(
            k,
            m,
            a,
            b,
            cfg,
            other,
            p.edges@[i],
            q.edges@[i],
            p2.edges@[i],
            q2.edges@[i],
            x,
            y,
            g,
            end_x,
            end_y,
        );
        assert forall|j: int| 0 <= j < p2.edges@.len() implies branch_in_units(
            m,
            a,
            b,
            #[trigger] p2.edges@[j],
            q2.edges@[j],
        ) by {
            if j != i {
                assert(p2.edges@[j] == p.edges@[j]);
                assert(q2.edges@[j] == q.edges@[j]);
                assert(branch_in_units(m, a, b, p.edges@[j], q.edges@[j]));
            }
        }
    }
}

/// Two searches that differ in the units of the returns alone grow the same tree, but for
/// the units of what was sampled, and draw the same from the generator, wherever nothing
/// rounds and no margin bites in either of them.
pub proof fn law_search_has_no_units<K: Arithmetic>(
    k: &K,
    m: Exact,
    a: real,
    b: real,
    cfg: SearchCfg,
    other: SearchCfg,
    board: Board,
    n: nat,
    p: Node,
    q: Node,
    start: SmallRng,
    end_p: SmallRng,
    end_q: SmallRng,
)
    requires
        comparable(k, m, a, cfg.policy),
        nothing_rounds(k, m, cfg, board, n, start),
        nothing_rounds(k, m, other, board, n, start),
        cfgs_in_units(m, a, b, cfg, other),
        searched(k, cfg, board, n, p, start, end_p),
        searched(k, other, board, n, q, start, end_q),
    ensures
        tree_in_units(m, a, b, p, q),
        end_p == end_q,
    decreases n,
{
    if n == 0 {
        lemma_fresh_in_units(m, a, b, p, q, board);
    } else {
        let (u, x, g) = choose|u: Node, x: u64, g: SmallRng|
            #[trigger] simulated(k, cfg, u, p, x, g, end_p) && searched(
                k,
                cfg,
                board,
                (n - 1) as nat,
                u,
                start,
                g,
            );
        let (v, y, h) = choose|v: Node, y: u64, h: SmallRng|
            #[trigger] simulated(k, other, v, q, y, h, end_q) && searched(
                k,
                other,
                board,
                (n - 1) as nat,
                v,
                start,
                h,
            );
        law_search_has_no_units(k, m, a, b, cfg, other, board, (n - 1) as nat, u, v, start, g, h);
        lemma_simulated_in_units(k, m, a, b, cfg, other, u, v, p, q, x, y, g, end_p, end_q);
    }
}

/// With as many simulations as legal moves every move was sampled.
proof fn lemma_every_move_is_sampled<K: Arithmetic>(
    k: &K,
    cfg: SearchCfg,
    board: Board,
    n: nat,
    root: Node,
    start: SmallRng,
    end: SmallRng,
)
    requires
        searched(k, cfg, board, n, root, start, end),
        !board.stuck(),
        n >= board.legal_dirs().len(),
    ensures
        sampled_at_least(root.edges@, 1),
{
    law_first_samples_are_forced(k, cfg, board, n, root, start, end);
    law_search_spends_its_budget(k, cfg, board, n, root, start, end);
    let want = needed(cfg.policy);
    let edges = root.edges@;
    assert(1 <= want <= 3);
    if !sampled_at_least(edges, 1) {
        let i = choose|i: int| 0 <= i < edges.len() && (#[trigger] edges[i]).stats.n < 1;
        assert(!sampled_at_least(edges, want)) by {
            if sampled_at_least(edges, want) {
                assert(edges[i].stats.n >= want);
            }
        }
        assert(even(edges));
        assert forall|j: int| 0 <= j < edges.len() implies (#[trigger] edges[j]).stats.n <= 1 by {
            assert(edges[j].stats.n <= edges[i].stats.n + 1);
        }
        lemma_one_below(edges, i, 1);
    }
}

/// Plain numbers come in the same order in the total order.
proof fn lemma_total_order(x: Double, y: Double)
    requires
        plain(x),
        plain(y),
    ensures
        x.total_rank() < y.total_rank() <==> x.below(y),
{
}

/// The best move of two such trees is the same, where every move was sampled.
proof fn lemma_best_move_in_units(m: Exact, a: real, b: real, p: Node, q: Node, s: Dir, t: Dir)
    requires
        m.ordered(),
        a > 0 as real,
        tree_in_units(m, a, b, p, q),
        sampled_at_least(p.edges@, 1),
        is_best_move(p, s),
        is_best_move(q, t),
    ensures
        s == t,
{
    let xs = means(p.edges@);
    let ys = means(q.edges@);
    let i = choose|i: int| #[trigger] last_greatest(xs, i) && p.edges@[i].dir == s;
    let j = choose|j: int| #[trigger] last_greatest(ys, j) && q.edges@[j].dir == t;
    assert forall|l: int| 0 <= l < xs.len() implies in_units(m, a, b, #[trigger] xs[l], ys[l]) && plain(
        xs[l],
    ) && plain(ys[l]) by {
        assert(branch_in_units(m, a, b, p.edges@[l], q.edges@[l]));
        assert(p.edges@[l].stats.n >= 1);
    }
    assert(all_in_units(m, a, b, xs, ys));
    assert(in_units(m, a, b, xs[i], ys[i]));
    assert(in_units(m, a, b, xs[j], ys[j]));
    lemma_extremes_move(m, a, b, xs[i], xs[j], ys[i], ys[j]);
    lemma_total_order(xs[i], xs[j]);
    lemma_total_order(xs[j], xs[i]);
    lemma_total_order(ys[i], ys[j]);
    lemma_total_order(ys[j], ys[i]);
    assert(branch_in_units(m, a, b, p.edges@[i], q.edges@[i]));
}

/// The move that a search chooses has no units: two searches of a board that differ in the
/// scale and the shift of the returns alone choose the same move with the same generator,
/// and leave it in the same state, wherever nothing rounds and no margin bites in either of
/// them. Every legal move is sampled, or none: a move without a sample counts with a mean of
/// zero, whatever the units.
pub proof fn law_chosen_move_has_no_units<K: Arithmetic>(
    k: &K,
    m: Exact,
    a: real,
    b: real,
    cfg: SearchCfg,
    other: SearchCfg,
    board: Board,
    n: nat,
    start: SmallRng,
    r: Option<Dir>,
    end_r: SmallRng,
    s: Option<Dir>,
    end_s: SmallRng,
)
    requires
        comparable(k, m, a, cfg.policy),
        nothing_rounds(k, m, cfg, board, n, start),
        nothing_rounds(k, m, other, board, n, start),
        cfgs_in_units(m, a, b, cfg, other),
        n == 0 || n >= board.legal_dirs().len(),
        chooses(k, cfg, board, n, start, r, end_r),
        chooses(k, other, board, n, start, s, end_s),
    ensures
        r == s,
        end_r == end_s,
{
    match (r, s) {
        (Some(u), Some(v)) => {
            if n == 0 {
                law_no_simulation_chooses_the_last_move(k, cfg, board, start, u, end_r);
                law_no_simulation_chooses_the_last_move(k, other, board, start, v, end_s);
            } else {
                let p = choose|p: Node| #[trigger]
                    searched(k, cfg, board, n, p, start, end_r) && is_best_move(p, u);
                let q = choose|q: Node| #[trigger]
                    searched(k, other, board, n, q, start, end_s) && is_best_move(q, v);
                law_search_has_no_units(k, m, a, b, cfg, other, board, n, p, q, start, end_r, end_s);
                assert(!board.stuck());
                lemma_every_move_is_sampled(k, cfg, board, n, p, start, end_r);
                lemma_best_move_in_units(m, a, b, p, q, u, v);
            }
        },
        (Some(u), None) => {
            assert(board.legal(u));
        },
        (None, Some(v)) => {
            assert(board.legal(v));
        },
        (None, None) => {},
    }
}

/// The moves of a searched board are its legal moves, and nothing lies below a move without a
/// sample.
proof fn lemma_root_in_order<K: Arithmetic>(
    k: &K,
    cfg: SearchCfg,
    board: Board,
    n: nat,
    root: Node,
    start: SmallRng,
    end: SmallRng,
)
    requires
        searched(k, cfg, board, n, root, start, end),
        board.legal_dirs().len() > 0,
    ensures
        root.edges@.len() == board.legal_dirs().len(),
        forall|i: int|
            0 <= i < root.edges@.len() ==> {
                &&& board.is_move(
                    (#[trigger] root.edges@[i]).dir,
                    root.edges@[i].moved,
                    root.edges@[i].immediate_reward,
                )
                &&& root.edges@[i].stats.n == 0 ==> root.edges@[i].children@.len() == 0
            },
    decreases n,
{
    if n == 0 {
        assert forall|i: int| 0 <= i < root.edges@.len() implies board.is_move(
            (#[trigger] root.edges@[i]).dir,
            root.edges@[i].moved,
            root.edges@[i].immediate_reward,
        ) && root.edges@[i].children@.len() == 0 by {
            assert(is_fresh_edge(root.edges@[i], board, board.legal_dirs()[i]));
        }
    } else {
        let (before, total, middle) = choose|before: Node, total: u64, middle: SmallRng|
            #[trigger] simulated(k, cfg, before, root, total, middle, end) && searched(
                k,
                cfg,
                board,
                (n - 1) as nat,
                before,
                start,
                middle,
            );
        lemma_root_in_order(k, cfg, board, (n - 1) as nat, before, start, middle);
        let (i, chosen) = choose|i: int, chosen: SmallRng|
            {
                &&& 0 <= i < before.edges@.len()
                &&& #[trigger] is_choice(k, cfg.policy, visited(before), middle, i, chosen)
                &&& edge_step(k, cfg, before.edges@[i], root.edges@[i], total, chosen, end)
                &&& forall|j: int|
                    0 <= j < before.edges@.len() && j != i ==> #[trigger] root.edges@[j]
                        == before.edges@[j]
            };
        assert forall|j: int| 0 <= j < root.edges@.len() implies board.is_move(
            (#[trigger] root.edges@[j]).dir,
            root.edges@[j].moved,
            root.edges@[j].immediate_reward,
        ) && (root.edges@[j].stats.n == 0 ==> root.edges@[j].children@.len() == 0) by {
            assert(board.is_move(
                before.edges@[j].dir,
                before.edges@[j].moved,
                before.edges@[j].immediate_reward,
            ));
            if j != i {
                assert(root.edges@[j] == before.edges@[j]);
            }
        }
    }
}

/// What the first sample of a move returns is the score of a play of the board.
proof fn lemma_first_return_is_attainable<K: Arithmetic>(
    k: &K,
    cfg: SearchCfg,
    board: Board,
    before: Edge,
    after: Edge,
    total: u64,
    start: SmallRng,
    end: SmallRng,
)
    requires
        board.is_move(before.dir, before.moved, before.immediate_reward),
        before.children@.len() == 0,
        edge_step(k, cfg, before, after, total, start, end),
    ensures
        attainable(board, total as nat),
{
    let downstream = (total - before.immediate_reward) as u64;
    let (reached, middle) = choose|reached: Board, middle: SmallRng|
        #[trigger] spawned(before.moved, start, reached, middle) && children_step(
            k,
            cfg,
            before,
            after,
            reached,
            downstream,
            middle,
            end,
        );
    assert(is_rollout(reached, cfg.rollout_cap as nat, middle, downstream as nat, end));
    let turns = choose|turns: Seq<Turn>|
        {
            &&& allowed(reached, turns)
            &&& turns.len() <= cfg.rollout_cap as nat
            &&& turns.len() < cfg.rollout_cap as nat ==> board_after(reached, turns).stuck()
            &&& downstream as nat == points(reached, turns)
            &&& #[trigger] random_turns(reached, turns, middle, end)
        };
    assert(attainable(reached, downstream as nat));
    let turn = Turn { dir: before.dir, after: reached };
    lemma_board_of(board.slide(before.dir));
    lemma_board_ext(before.moved, board_of(board.slide(before.dir)));
    law_drawn_tiles_can_appear(before.moved, start, reached, middle);
    lemma_attainable_before(board, turn, downstream as nat);
}

/// In the first samples nothing rounds but what is observed of the scores: while the moves
/// get their first sample each, a search computes nothing else. So where nothing rounds in
/// what is observed of the scores of the board, nothing rounds in those samples.
pub proof fn law_first_samples_round_nothing<K: Arithmetic>(
    k: &K,
    m: Exact,
    cfg: SearchCfg,
    board: Board,
    n: nat,
    start: SmallRng,
)
    requires
        n <= board.legal_dirs().len(),
        forall|total: u64|
            attainable(board, total as nat) ==> exact_at(
                k,
                m,
                #[trigger] cfg.reward_transform.formula(total),
            ),
    ensures
        nothing_rounds(k, m, cfg, board, n, start),
{
    assert forall|j: nat, root: Node, middle: SmallRng, after: Node, total: u64, end: SmallRng|
        j < n && #[trigger] searched(k, cfg, board, j, root, start, middle) && #[trigger] simulated(
            k,
            cfg,
            root,
            after,
            total,
            middle,
            end,
        ) implies exact_simulation(k, m, cfg, root, after, total, middle, end) by {
        lemma_first_sample_rounds_nothing(
            k,
            m,
            cfg,
            board,
            j,
            root,
            after,
            total,
            start,
            middle,
            end,
        );
    }
}

proof fn lemma_first_sample_rounds_nothing<K: Arithmetic>(
    k: &K,
    m: Exact,
    cfg: SearchCfg,
    board: Board,
    j: nat,
    root: Node,
    after: Node,
    total: u64,
    start: SmallRng,
    middle: SmallRng,
    end: SmallRng,
)
    requires
        j < board.legal_dirs().len(),
        searched(k, cfg, board, j, root, start, middle),
        forall|total: u64|
            attainable(board, total as nat) ==> exact_at(
                k,
                m,
                #[trigger] cfg.reward_transform.formula(total),
            ),
    ensures
        exact_simulation(k, m, cfg, root, after, total, middle, end),
{
    let edges = root.edges@;
    let want = needed(cfg.policy);
    let moves = board.legal_dirs().len() as int;
    lemma_stuck_iff_none_listed(board);
    law_first_samples_are_forced(k, cfg, board, j, root, start, middle);
    law_search_spends_its_budget(k, cfg, board, j, root, start, middle);
    lemma_root_in_order(k, cfg, board, j, root, start, middle);
    assert(want * moves >= moves) by (nonlinear_arith)
        requires
            want >= 1,
            moves >= 0,
    ;
    assert(!sampled_at_least(edges, want));
    assert forall|i: int, chosen: SmallRng|
        0 <= i < edges.len() && #[trigger] is_choice(
            k,
            cfg.policy,
            visited(root),
            middle,
            i,
            chosen,
        ) && edge_step(k, cfg, edges[i], after.edges@[i], total, chosen, end) implies exact_edge(
        k,
        m,
        cfg,
        edges[i],
        after.edges@[i],
        total,
        chosen,
        end,
    ) by {
        assert(is_least_sampled(edges, i));
        if edges[i].stats.n >= 1 {
            assert forall|l: int| 0 <= l < edges.len() implies 1 <= (#[trigger] edges[l]).stats.n by {}
            lemma_samples_between(edges, 1, u32::MAX as int);
        }
        lemma_first_return_is_attainable(
            k,
            cfg,
            board,
            edges[i],
            after.edges@[i],
            total,
            chosen,
            end,
        );
        assert(exact_at(k, m, cfg.reward_transform.formula(total)));
    }
}

/// A natural number among the reals.
pub open spec fn natural(n: nat) -> real {
    n as real
}

/// A plain number that stands for a natural number.
pub open spec fn is_whole(m: Exact, x: Double) -> bool {
    plain(x) && exists|n: nat| m.at(x) == #[trigger] natural(n)
}

/// Nothing rounds on natural numbers up to a bound, as with doubles up to `2^53`.
pub open spec fn exact_on_whole_numbers<K: Arithmetic>(k: &K, m: Exact, bound: real) -> bool {
    &&& forall|n: u64, r: Double|
        n as real <= bound && #[trigger] call_ensures(K::of_count, (k, n), r) ==> m.at(r) == n as real
            && is_whole(m, r)
    &&& forall|x: Double, y: Double, r: Double|
        is_whole(m, x) && is_whole(m, y) && m.at(x) * m.at(y) <= bound && #[trigger] call_ensures(
            K::times,
            (k, x, y),
            r,
        ) ==> m.at(r) == m.at(x) * m.at(y) && is_whole(m, r)
    &&& forall|x: Double, y: Double, r: Double|
        is_whole(m, x) && is_whole(m, y) && m.at(x) + m.at(y) <= bound && #[trigger] call_ensures(
            K::plus,
            (k, x, y),
            r,
        ) ==> m.at(r) == m.at(x) + m.at(y) && is_whole(m, r)
}

/// Nothing rounds in what is observed of a score through a scale and a shift that are natural
/// numbers, up to the bound.
pub proof fn law_whole_rewards_round_nothing<K: Arithmetic>(
    k: &K,
    m: Exact,
    bound: real,
    t: RewardTransform,
    score: u64,
)
    requires
        exact_on_whole_numbers(k, m, bound),
        is_whole(m, t.scale),
        is_whole(m, t.shift),
        score as real <= bound,
        m.at(t.scale) * (score as real) + m.at(t.shift) <= bound,
    ensures
        exact_at(k, m, t.formula(score)),
{
    assert forall|r: Double| #[trigger] evaluates(k, t.formula(score), r) implies m.at(r) == m.of(
        t.formula(score),
    ) && plain(r) by {
        let product = num(t.scale).times(count(score));
        let (p, q) = choose|p: Double, q: Double|
            evaluates(k, product, p) && evaluates(k, num(t.shift), q) && #[trigger] call_ensures(
                K::plus,
                (k, p, q),
                r,
            );
        let (u, v) = choose|u: Double, v: Double|
            evaluates(k, num(t.scale), u) && evaluates(k, count(score), v)
                && #[trigger] call_ensures(K::times, (k, u, v), p);
        assert(u == t.scale && q == t.shift);
        assert(m.at(v) == score as real);
        assert(m.at(t.shift) >= 0 as real);
        assert(m.at(p) == m.at(t.scale) * (score as real));
        assert(m.of(t.formula(score)) == m.at(t.scale) * (score as real) + m.at(t.shift)) by {
            reveal_with_fuel(Exact::of, 4);
        }
    }
}

/// The move that is chosen after one sample of every legal move has no units, as soon as
/// nothing rounds in what is observed of the scores of the board. That can be met: the
/// scores are natural numbers, and [`law_whole_rewards_round_nothing`] speaks of those.
pub proof fn law_first_choice_has_no_units<K: Arithmetic>(
    k: &K,
    m: Exact,
    a: real,
    b: real,
    cfg: SearchCfg,
    other: SearchCfg,
    board: Board,
    start: SmallRng,
    r: Option<Dir>,
    end_r: SmallRng,
    s: Option<Dir>,
    end_s: SmallRng,
)
    requires
        comparable(k, m, a, cfg.policy),
        cfgs_in_units(m, a, b, cfg, other),
        forall|total: u64|
            attainable(board, total as nat) ==> exact_at(
                k,
                m,
                #[trigger] cfg.reward_transform.formula(total),
            ),
        forall|total: u64|
            attainable(board, total as nat) ==> exact_at(
                k,
                m,
                #[trigger] other.reward_transform.formula(total),
            ),
        chooses(k, cfg, board, board.legal_dirs().len(), start, r, end_r),
        chooses(k, other, board, board.legal_dirs().len(), start, s, end_s),
    ensures
        r == s,
        end_r == end_s,
{
    let n = board.legal_dirs().len();
    law_first_samples_round_nothing(k, m, cfg, board, n, start);
    law_first_samples_round_nothing(k, m, other, board, n, start);
    law_chosen_move_has_no_units(k, m, a, b, cfg, other, board, n, start, r, end_r, s, end_s);
}

} // verus!
