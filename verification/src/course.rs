//! The course of a simulation: which positions it reaches and remembers, how far random play goes
//! and what is drawn for it, and the move that a search comes to.

use crate::arith::Arithmetic;
use crate::board::{directions, is_spawn, law_drawn_tiles_can_appear, spawned, Board, Dir};
use crate::credit::{law_searches_have_a_record, went};
use crate::double::last_greatest;
use crate::growth::board_of;
use crate::random::draws_below;
use crate::search::{
    chooses, children_step, edge_step, is_best_move, searched, simulated, visited, SearchCfg,
};
use crate::select::is_choice;
use crate::tree::{edge_fits, is_fresh, means, Child, Edge, Node};
use crate::turns::{allowed, board_after, is_rollout, points, random_turn, random_turns, Turn};
use rand::rngs::SmallRng;
use vstd::prelude::*;

verus! {

/// One where a direction is legal, else none.
pub open spec fn open_way(b: Board, dir: Dir) -> int {
    if b.legal(dir) {
        1
    } else {
        0
    }
}

/// How many of the directions before `dir` are legal, in the order up, down, left, right.
pub open spec fn ways_before(b: Board, dir: Dir) -> int {
    match dir {
        Dir::Up => 0,
        Dir::Down => open_way(b, Dir::Up),
        Dir::Left => open_way(b, Dir::Up) + open_way(b, Dir::Down),
        Dir::Right => open_way(b, Dir::Up) + open_way(b, Dir::Down) + open_way(b, Dir::Left),
    }
}

/// How many directions are legal.
pub open spec fn ways(b: Board) -> int {
    ways_before(b, Dir::Right) + open_way(b, Dir::Right)
}

pub proof fn lemma_ways(b: Board)
    ensures
        b.legal_dirs().len() == ways(b),
        forall|i: int|
            0 <= i < b.legal_dirs().len() ==> b.legal(#[trigger] b.legal_dirs()[i]) && ways_before(
                b,
                b.legal_dirs()[i],
            ) == i,
{
    let keep = |d: Dir| b.legal(d);
    let all = directions();
    let three = all.drop_last();
    let two = three.drop_last();
    let one = two.drop_last();
    let none = one.drop_last();
    reveal(Seq::filter);
    assert(none.len() == 0);
    assert(none.filter(keep) == Seq::<Dir>::empty());
    assert(one.last() == Dir::Up && two.last() == Dir::Down && three.last() == Dir::Left && all.last()
        == Dir::Right);
    let p = one.filter(keep);
    let q = two.filter(keep);
    let r = three.filter(keep);
    let s = all.filter(keep);
    assert(p == if b.legal(Dir::Up) {
        none.filter(keep).push(Dir::Up)
    } else {
        none.filter(keep)
    });
    assert(q == if b.legal(Dir::Down) {
        p.push(Dir::Down)
    } else {
        p
    });
    assert(r == if b.legal(Dir::Left) {
        q.push(Dir::Left)
    } else {
        q
    });
    assert(s == if b.legal(Dir::Right) {
        r.push(Dir::Right)
    } else {
        r
    });
    assert(b.legal_dirs() == s);
}

/// A turn of random play: which of the legal directions it takes is drawn, counted in the order
/// up, down, left, right, and then the new tile.
pub proof fn law_random_turns_draw_their_direction(b: Board, t: Turn, before: SmallRng, after: SmallRng)
    requires
        random_turn(b, t, before, after),
    ensures
        b.legal(t.dir),
        exists|pick: usize, middle: SmallRng|
            {
                &&& #[trigger] draws_below(before, ways(b) as usize, pick, middle)
                &&& pick == ways_before(b, t.dir)
                &&& spawned(board_of(b.slide(t.dir)), middle, t.after, after)
            },
{
    lemma_ways(b);
    let (pick, middle) = choose|pick: usize, middle: SmallRng|
        {
            &&& pick < b.legal_dirs().len()
            &&& #[trigger] draws_below(before, b.legal_dirs().len() as usize, pick, middle)
            &&& t.dir == b.legal_dirs()[pick as int]
            &&& spawned(board_of(b.slide(t.dir)), middle, t.after, after)
        };
    assert(draws_below(before, ways(b) as usize, pick, middle));
}

/// Random play goes on for as many turns as its cap, or until no direction is legal, and scores
/// what its turns score; each turn follows on the one before and draws from where that left the
/// generator.
pub proof fn law_random_play_stops_at_the_cap(
    start: Board,
    cap: nat,
    before: SmallRng,
    score: nat,
    after: SmallRng,
)
    requires
        is_rollout(start, cap, before, score, after),
    ensures
        exists|turns: Seq<Turn>, gens: Seq<SmallRng>|
            {
                &&& #[trigger] played_on(start, turns, gens)
                &&& gens[0] == before
                &&& gens[turns.len() as int] == after
                &&& points(start, turns) == score
                &&& turns.len() == cap || (turns.len() < cap && board_after(start, turns).stuck())
            },
{
    let turns = choose|turns: Seq<Turn>|
        {
            &&& allowed(start, turns)
            &&& turns.len() <= cap
            &&& turns.len() < cap ==> board_after(start, turns).stuck()
            &&& score == points(start, turns)
            &&& #[trigger] random_turns(start, turns, before, after)
        };
    let gens = lemma_played_on(start, turns, before, after);
    assert(played_on(start, turns, gens));
}

/// The board on which turn number `i` is made.
pub open spec fn board_at(start: Board, turns: Seq<Turn>, i: int) -> Board {
    if i == 0 {
        start
    } else {
        turns[i - 1].after
    }
}

/// Turns of random play, one after the other.
pub open spec fn played_on(start: Board, turns: Seq<Turn>, gens: Seq<SmallRng>) -> bool {
    &&& gens.len() == turns.len() + 1
    &&& forall|i: int|
        0 <= i < turns.len() ==> random_turn(
            board_at(start, turns, i),
            #[trigger] turns[i],
            gens[i],
            gens[i + 1],
        )
}

/// One more turn.
proof fn lemma_played_one_more(
    start: Board,
    turns: Seq<Turn>,
    gens: Seq<SmallRng>,
    t: Turn,
    after: SmallRng,
)
    requires
        played_on(start, turns, gens),
        random_turn(board_at(start, turns, turns.len() as int), t, gens[turns.len() as int], after),
    ensures
        played_on(start, turns.push(t), gens.push(after)),
{
    let more = turns.push(t);
    let all = gens.push(after);
    assert forall|i: int| 0 <= i < more.len() implies random_turn(
        board_at(start, more, i),
        #[trigger] more[i],
        all[i],
        all[i + 1],
    ) by {
        assert(board_at(start, more, i) == board_at(start, turns, i));
        if i < turns.len() {
            assert(more[i] == turns[i] && all[i] == gens[i] && all[i + 1] == gens[i + 1]);
        } else {
            assert(more[i] == t && all[i] == gens[turns.len() as int] && all[i + 1] == after);
        }
    }
}

proof fn lemma_played_on(start: Board, turns: Seq<Turn>, before: SmallRng, after: SmallRng) -> (gens: Seq<
    SmallRng,
>)
    requires
        random_turns(start, turns, before, after),
    ensures
        played_on(start, turns, gens),
        gens[0] == before,
        gens[turns.len() as int] == after,
    decreases turns.len(),
{
    if turns.len() == 0 {
        seq![before]
    } else {
        let front = turns.drop_last();
        let t = turns.last();
        let middle = choose|middle: SmallRng|
            random_turns(start, front, before, middle) && #[trigger] random_turn(
                board_after(start, front),
                t,
                middle,
                after,
            );
        let rest = lemma_played_on(start, front, before, middle);
        assert(board_at(start, front, front.len() as int) == board_after(start, front));
        lemma_played_one_more(start, front, rest, t, after);
        assert(front.push(t) =~= turns);
        rest.push(after)
    }
}

/// A position is remembered below a move: known positions stay where they are, those that were not
/// reached unchanged; one that was known gains a visit where it has a move; one that was not
/// known joins at the end with nothing sampled yet.
pub open spec fn remembers(before: Seq<Child>, after: Seq<Child>, reached: Board) -> bool {
    &&& forall|c: int|
        0 <= c < before.len() ==> c < after.len() && (#[trigger] after[c]).board == before[c].board
    &&& forall|c: int|
        0 <= c < before.len() && (#[trigger] before[c]).board != reached ==> after[c] == before[c]
    &&& exists|c: int|
        {
            &&& 0 <= c < after.len()
            &&& (#[trigger] after[c]).board == reached
            &&& if c < before.len() {
                &&& after.len() == before.len()
                &&& after[c].node.visits == before[c].node.visits + (if before[c].node.edges@.len() > 0 {
                    1int
                } else {
                    0int
                })
            } else {
                &&& after.len() == before.len() + 1
                &&& c == before.len()
                &&& is_fresh(after[c].node, reached)
                &&& forall|d: int| 0 <= d < before.len() ==> (#[trigger] before[d]).board != reached
            }
        }
}

/// A simulation remembers the position that it reaches below the move that it samples, and only
/// there: a tile appeared after the move, and the position is among the children then.
pub proof fn law_simulation_remembers_the_position<K: Arithmetic>(
    k: &K,
    cfg: SearchCfg,
    before: Node,
    after: Node,
    total: u64,
    start: SmallRng,
    end: SmallRng,
)
    requires
        before.wf(),
        before.edges@.len() > 0,
        simulated(k, cfg, before, after, total, start, end),
    ensures
        after.visits == before.visits + 1,
        after.board == before.board,
        exists|i: int, reached: Board|
            {
                &&& 0 <= i < before.edges@.len()
                &&& #[trigger] is_spawn(before.edges@[i].moved, reached)
                &&& remembers(before.edges@[i].children@, after.edges@[i].children@, reached)
                &&& after.edges@[i].stats.n == before.edges@[i].stats.n + 1
                &&& forall|j: int|
                    0 <= j < before.edges@.len() && j != i ==> #[trigger] after.edges@[j]
                        == before.edges@[j]
            },
{
    let (i, middle) = choose|i: int, middle: SmallRng|
        {
            &&& 0 <= i < before.edges@.len()
            &&& #[trigger] is_choice(k, cfg.policy, visited(before), start, i, middle)
            &&& edge_step(k, cfg, before.edges@[i], after.edges@[i], total, middle, end)
            &&& forall|j: int|
                0 <= j < before.edges@.len() && j != i ==> #[trigger] after.edges@[j]
                    == before.edges@[j]
        };
    let e = before.edges@[i];
    assert(edge_fits(e, before.board, before.board.legal_dirs()[i]));
    let (reached, there) = choose|reached: Board, there: SmallRng|
        #[trigger] spawned(e.moved, middle, reached, there) && children_step(
            k,
            cfg,
            e,
            after.edges@[i],
            reached,
            (total - e.immediate_reward) as u64,
            there,
            end,
        );
    law_drawn_tiles_can_appear(e.moved, middle, reached, there);
    lemma_remembers(
        k,
        cfg,
        before.board,
        e,
        after.edges@[i],
        reached,
        (total - e.immediate_reward) as u64,
        there,
        end,
    );
    assert(is_spawn(before.edges@[i].moved, reached));
}

proof fn lemma_remembers<K: Arithmetic>(
    k: &K,
    cfg: SearchCfg,
    b: Board,
    before: Edge,
    after: Edge,
    reached: Board,
    downstream: u64,
    start: SmallRng,
    end: SmallRng,
)
    requires
        edge_fits(before, b, before.dir),
        children_step(k, cfg, before, after, reached, downstream, start, end),
    ensures
        remembers(before.children@, after.children@, reached),
{
    let xs = before.children@;
    let ys = after.children@;
    if exists|c: int| 0 <= c < xs.len() && (#[trigger] xs[c]).board == reached {
        let c = choose|c: int| #![trigger before.children@[c]]
            {
                &&& 0 <= c < before.children@.len()
                &&& before.children@[c].board == reached
                &&& forall|j: int| 0 <= j < c ==> (#[trigger] before.children@[j]).board != reached
                &&& after.children@.len() == before.children@.len()
                &&& after.children@[c].board == reached
                &&& simulated(k, cfg, before.children@[c].node, after.children@[c].node, downstream, start, end)
                &&& forall|j: int|
                    0 <= j < before.children@.len() && j != c ==> #[trigger] after.children@[j]
                        == before.children@[j]
            };
        assert(simulated(k, cfg, xs[c].node, ys[c].node, downstream, start, end));
        assert(ys[c].board == reached);
        assert forall|d: int| 0 <= d < xs.len() implies d < ys.len() && (#[trigger] ys[d]).board
            == xs[d].board by {
            if d != c {
                assert(ys[d] == xs[d]);
            }
        }
    } else {
        assert(ys[xs.len() as int].board == reached);
        assert forall|d: int| 0 <= d < xs.len() implies d < ys.len() && (#[trigger] ys[d]).board
            == xs[d].board by {
            assert(ys[d] == xs[d]);
        }
        assert forall|d: int| 0 <= d < xs.len() && (#[trigger] xs[d]).board != reached implies ys[d]
            == xs[d] by {
            assert(ys[d] == after.children@[d]);
        }
    }
}

/// The move that a search comes to is legal, none of its moves has a greater mean in the tree of
/// its simulations, and there were as many simulations as asked for, each recorded. Nothing is
/// chosen exactly where no move is legal, and nothing is drawn then.
pub proof fn law_search_comes_to_the_greatest_mean<K: Arithmetic>(
    k: &K,
    cfg: SearchCfg,
    board: Board,
    n: nat,
    start: SmallRng,
    r: Option<Dir>,
    end: SmallRng,
)
    requires
        chooses(k, cfg, board, n, start, r, end),
    ensures
        r is None ==> board.stuck() && end == start,
        r matches Some(dir) ==> board.legal(dir) && exists|
            picks: Seq<int>,
            totals: Seq<u64>,
            root: Node,
            i: int,
        |
            {
                &&& picks.len() == n
                &&& #[trigger] went(k, cfg, board, picks, totals, root, start, end)
                &&& 0 <= i < root.edges@.len()
                &&& (#[trigger] root.edges@[i]).dir == dir
                &&& forall|j: int|
                    0 <= j < root.edges@.len() ==> !root.edges@[i].stats.mean.below(
                        (#[trigger] root.edges@[j]).stats.mean,
                    )
            },
{
    if let Some(dir) = r {
        let root = choose|root: Node| #[trigger]
            searched(k, cfg, board, n, root, start, end) && is_best_move(root, dir);
        law_searches_have_a_record(k, cfg, board, n, root, start, end);
        let (picks, totals) = choose|picks: Seq<int>, totals: Seq<u64>|
            picks.len() == n && #[trigger] went(k, cfg, board, picks, totals, root, start, end);
        let ms = means(root.edges@);
        let i = choose|i: int| #[trigger] last_greatest(ms, i) && root.edges@[i].dir == dir;
        assert forall|j: int| 0 <= j < root.edges@.len() implies !root.edges@[i].stats.mean.below(
            (#[trigger] root.edges@[j]).stats.mean,
        ) by {
            assert(ms[j] == root.edges@[j].stats.mean && ms[i] == root.edges@[i].stats.mean);
            assert(ms[j].total_rank() <= ms[i].total_rank());
        }
        assert(root.edges@[i].dir == dir);
        assert(went(k, cfg, board, picks, totals, root, start, end));
    }
}

/// The largest tile of a board is on it, and none is larger.
pub proof fn law_top_is_the_largest_tile(b: Board)
    ensures
        forall|c: int| 0 <= c < 16 ==> #[trigger] b@[c] <= b.top(),
        exists|c: int| 0 <= c < 16 && #[trigger] b@[c] == b.top(),
{
    lemma_top_among(b, 16);
}

proof fn lemma_top_among(b: Board, n: nat)
    requires
        n <= 16,
    ensures
        forall|c: int| 0 <= c < n ==> #[trigger] b@[c] <= b.top_among(n),
        n > 0 ==> exists|c: int| 0 <= c < n && #[trigger] b@[c] == b.top_among(n),
    decreases n,
{
    if n > 0 {
        lemma_top_among(b, (n - 1) as nat);
        if n == 1 {
            assert(b@[0] == b.top_among(1)) by {
                reveal_with_fuel(Board::top_among, 2);
            }
        } else if b.top_among((n - 1) as nat) < b@[n - 1] {
            assert(b@[n - 1] == b.top_among(n));
        } else {
            let c = choose|c: int| 0 <= c < n - 1 && #[trigger] b@[c] == b.top_among((n - 1) as nat);
            assert(b@[c] == b.top_among(n));
        }
    }
}

} // verus!
