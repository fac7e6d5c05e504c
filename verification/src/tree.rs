//! The search tree: positions, the moves from them, and what was sampled.

use crate::board::{is_spawn, Board, Dir};
use crate::double::Double;
use crate::estimate::{no_samples, Stats};
use vstd::prelude::*;

verus! {

/// A position that followed a move: the board after the new tile, and its node.
pub struct Child {
    pub board: Board,
    pub node: Node,
}

/// A move from a node: the board before the new tile, its score, the returns sampled
/// for it, and the positions seen after it.
pub struct Edge {
    pub dir: Dir,
    pub moved: Board,
    pub immediate_reward: u64,
    pub stats: Stats,
    pub children: Vec<Child>,
}

/// A position with its moves.
pub struct Node {
    pub board: Board,
    pub visits: u32,
    pub edges: Vec<Edge>,
}

/// The samples taken of all the moves.
pub open spec fn samples(edges: Seq<Edge>) -> nat
    decreases edges.len(),
{
    if edges.len() == 0 {
        0
    } else {
        samples(edges.drop_last()) + edges.last().stats.n as nat
    }
}

/// The mean returns of the moves.
pub open spec fn means(edges: Seq<Edge>) -> Seq<Double> {
    Seq::new(edges.len(), |i: int| edges[i].stats.mean)
}

/// Every move has at least `n` samples.
pub open spec fn sampled_at_least(edges: Seq<Edge>, n: int) -> bool {
    forall|i: int| 0 <= i < edges.len() ==> (#[trigger] edges[i]).stats.n >= n
}

/// `e` is the move in a direction, with nothing sampled yet.
pub open spec fn is_fresh_edge(e: Edge, b: Board, dir: Dir) -> bool {
    &&& e.dir == dir
    &&& b.is_move(dir, e.moved, e.immediate_reward)
    &&& e.stats == no_samples()
    &&& e.children@.len() == 0
}

/// `n` is the node of a board with its legal moves, nothing sampled yet.
pub open spec fn is_fresh(n: Node, b: Board) -> bool {
    &&& n.board == b
    &&& n.visits == 0
    &&& n.edges@.len() == b.legal_dirs().len()
    &&& forall|i: int|
        0 <= i < n.edges@.len() ==> is_fresh_edge(#[trigger] n.edges@[i], b, b.legal_dirs()[i])
}

/// No board occurs twice among the children.
pub open spec fn distinct(children: Seq<Child>) -> bool {
    forall|i: int, j: int|
        0 <= i < j < children.len() ==> (#[trigger] children[i]).board != (#[trigger] children[j]).board
}

/// The edge is the legal move of its board in its direction, and its children follow
/// from it.
pub open spec fn edge_fits(e: Edge, b: Board, dir: Dir) -> bool {
    &&& e.dir == dir
    &&& b.is_move(dir, e.moved, e.immediate_reward)
    &&& distinct(e.children@)
    &&& forall|j: int|
        0 <= j < e.children@.len() ==> {
            &&& (#[trigger] e.children@[j]).node.board == e.children@[j].board
            &&& is_spawn(e.moved, e.children@[j].board)
            &&& e.children@[j].node.visits <= e.stats.n
        }
}

impl Node {
    /// The tree below the node is in order: its edges are the legal moves of its board,
    /// each visit left one sample, and the same holds of every child.
    pub open spec fn wf(self) -> bool
        decreases self,
    {
        &&& self.board.playable()
        &&& self.edges@.len() == self.board.legal_dirs().len()
        &&& forall|i: int|
            0 <= i < self.edges@.len() ==> edge_fits(
                #[trigger] self.edges@[i],
                self.board,
                self.board.legal_dirs()[i],
            )
        &&& samples(self.edges@) == self.visits
        &&& forall|i: int, j: int|
            0 <= i < self.edges@.len() && 0 <= j < self.edges@[i].children@.len()
                ==> (#[trigger] self.edges@[i].children@[j]).node.wf()
    }

    /// The node of a board, with its legal moves and nothing sampled yet.
    pub fn new(board: Board) -> (r: Node)
        requires
            board.scores_fit(),
        ensures
            is_fresh(r, board),
    {
        let moves = board.legal_moves();
        let mut edges: Vec<Edge> = Vec::new();
        for i in 0..moves.len()
            invariant
                moves@.len() == board.legal_dirs().len(),
                forall|j: int|
                    0 <= j < moves@.len() ==> (#[trigger] moves@[j]).0 == board.legal_dirs()[j]
                        && board.is_move(moves@[j].0, moves@[j].1, moves@[j].2),
                edges@.len() == i,
                forall|j: int|
                    0 <= j < i ==> is_fresh_edge(#[trigger] edges@[j], board, board.legal_dirs()[j]),
        {
            let (dir, moved, reward) = moves[i];
            edges.push(Edge::new(dir, moved, reward));
        }
        Node { board, visits: 0, edges }
    }

    /// Whether no move is legal.
    pub fn terminal(&self) -> (r: bool)
        ensures
            r == (self.edges@.len() == 0),
    {
        self.edges.len() == 0
    }
}

impl Edge {
    /// A move with nothing sampled yet.
    pub fn new(dir: Dir, moved: Board, immediate_reward: u64) -> (r: Edge)
        ensures
            r.dir == dir,
            r.moved == moved,
            r.immediate_reward == immediate_reward,
            r.stats == no_samples(),
            r.children@.len() == 0,
    {
        Edge { dir, moved, immediate_reward, stats: Stats::none(), children: Vec::new() }
    }

    /// The place of a board among the children, or the number of children.
    pub fn find_child(&self, board: Board) -> (r: usize)
        ensures
            r <= self.children@.len(),
            r < self.children@.len() ==> self.children@[r as int].board == board,
            forall|j: int| 0 <= j < r ==> (#[trigger] self.children@[j]).board != board,
    {
        let mut i: usize = 0;
        while i < self.children.len()
            invariant
                i <= self.children@.len(),
                forall|j: int| 0 <= j < i ==> (#[trigger] self.children@[j]).board != board,
            decreases self.children@.len() - i,
        {
            if self.children[i].board == board {
                return i;
            }
            i = i + 1;
        }
        i
    }
}

/// The mean returns of the moves.
pub fn edge_means(edges: &Vec<Edge>) -> (r: Vec<Double>)
    ensures
        r@ == means(edges@),
{
    let mut out: Vec<Double> = Vec::new();
    for i in 0..edges.len()
        invariant
            out@.len() == i,
            forall|j: int| 0 <= j < i ==> #[trigger] out@[j] == edges@[j].stats.mean,
    {
        out.push(edges[i].stats.mean);
    }
    assert(out@ =~= means(edges@));
    out
}

/// No move has more samples than there are in all.
pub proof fn lemma_samples_bound(edges: Seq<Edge>, i: int)
    requires
        0 <= i < edges.len(),
    ensures
        edges[i].stats.n <= samples(edges),
    decreases edges.len(),
{
    if i < edges.len() - 1 {
        lemma_samples_bound(edges.drop_last(), i);
    }
}

/// One more sample of one move is one more sample in all.
pub proof fn lemma_samples_one_more(before: Seq<Edge>, after: Seq<Edge>, i: int)
    requires
        0 <= i < before.len(),
        after.len() == before.len(),
        after[i].stats.n == before[i].stats.n + 1,
        forall|j: int| 0 <= j < before.len() && j != i ==> (#[trigger] after[j]).stats.n == before[j].stats.n,
    ensures
        samples(after) == samples(before) + 1,
    decreases before.len(),
{
    if i < before.len() - 1 {
        assert(after.last().stats.n == before.last().stats.n);
        lemma_samples_one_more(before.drop_last(), after.drop_last(), i);
    } else {
        lemma_samples_same(before.drop_last(), after.drop_last());
    }
}

proof fn lemma_samples_same(before: Seq<Edge>, after: Seq<Edge>)
    requires
        after.len() == before.len(),
        forall|j: int| 0 <= j < before.len() ==> (#[trigger] after[j]).stats.n == before[j].stats.n,
    ensures
        samples(after) == samples(before),
    decreases before.len(),
{
    if before.len() > 0 {
        assert(after.last().stats.n == before.last().stats.n);
        lemma_samples_same(before.drop_last(), after.drop_last());
    }
}

/// Moves without samples have none in all.
pub proof fn lemma_no_samples(edges: Seq<Edge>)
    requires
        forall|j: int| 0 <= j < edges.len() ==> (#[trigger] edges[j]).stats.n == 0,
    ensures
        samples(edges) == 0,
    decreases edges.len(),
{
    if edges.len() > 0 {
        assert(edges.last().stats.n == 0);
        lemma_no_samples(edges.drop_last());
    }
}

/// A fresh node of a playable board is in order.
pub proof fn lemma_fresh_is_wf(n: Node, b: Board)
    requires
        is_fresh(n, b),
        b.playable(),
    ensures
        n.wf(),
{
    assert forall|j: int| 0 <= j < n.edges@.len() implies (#[trigger] n.edges@[j]).stats.n == 0 by {
        assert(is_fresh_edge(n.edges@[j], b, b.legal_dirs()[j]));
    }
    lemma_no_samples(n.edges@);
    assert forall|i: int| 0 <= i < n.edges@.len() implies edge_fits(
        #[trigger] n.edges@[i],
        n.board,
        n.board.legal_dirs()[i],
    ) by {
        assert(is_fresh_edge(n.edges@[i], b, b.legal_dirs()[i]));
    }
    assert forall|i: int, j: int|
        0 <= i < n.edges@.len() && 0 <= j < n.edges@[i].children@.len() implies (
    #[trigger] n.edges@[i].children@[j]).node.wf() by {
        assert(is_fresh_edge(n.edges@[i], b, b.legal_dirs()[i]));
    }
}

/// The samples of moves that have at least `low` each, and `high` at most.
pub proof fn lemma_samples_between(edges: Seq<Edge>, low: int, high: int)
    requires
        forall|i: int| 0 <= i < edges.len() ==> low <= (#[trigger] edges[i]).stats.n <= high,
    ensures
        low * edges.len() <= samples(edges) <= high * edges.len(),
    decreases edges.len(),
{
    if edges.len() > 0 {
        let front = edges.drop_last();
        assert forall|i: int| 0 <= i < front.len() implies low <= (#[trigger] front[i]).stats.n <= high by {
            assert(front[i] == edges[i]);
        }
        lemma_samples_between(front, low, high);
        assert(low <= edges[edges.len() - 1].stats.n <= high);
        assert(low * edges.len() == low * front.len() + low) by (nonlinear_arith)
            requires
                edges.len() == front.len() + 1,
        ;
        assert(high * edges.len() == high * front.len() + high) by (nonlinear_arith)
            requires
                edges.len() == front.len() + 1,
        ;
    } else {
        assert(low * edges.len() == 0 && high * edges.len() == 0) by (nonlinear_arith)
            requires
                edges.len() == 0,
        ;
    }
}

} // verus!
