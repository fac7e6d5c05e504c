//! Sequences of turns: a legal move and the tile that appears after it.

use crate::board::{is_initial, is_spawn, lemma_empties_are_empty, spawned, Board, Dir};
use crate::growth::{
    board_of, law_caps_are_ordered, law_headroom_bounds, law_initial_board,
    law_legal_move_leaves_room, law_move_conserves, law_move_keeps_cap,
    law_opposite_moves_score_the_same, law_scores_are_of_fours, law_spawn_adds_a_tile,
    law_spawn_keeps_cap, lemma_board_of, lemma_capped_tile_sum, GAME_CAP, HEADROOM, MAX_WORTH,
};
use crate::random::draws_below;
use rand::rngs::SmallRng;
use vstd::prelude::*;

verus! {

/// One turn: the direction that was taken and the board after the new tile.
#[derive(Clone, Copy, Debug)]
pub struct Turn {
    pub dir: Dir,
    pub after: Board,
}

/// The board after the turns.
pub open spec fn board_after(start: Board, turns: Seq<Turn>) -> Board {
    if turns.len() == 0 {
        start
    } else {
        turns.last().after
    }
}

/// A turn that the rules allow on a board.
pub open spec fn turn_allowed(b: Board, t: Turn) -> bool {
    b.legal(t.dir) && is_spawn(board_of(b.slide(t.dir)), t.after)
}

/// Turns that the rules allow, one after the other.
pub open spec fn allowed(start: Board, turns: Seq<Turn>) -> bool
    decreases turns.len(),
{
    turns.len() == 0 || {
        &&& allowed(start, turns.drop_last())
        &&& turn_allowed(board_after(start, turns.drop_last()), turns.last())
    }
}

/// What the turns score.
pub open spec fn points(start: Board, turns: Seq<Turn>) -> nat
    decreases turns.len(),
{
    if turns.len() == 0 {
        0
    } else {
        points(start, turns.drop_last()) + board_after(start, turns.drop_last()).slide_score(
            turns.last().dir,
        )
    }
}

/// A turn of random play with the generator `before`, which is `after` then: the
/// direction is drawn from the legal ones, and then the new tile.
pub open spec fn random_turn(b: Board, t: Turn, before: SmallRng, after: SmallRng) -> bool {
    exists|pick: usize, middle: SmallRng|
        {
            &&& pick < b.legal_dirs().len()
            &&& #[trigger] draws_below(before, b.legal_dirs().len() as usize, pick, middle)
            &&& t.dir == b.legal_dirs()[pick as int]
            &&& spawned(board_of(b.slide(t.dir)), middle, t.after, after)
        }
}

/// Turns of random play, one after the other, all with one generator.
pub open spec fn random_turns(
    start: Board,
    turns: Seq<Turn>,
    before: SmallRng,
    after: SmallRng,
) -> bool
    decreases turns.len(),
{
    if turns.len() == 0 {
        after == before
    } else {
        exists|middle: SmallRng|
            random_turns(start, turns.drop_last(), before, middle) && #[trigger] random_turn(
                board_after(start, turns.drop_last()),
                turns.last(),
                middle,
                after,
            )
    }
}

/// `score` is what random play from `start` scores that goes on for `cap` turns, or until
/// no move is legal.
pub open spec fn is_rollout(
    start: Board,
    cap: nat,
    before: SmallRng,
    score: nat,
    after: SmallRng,
) -> bool {
    exists|turns: Seq<Turn>|
        {
            &&& allowed(start, turns)
            &&& turns.len() <= cap
            &&& turns.len() < cap ==> board_after(start, turns).stuck()
            &&& score == points(start, turns)
            &&& #[trigger] random_turns(start, turns, before, after)
        }
}

/// The tiles after the moves of a game were drawn from one generator, one after the
/// other, and nothing else was drawn from it.
pub open spec fn tiles_from(
    before: SmallRng,
    start: Board,
    turns: Seq<Turn>,
    after: SmallRng,
) -> bool
    decreases turns.len(),
{
    if turns.len() == 0 {
        after == before
    } else {
        exists|middle: SmallRng|
            tiles_from(before, start, turns.drop_last(), middle) && #[trigger] spawned(
                board_of(board_after(start, turns.drop_last()).slide(turns.last().dir)),
                middle,
                turns.last().after,
                after,
            )
    }
}

/// The tile of one more turn.
pub proof fn lemma_one_more_tile(
    before: SmallRng,
    start: Board,
    turns: Seq<Turn>,
    middle: SmallRng,
    t: Turn,
    after: SmallRng,
)
    requires
        tiles_from(before, start, turns, middle),
        spawned(board_of(board_after(start, turns).slide(t.dir)), middle, t.after, after),
    ensures
        tiles_from(before, start, turns.push(t), after),
{
    assert(turns.push(t).drop_last() =~= turns);
    assert(turns.push(t).last() == t);
}

/// One more turn of random play.
pub proof fn lemma_one_more_random_turn(
    start: Board,
    turns: Seq<Turn>,
    before: SmallRng,
    middle: SmallRng,
    t: Turn,
    after: SmallRng,
)
    requires
        random_turns(start, turns, before, middle),
        random_turn(board_after(start, turns), t, middle, after),
    ensures
        random_turns(start, turns.push(t), before, after),
{
    assert(turns.push(t).drop_last() =~= turns);
    assert(turns.push(t).last() == t);
}

impl Board {
    /// A board from which no play can overflow its score: whatever turns the rules allow,
    /// their points fit in 64 bits.
    pub open spec fn playable(self) -> bool {
        forall|turns: Seq<Turn>| #[trigger] allowed(self, turns) ==> points(self, turns) <= u64::MAX
    }
}

/// Some play from the board scores so much.
pub open spec fn attainable(b: Board, score: nat) -> bool {
    exists|turns: Seq<Turn>| #[trigger] allowed(b, turns) && score == points(b, turns)
}

/// A turn put before a play.
pub proof fn lemma_turn_before(b: Board, t: Turn, turns: Seq<Turn>)
    requires
        turn_allowed(b, t),
        allowed(t.after, turns),
    ensures
        allowed(b, seq![t] + turns),
        board_after(b, seq![t] + turns) == board_after(t.after, turns),
        points(b, seq![t] + turns) == b.slide_score(t.dir) + points(t.after, turns),
    decreases turns.len(),
{
    let all = seq![t] + turns;
    if turns.len() == 0 {
        reveal_with_fuel(allowed, 2);
        reveal_with_fuel(points, 2);
        assert(all.drop_last() =~= Seq::<Turn>::empty());
        assert(all.last() == t);
    } else {
        lemma_turn_before(b, t, turns.drop_last());
        assert(all.drop_last() =~= seq![t] + turns.drop_last());
        assert(all.last() == turns.last());
    }
}

/// What a play scores after a turn can be scored before it, with the score of the turn.
pub proof fn lemma_attainable_before(b: Board, t: Turn, score: nat)
    requires
        turn_allowed(b, t),
        attainable(t.after, score),
    ensures
        attainable(b, b.slide_score(t.dir) + score),
{
    let turns = choose|turns: Seq<Turn>| #[trigger]
        allowed(t.after, turns) && score == points(t.after, turns);
    lemma_turn_before(b, t, turns);
}

/// A playable board is playable after every turn.
pub proof fn law_turns_keep_boards_playable(b: Board, t: Turn)
    requires
        b.playable(),
        turn_allowed(b, t),
    ensures
        t.after.playable(),
{
    assert forall|turns: Seq<Turn>| #[trigger] allowed(t.after, turns) implies points(t.after, turns)
        <= u64::MAX by {
        lemma_turn_before(b, t, turns);
    }
}

/// A playable board is playable however the game goes on.
pub proof fn law_play_keeps_boards_playable(b: Board, turns: Seq<Turn>)
    requires
        b.playable(),
        allowed(b, turns),
    ensures
        board_after(b, turns).playable(),
    decreases turns.len(),
{
    if turns.len() > 0 {
        law_play_keeps_boards_playable(b, turns.drop_last());
        law_turns_keep_boards_playable(board_after(b, turns.drop_last()), turns.last());
    }
}

/// Every score of a playable board fits in 64 bits.
pub proof fn law_playable_scores_fit(b: Board)
    requires
        b.playable(),
    ensures
        b.scores_fit(),
{
    assert forall|d: Dir| #[trigger] b.slide_score(d) <= u64::MAX by {
        law_opposite_moves_score_the_same(b, d);
        if b.slide_score(d) > 0 {
            let m = board_of(b.slide(d));
            lemma_board_of(b.slide(d));
            law_legal_move_leaves_room(b, d, m);
            lemma_empties_are_empty(m@, 16);
            let after = board_of(m.with_tile(0, 0));
            lemma_board_of(m.with_tile(0, 0));
            let t = Turn { dir: d, after };
            assert(is_spawn(m, after));
            lemma_turn_before(b, t, Seq::empty());
            assert(allowed(after, Seq::<Turn>::empty()));
        }
    }
}

/// A board below the headroom is playable.
pub proof fn law_headroom_is_playable(b: Board)
    requires
        b.has_headroom(),
    ensures
        b.playable(),
{
    law_headroom_bounds(b);
    assert forall|turns: Seq<Turn>| #[trigger] allowed(b, turns) implies points(b, turns) <= u64::MAX by {
        law_play_account(b, turns);
    }
}

/// One more turn at the end.
pub proof fn lemma_one_more_turn(start: Board, turns: Seq<Turn>, t: Turn)
    requires
        allowed(start, turns),
        turn_allowed(board_after(start, turns), t),
    ensures
        allowed(start, turns.push(t)),
        board_after(start, turns.push(t)) == t.after,
        points(start, turns.push(t)) == points(start, turns) + board_after(start, turns).slide_score(
            t.dir,
        ),
{
    assert(turns.push(t).drop_last() =~= turns);
}

/// A turn keeps the cap of the board.
pub proof fn law_turn_keeps_cap(b: Board, t: Turn, cap: int)
    requires
        b.capped(cap),
        18 <= cap <= 255,
        turn_allowed(b, t),
    ensures
        t.after.capped(cap),
{
    let m = board_of(b.slide(t.dir));
    lemma_board_of(b.slide(t.dir));
    law_move_keeps_cap(b, t.dir, m, cap);
    law_spawn_keeps_cap(m, t.after, cap);
}

/// However a game goes on, its boards stay below the cap that they started from.
pub proof fn law_play_keeps_cap(start: Board, turns: Seq<Turn>, cap: int)
    requires
        start.capped(cap),
        18 <= cap <= 255,
        allowed(start, turns),
    ensures
        board_after(start, turns).capped(cap),
    decreases turns.len(),
{
    if turns.len() > 0 {
        law_play_keeps_cap(start, turns.drop_last(), cap);
        law_turn_keeps_cap(board_after(start, turns.drop_last()), turns.last(), cap);
    }
}

/// The account of a game: every turn adds 2 or 4 to the sum of the tiles, and the
/// worth of the tiles grows by the points and by the fours that appeared.
pub proof fn law_play_account(start: Board, turns: Seq<Turn>)
    requires
        start.has_headroom(),
        allowed(start, turns),
    ensures
        board_after(start, turns).has_headroom(),
        start.tile_sum() + 2 * turns.len() <= board_after(start, turns).tile_sum() <= start.tile_sum()
            + 4 * turns.len(),
        board_after(start, turns).worth() == start.worth() + points(start, turns) + 2 * (board_after(
            start,
            turns,
        ).tile_sum() - start.tile_sum() - 2 * turns.len()),
        start.worth() + points(start, turns) <= MAX_WORTH,
    decreases turns.len(),
{
    if turns.len() > 0 {
        let front = turns.drop_last();
        let b = board_after(start, front);
        let t = turns.last();
        law_play_account(start, front);
        let m = board_of(b.slide(t.dir));
        lemma_board_of(b.slide(t.dir));
        law_move_conserves(b, t.dir, m);
        law_legal_move_leaves_room(b, t.dir, m);
        law_spawn_adds_a_tile(m, t.after);
        law_spawn_keeps_cap(m, t.after, HEADROOM as int);
    }
    law_headroom_bounds(board_after(start, turns));
}

/// The score of a game is fixed by its last board and the number of its moves.
pub proof fn law_score_of_a_game(start: Board, turns: Seq<Turn>)
    requires
        is_initial(start),
        allowed(start, turns),
    ensures
        points(start, turns) == board_after(start, turns).worth() - 2 * board_after(
            start,
            turns,
        ).tile_sum() + 4 * turns.len() + 8,
{
    law_initial_board(start);
    law_caps_are_ordered(start, GAME_CAP as int, HEADROOM as int);
    law_play_account(start, turns);
}

/// Every game ends: it has fewer than a million and fifty thousand moves, and no tile
/// larger than 131072 is ever made.
pub proof fn law_games_end(start: Board, turns: Seq<Turn>)
    requires
        is_initial(start),
        allowed(start, turns),
    ensures
        turns.len() <= 1_048_574,
        board_after(start, turns).capped(GAME_CAP as int),
{
    law_initial_board(start);
    law_caps_are_ordered(start, GAME_CAP as int, HEADROOM as int);
    law_play_account(start, turns);
    law_play_keeps_cap(start, turns, GAME_CAP as int);
    lemma_capped_tile_sum(board_after(start, turns));
}

/// A board with a legal move has it among the listed directions.
pub proof fn lemma_stuck_iff_none_listed(b: Board)
    ensures
        b.stuck() == (b.legal_dirs().len() == 0),
        forall|i: int| 0 <= i < b.legal_dirs().len() ==> b.legal(#[trigger] b.legal_dirs()[i]),
        forall|d: Dir| #[trigger] b.legal(d) ==> b.legal_dirs().contains(d),
{
    let all = crate::board::directions();
    let keep = |d: Dir| b.legal(d);
    broadcast use vstd::seq_lib::group_filter_ensures;
    assert forall|d: Dir| #[trigger] b.legal(d) implies b.legal_dirs().contains(d) by {
        assert(all[0] == Dir::Up && all[1] == Dir::Down && all[2] == Dir::Left && all[3] == Dir::Right);
        let i: int = match d {
            Dir::Up => 0,
            Dir::Down => 1,
            Dir::Left => 2,
            Dir::Right => 3,
        };
        assert(all[i] == d && keep(all[i]));
    }
    if b.legal_dirs().len() == 0 {
        assert forall|d: Dir| !#[trigger] b.legal(d) by {
            if b.legal(d) {
                assert(b.legal_dirs().contains(d));
            }
        }
    } else {
        assert(b.legal(b.legal_dirs()[0]));
    }
}

/// What the turns score is a multiple of four.
pub proof fn law_points_are_of_fours(start: Board, turns: Seq<Turn>)
    ensures
        points(start, turns) % 4 == 0,
    decreases turns.len(),
{
    if turns.len() > 0 {
        law_points_are_of_fours(start, turns.drop_last());
        law_scores_are_of_fours(board_after(start, turns.drop_last()), turns.last().dir);
    }
}

/// More turns score no less.
pub proof fn law_points_only_grow(start: Board, turns: Seq<Turn>, n: int)
    requires
        0 <= n <= turns.len(),
    ensures
        points(start, turns.take(n)) <= points(start, turns),
    decreases turns.len(),
{
    if n == turns.len() {
        assert(turns.take(n) =~= turns);
    } else {
        assert(turns.drop_last().take(n) =~= turns.take(n));
        law_points_only_grow(start, turns.drop_last(), n);
    }
}

/// Random play scores a multiple of four. Without a turn to play, or a legal move, it scores
/// nothing and nothing is drawn.
pub proof fn law_rollout_scores(
    start: Board,
    cap: nat,
    before: SmallRng,
    score: nat,
    after: SmallRng,
)
    requires
        is_rollout(start, cap, before, score, after),
    ensures
        score % 4 == 0,
        cap == 0 || start.stuck() ==> score == 0 && after == before,
{
    let turns = choose|turns: Seq<Turn>|
        {
            &&& allowed(start, turns)
            &&& turns.len() <= cap
            &&& turns.len() < cap ==> board_after(start, turns).stuck()
            &&& score == points(start, turns)
            &&& #[trigger] random_turns(start, turns, before, after)
        };
    law_points_are_of_fours(start, turns);
    if start.stuck() && turns.len() > 0 {
        lemma_turn_is_allowed(start, turns, 0);
    }
}

/// Every turn of a play is allowed where it is taken.
pub proof fn lemma_turn_is_allowed(from: Board, t: Seq<Turn>, n: int)
    requires
        allowed(from, t),
        0 <= n < t.len(),
    ensures
        allowed(from, t.take(n)),
        turn_allowed(board_after(from, t.take(n)), t[n]),
    decreases t.len(),
{
    if n == t.len() - 1 {
        assert(t.take(n) =~= t.drop_last());
    } else {
        assert(t.drop_last().take(n) =~= t.take(n));
        lemma_turn_is_allowed(from, t.drop_last(), n);
    }
}

} // verus!
