//! What a game can and cannot do to a board: the laws behind its arithmetic.
//!
//! Three measures drive them. The sum of the tiles is kept by a move and grows with
//! each new tile. The worth of the tiles, `(e - 1) * 2^e` for a tile `2^e`, grows by
//! exactly the score of a move. And the number of tiles of at least `2^k` stays below
//! a bound that falls as `k` rises, which caps the tiles that can ever be made.

use crate::board::{
    cell, empty_among, is_initial, is_spawn, lemma_empties_are_empty, line_of, pos_of, tile_of_word,
    Board, Dir,
};
use crate::line::{
    at_least, lemma_changed_line_has_room, lemma_gain_is_of_fours, lemma_line_scores_both_ways,
    lemma_loose_line_moves, lemma_merged_count, lemma_merged_value, lemma_merged_worth,
    lemma_slid_holds_no_more, lemma_slid_len, lemma_tiles_bounds, lemma_total_concat, lemma_total_slid,
    lemma_total_tiles, raisable, slid, slide_gain, tile_value, tiles, total, value_of, worth_of,
};
use vstd::arithmetic::power2::{
    lemma2_to64, lemma2_to64_rest, lemma_pow2_pos, lemma_pow2_strictly_increases, pow2,
};
use vstd::prelude::*;

verus! {

/// Boards below this cap keep every score of every game within 64 bits.
pub const HEADROOM: u8 = 55;

/// The cap of the boards that a game can reach.
pub const GAME_CAP: u8 = 18;

/// No board below the headroom is worth more.
pub const MAX_WORTH: u64 = 15_276_209_936_040_722_432;

/// The sum of the tiles of a board below the headroom is smaller.
pub const MAX_TILE_SUM: u64 = 288_230_376_151_711_744;

impl Board {
    /// The sum of the tiles.
    pub open spec fn tile_sum(self) -> int {
        total(self@, value_of())
    }

    /// What it took to build the tiles out of twos.
    pub open spec fn worth(self) -> int {
        total(self@, worth_of())
    }

    /// The number of tiles of at least `2^e`.
    pub open spec fn count(self, e: int) -> int {
        total(self@, at_least(e))
    }

    /// For every `e`, at most `cap - e` tiles are `2^e` or larger.
    pub open spec fn capped(self, cap: int) -> bool {
        forall|e: int| e >= 1 ==> #[trigger] self.count(e) <= (if e < cap { cap - e } else { 0 })
    }

    /// A board below the headroom.
    pub open spec fn has_headroom(self) -> bool {
        self.capped(HEADROOM as int)
    }
}

proof fn lemma_total_four(s: Seq<u8>, f: spec_fn(u8) -> int)
    requires
        s.len() == 4,
    ensures
        total(s, f) == f(s[0]) + f(s[1]) + f(s[2]) + f(s[3]),
{
    reveal_with_fuel(total, 5);
    let a = s.drop_last();
    let b = a.drop_last();
    let c = b.drop_last();
    assert(c.drop_last() =~= Seq::<u8>::empty());
}

/// A sum over the board, written out by its rows.
proof fn lemma_total_rows(s: Seq<u8>, f: spec_fn(u8) -> int)
    requires
        s.len() == 16,
    ensures
        total(s, f) == f(s[0]) + f(s[1]) + f(s[2]) + f(s[3]) + f(s[4]) + f(s[5]) + f(s[6]) + f(s[7])
            + f(s[8]) + f(s[9]) + f(s[10]) + f(s[11]) + f(s[12]) + f(s[13]) + f(s[14]) + f(s[15]),
{
    let r0 = s.subrange(0, 4);
    let r1 = s.subrange(4, 8);
    let r2 = s.subrange(8, 12);
    let r3 = s.subrange(12, 16);
    assert(s =~= ((r0 + r1) + r2) + r3);
    lemma_total_concat((r0 + r1) + r2, r3, f);
    lemma_total_concat(r0 + r1, r2, f);
    lemma_total_concat(r0, r1, f);
    lemma_total_four(r0, f);
    lemma_total_four(r1, f);
    lemma_total_four(r2, f);
    lemma_total_four(r3, f);
}

/// A sum over the board is the sum over its lines, in any direction.
proof fn lemma_total_lines(b: Board, dir: Dir, f: spec_fn(u8) -> int)
    ensures
        total(b@, f) == total(b.line(dir, 0), f) + total(b.line(dir, 1), f) + total(
            b.line(dir, 2),
            f,
        ) + total(b.line(dir, 3), f),
{
    lemma_total_rows(b@, f);
    lemma_total_four(b.line(dir, 0), f);
    lemma_total_four(b.line(dir, 1), f);
    lemma_total_four(b.line(dir, 2), f);
    lemma_total_four(b.line(dir, 3), f);
}

/// The lines of the moved board are the slid lines.
proof fn lemma_moved_lines(b: Board, dir: Dir, m: Board, l: int)
    requires
        m@ == b.slide(dir),
        0 <= l < 4,
    ensures
        m.line(dir, l) == slid(b.line(dir, l)),
{
    lemma_slid_len(b.line(dir, l));
    assert forall|p: int| 0 <= p < 4 implies m.line(dir, l)[p] == slid(b.line(dir, l))[p] by {
        let c = cell(dir, l, p);
        assert(line_of(dir, c) == l && pos_of(dir, c) == p);
        assert(m@[c] == b.slide(dir)[c]);
    }
    assert(m.line(dir, l) =~= slid(b.line(dir, l)));
}

proof fn lemma_line_raisable(b: Board, dir: Dir, l: int)
    requires
        0 <= l < 4,
        forall|i: int| 0 <= i < 16 ==> #[trigger] b@[i] < 255,
    ensures
        raisable(tiles(b.line(dir, l))),
{
    let row = b.line(dir, l);
    lemma_tiles_bounds(row);
    assert forall|i: int| 0 <= i < tiles(row).len() implies 0 < #[trigger] tiles(row)[i] < 255 by {
        assert(tiles(row).contains(tiles(row)[i]));
        row.lemma_filter_contains_rev(|e: u8| e != 0, tiles(row)[i]);
        let p = choose|p: int| 0 <= p < row.len() && row[p] == tiles(row)[i];
        assert(row[p] == b@[cell(dir, l, p)]);
    }
}

/// A move keeps the sum of the tiles, adds its score to their worth, and makes large
/// tiles only of pairs of smaller ones.
proof fn lemma_slide_measures(b: Board, dir: Dir, m: Board)
    requires
        m@ == b.slide(dir),
        forall|i: int| 0 <= i < 16 ==> #[trigger] b@[i] < 255,
    ensures
        m.tile_sum() == b.tile_sum(),
        m.worth() == b.worth() + b.slide_score(dir),
        forall|e: int| e >= 2 ==> 2 * #[trigger] m.count(e) <= b.count(e) + b.count(e - 1),
{
    let v = value_of();
    let w = worth_of();
    lemma_total_lines(b, dir, v);
    lemma_total_lines(m, dir, v);
    lemma_total_lines(b, dir, w);
    lemma_total_lines(m, dir, w);
    reveal_with_fuel(Board::score_of_lines, 5);
    assert forall|l: int| 0 <= l < 4 implies total(#[trigger] m.line(dir, l), v) == total(
        b.line(dir, l),
        v,
    ) && total(m.line(dir, l), w) == total(b.line(dir, l), w) + slide_gain(b.line(dir, l)) by {
        let row = b.line(dir, l);
        lemma_moved_lines(b, dir, m, l);
        lemma_line_raisable(b, dir, l);
        lemma_merged_value(tiles(row));
        lemma_merged_worth(tiles(row));
        lemma_total_slid(row, v);
        lemma_total_slid(row, w);
        lemma_total_tiles(row, v);
        lemma_total_tiles(row, w);
    }
    assert(total(m.line(dir, 0), v) == total(b.line(dir, 0), v));
    assert(total(m.line(dir, 1), v) == total(b.line(dir, 1), v));
    assert(total(m.line(dir, 2), v) == total(b.line(dir, 2), v));
    assert(total(m.line(dir, 3), v) == total(b.line(dir, 3), v));
    assert forall|e: int| e >= 2 implies 2 * #[trigger] m.count(e) <= b.count(e) + b.count(e - 1) by {
        let f = at_least(e);
        let g = at_least(e - 1);
        lemma_total_lines(b, dir, f);
        lemma_total_lines(b, dir, g);
        lemma_total_lines(m, dir, f);
        assert forall|l: int| 0 <= l < 4 implies 2 * total(#[trigger] m.line(dir, l), f) <= total(
            b.line(dir, l),
            f,
        ) + total(b.line(dir, l), g) by {
            let row = b.line(dir, l);
            lemma_moved_lines(b, dir, m, l);
            lemma_line_raisable(b, dir, l);
            lemma_merged_count(tiles(row), e);
            lemma_total_slid(row, f);
            lemma_total_tiles(row, f);
            lemma_total_tiles(row, g);
        }
        assert(2 * total(m.line(dir, 0), f) <= total(b.line(dir, 0), f) + total(b.line(dir, 0), g));
        assert(2 * total(m.line(dir, 1), f) <= total(b.line(dir, 1), f) + total(b.line(dir, 1), g));
        assert(2 * total(m.line(dir, 2), f) <= total(b.line(dir, 2), f) + total(b.line(dir, 2), g));
        assert(2 * total(m.line(dir, 3), f) <= total(b.line(dir, 3), f) + total(b.line(dir, 3), g));
    }
}

/// Every tile of a capped board is smaller than the cap.
pub proof fn law_cap_bounds_tiles(b: Board, cap: int)
    requires
        b.capped(cap),
        1 <= cap,
    ensures
        forall|i: int| 0 <= i < 16 ==> #[trigger] b@[i] < cap,
{
    lemma_total_rows(b@, at_least(cap));
    assert(b.count(cap) <= 0);
}

proof fn lemma_count_at_most_cells(b: Board, e: int)
    ensures
        0 <= b.count(e) <= 16,
{
    lemma_total_rows(b@, at_least(e));
}

/// A move keeps the cap.
pub proof fn law_move_keeps_cap(b: Board, dir: Dir, m: Board, cap: int)
    requires
        b.capped(cap),
        18 <= cap <= 255,
        m@ == b.slide(dir),
    ensures
        m.capped(cap),
{
    law_cap_bounds_tiles(b, cap);
    lemma_slide_measures(b, dir, m);
    assert forall|e: int| e >= 1 implies #[trigger] m.count(e) <= (if e < cap {
        cap - e
    } else {
        0
    }) by {
        if e == 1 {
            lemma_count_at_most_cells(m, e);
        } else {
            assert(2 * m.count(e) <= b.count(e) + b.count(e - 1));
            lemma_count_at_most_cells(m, e);
        }
    }
}

/// The measures of a board after a tile appeared on one of its empty cells.
proof fn lemma_spawn_measures(a: Board, b: Board, pick: int, word: u64)
    requires
        0 <= pick < a.empties().len(),
        b@ == a.with_tile(pick, word),
    ensures
        b.tile_sum() == a.tile_sum() + (if tile_of_word(word) == 1 { 2int } else { 4int }),
        b.worth() == a.worth() + (if tile_of_word(word) == 1 { 0int } else { 4int }),
        forall|e: int| e >= 3 ==> #[trigger] b.count(e) == a.count(e),
{
    lemma_empties_are_empty(a@, 16);
    lemma2_to64();
    lemma_total_rows(a@, value_of());
    lemma_total_rows(b@, value_of());
    lemma_total_rows(a@, worth_of());
    lemma_total_rows(b@, worth_of());
    let c = a.empties()[pick];
    assert(a@[c] == 0);
    assert forall|e: int| e >= 3 implies #[trigger] b.count(e) == a.count(e) by {
        lemma_total_rows(a@, at_least(e));
        lemma_total_rows(b@, at_least(e));
    }
}

/// A new tile keeps the cap.
pub proof fn law_spawn_keeps_cap(a: Board, b: Board, cap: int)
    requires
        a.capped(cap),
        18 <= cap,
        is_spawn(a, b),
    ensures
        b.capped(cap),
{
    if a.empties().len() > 0 {
        let (pick, word) = choose|pick: int, word: u64|
            0 <= pick < a.empties().len() && b@ == #[trigger] a.with_tile(pick, word);
        lemma_spawn_measures(a, b, pick, word);
        assert forall|e: int| e >= 1 implies #[trigger] b.count(e) <= (if e < cap {
            cap - e
        } else {
            0
        }) by {
            if e <= 2 {
                lemma_count_at_most_cells(b, e);
            } else {
                assert(b.count(e) == a.count(e));
            }
        }
    }
}

/// A new tile adds 2 or 4 to the sum of the tiles, and nothing or 4 to their worth,
/// wherever there is room for it.
pub proof fn law_spawn_adds_a_tile(a: Board, b: Board)
    requires
        is_spawn(a, b),
        a.empties().len() > 0,
    ensures
        a.tile_sum() + 2 <= b.tile_sum() <= a.tile_sum() + 4,
        a.worth() <= b.worth() <= a.worth() + 4,
        b.worth() - a.worth() == 2 * (b.tile_sum() - a.tile_sum() - 2),
{
    let (pick, word) = choose|pick: int, word: u64|
        0 <= pick < a.empties().len() && b@ == #[trigger] a.with_tile(pick, word);
    lemma_spawn_measures(a, b, pick, word);
}

/// A starting board holds two tiles out of twos and fours, and lies below the cap of
/// a game.
pub proof fn law_initial_board(b: Board)
    requires
        is_initial(b),
    ensures
        b.capped(GAME_CAP as int),
        4 <= b.tile_sum() <= 8,
        b.worth() == 2 * (b.tile_sum() - 4),
{
    let (none, one) = choose|none: Board, one: Board|
        none@ == Seq::new(16, |i: int| 0u8) && #[trigger] is_spawn(none, one) && #[trigger] is_spawn(
            one,
            b,
        );
    lemma_total_rows(none@, value_of());
    lemma_total_rows(none@, worth_of());
    assert forall|e: int| e >= 1 implies #[trigger] none.count(e) <= (if e < GAME_CAP {
        GAME_CAP - e
    } else {
        0
    }) by {
        lemma_total_rows(none@, at_least(e));
    }
    law_spawn_keeps_cap(none, one, GAME_CAP as int);
    law_spawn_keeps_cap(one, b, GAME_CAP as int);
    lemma_empties_are_empty(none@, 16);
    assert(none@[0] == 0);
    law_spawn_adds_a_tile(none, one);
    assert(one.empties().len() > 0) by {
        if one.empties().len() == 0 {
            let (pick, word) = choose|pick: int, word: u64|
                0 <= pick < none.empties().len() && one@ == #[trigger] none.with_tile(pick, word);
            let c = none.empties()[pick];
            let d = if c == 0 { 1int } else { 0int };
            assert(none@[d] == 0);
            assert(one@[d] == 0);
            lemma_empties_are_empty(one@, 16);
        }
    }
    law_spawn_adds_a_tile(one, b);
}

/// A board below the cap of a game lies below any higher cap.
pub proof fn law_caps_are_ordered(b: Board, low: int, high: int)
    requires
        b.capped(low),
        low <= high,
    ensures
        b.capped(high),
{
    assert forall|e: int| e >= 1 implies #[trigger] b.count(e) <= (if e < high {
        high - e
    } else {
        0
    }) by {}
}

/// The tiles of a game never grow past `2^17`: no board below the cap of a game shows
/// a larger number than 131072.
pub proof fn law_largest_tile_of_a_game(b: Board)
    requires
        b.capped(GAME_CAP as int),
    ensures
        b.top() <= 17,
        tile_value(b.top()) <= 131_072,
        forall|i: int| 0 <= i < 16 ==> tile_value(#[trigger] b@[i]) <= 131_072,
{
    law_cap_bounds_tiles(b, GAME_CAP as int);
    lemma_top_bound(b, 16, 17);
    lemma2_to64();
    assert forall|e: u8| e <= 17 implies #[trigger] tile_value(e) <= 131_072 by {
        if 0 < e < 17 {
            lemma_pow2_strictly_increases(e as nat, 17);
        }
    }
}

proof fn lemma_top_bound(b: Board, n: nat, bound: int)
    requires
        n <= 16,
        0 <= bound,
        forall|i: int| 0 <= i < 16 ==> #[trigger] b@[i] <= bound,
    ensures
        b.top_among(n) <= bound,
    decreases n,
{
    if n > 0 {
        lemma_top_bound(b, (n - 1) as nat, bound);
    }
}

/// Below the headroom the tiles, their sum and their worth all fit in 64 bits.
pub proof fn law_headroom_bounds(b: Board)
    requires
        b.has_headroom(),
    ensures
        forall|i: int| 0 <= i < 16 ==> #[trigger] b@[i] <= 54,
        forall|i: int| 0 <= i < 16 ==> tile_value(#[trigger] b@[i]) <= u64::MAX,
        tile_value(b.top()) <= u64::MAX,
        0 <= b.tile_sum() <= MAX_TILE_SUM,
        0 <= b.worth() <= MAX_WORTH,
{
    law_cap_bounds_tiles(b, HEADROOM as int);
    lemma_top_bound(b, 16, 54);
    let p = pow2(54) as int;
    lemma2_to64_rest();
    assert forall|e: u8| e <= 54 implies 0 <= #[trigger] tile_value(e) <= p && 0 <= worth_of()(e) <= 53
        * p by {
        if e > 0 {
            lemma_pow2_pos(e as nat);
            if e < 54 {
                lemma_pow2_strictly_increases(e as nat, 54);
            }
            let q = pow2(e as nat) as int;
            let k = e as int;
            assert(0 <= (k - 1) * q <= 53 * p) by (nonlinear_arith)
                requires
                    1 <= k <= 54,
                    0 < q <= p,
            ;
        }
    }
    lemma_total_rows(b@, value_of());
    lemma_total_rows(b@, worth_of());
    assert forall|i: int| 0 <= i < 16 implies tile_value(#[trigger] b@[i]) <= p && 0 <= worth_of()(b@[i])
        <= 53 * p by {}
    let s = b@;
    assert(tile_value(s[0]) <= p && tile_value(s[1]) <= p && tile_value(s[2]) <= p && tile_value(s[3]) <= p);
    assert(tile_value(s[4]) <= p && tile_value(s[5]) <= p && tile_value(s[6]) <= p && tile_value(s[7]) <= p);
    assert(tile_value(s[8]) <= p && tile_value(s[9]) <= p && tile_value(s[10]) <= p && tile_value(s[11]) <= p);
    assert(tile_value(s[12]) <= p && tile_value(s[13]) <= p && tile_value(s[14]) <= p && tile_value(s[15]) <= p);
}

/// The sum of the tiles of a board below the cap of a game.
pub proof fn lemma_capped_tile_sum(b: Board)
    requires
        b.capped(GAME_CAP as int),
    ensures
        b.tile_sum() <= 2_097_152,
{
    law_largest_tile_of_a_game(b);
    lemma_total_rows(b@, value_of());
    let s = b@;
    let p: int = 131_072;
    assert(tile_value(s[0]) <= p && tile_value(s[1]) <= p && tile_value(s[2]) <= p && tile_value(s[3]) <= p);
    assert(tile_value(s[4]) <= p && tile_value(s[5]) <= p && tile_value(s[6]) <= p && tile_value(s[7]) <= p);
    assert(tile_value(s[8]) <= p && tile_value(s[9]) <= p && tile_value(s[10]) <= p && tile_value(s[11]) <= p);
    assert(tile_value(s[12]) <= p && tile_value(s[13]) <= p && tile_value(s[14]) <= p && tile_value(s[15]) <= p);
}

/// A move keeps the sum of the tiles and adds its score to their worth, and the moved
/// board is below the headroom again.
pub proof fn law_move_conserves(b: Board, dir: Dir, m: Board)
    requires
        b.has_headroom(),
        m@ == b.slide(dir),
    ensures
        m.has_headroom(),
        m.tile_sum() == b.tile_sum(),
        m.worth() == b.worth() + b.slide_score(dir),
{
    law_headroom_bounds(b);
    lemma_slide_measures(b, dir, m);
    law_move_keeps_cap(b, dir, m, HEADROOM as int);
}

/// The board with the given cells.
pub open spec fn board_of(cells: Seq<u8>) -> Board {
    Board(filled(cells, 16))
}

/// The first `n` cells put into an array, the rest empty.
pub open spec fn filled(cells: Seq<u8>, n: nat) -> [u8; 16]
    decreases n,
{
    if n == 0 {
        vstd::array::spec_array_fill_for_copy_type::<u8, 16>(0u8)
    } else {
        vstd::array::spec_array_update(filled(cells, (n - 1) as nat), n - 1, cells[n - 1])
    }
}

proof fn lemma_filled(cells: Seq<u8>, n: nat)
    requires
        n <= 16,
        cells.len() == 16,
    ensures
        forall|i: int| 0 <= i < n ==> #[trigger] filled(cells, n)@[i] == cells[i],
    decreases n,
{
    if n > 0 {
        lemma_filled(cells, (n - 1) as nat);
        let prior = filled(cells, (n - 1) as nat);
        assert(filled(cells, n)@ == prior@.update(n - 1, cells[n - 1]));
        assert forall|i: int| 0 <= i < n implies #[trigger] filled(cells, n)@[i] == cells[i] by {
            if i < n - 1 {
                assert(prior@[i] == cells[i]);
            }
        }
    }
}

/// Every sixteen cells are the cells of a board.
pub proof fn lemma_board_of(cells: Seq<u8>)
    requires
        cells.len() == 16,
    ensures
        board_of(cells)@ == cells,
{
    lemma_filled(cells, 16);
    assert(board_of(cells)@ =~= cells);
}

/// A legal move always leaves an empty cell for the next tile.
pub proof fn law_legal_move_leaves_room(b: Board, dir: Dir, m: Board)
    requires
        b.legal(dir),
        m@ == b.slide(dir),
    ensures
        m.empties().len() > 0,
{
    b.lemma_legal_by_lines(dir);
    let l = choose|l: int| 0 <= l < 4 && slid(#[trigger] b.line(dir, l)) != b.line(dir, l);
    lemma_changed_line_has_room(b.line(dir, l));
    lemma_slid_len(b.line(dir, l));
    let c = cell(dir, l, 3);
    assert(line_of(dir, c) == l && pos_of(dir, c) == 3);
    assert(m@[c] == 0);
    lemma_empties_are_empty(m@, 16);
}

/// Every move scores a multiple of four.
pub proof fn law_scores_are_of_fours(b: Board, dir: Dir)
    ensures
        b.slide_score(dir) % 4 == 0,
{
    lemma_first_scores_are_of_fours(b, dir, 4);
}

proof fn lemma_first_scores_are_of_fours(b: Board, dir: Dir, n: nat)
    ensures
        b.score_of_lines(dir, n) % 4 == 0,
    decreases n,
{
    if n > 0 {
        lemma_first_scores_are_of_fours(b, dir, (n - 1) as nat);
        lemma_tiles_bounds(b.line(dir, n - 1));
        lemma_gain_is_of_fours(tiles(b.line(dir, n - 1)));
    }
}

/// The empty cells are those that hold no tile.
proof fn lemma_empty_cells(cells: Seq<u8>, n: nat)
    requires
        n <= cells.len(),
    ensures
        empty_among(cells, n).len() == n - total(cells.take(n as int), at_least(1)),
    decreases n,
{
    if n > 0 {
        lemma_empty_cells(cells, (n - 1) as nat);
        assert(cells.take(n as int).drop_last() =~= cells.take(n - 1));
        assert(cells.take(n as int).last() == cells[n - 1]);
    } else {
        assert(cells.take(0) =~= Seq::<u8>::empty());
    }
}

/// Sixteen cells less those that hold a tile are empty.
proof fn lemma_empties_count(b: Board)
    ensures
        b.empties().len() == 16 - b.count(1),
{
    lemma_empty_cells(b@, 16);
    assert(b@.take(16) =~= b@);
}

/// A move fills no cell: at least as many are empty after it.
pub proof fn law_moves_fill_no_cell(b: Board, dir: Dir, m: Board)
    requires
        m@ == b.slide(dir),
    ensures
        m.empties().len() >= b.empties().len(),
{
    lemma_empties_count(b);
    lemma_empties_count(m);
    lemma_total_lines(b, dir, at_least(1));
    lemma_total_lines(m, dir, at_least(1));
    assert forall|l: int| 0 <= l < 4 implies total(m.line(dir, l), at_least(1)) <= total(
        #[trigger] b.line(dir, l),
        at_least(1),
    ) by {
        lemma_moved_lines(b, dir, m, l);
        lemma_slid_holds_no_more(b.line(dir, l));
    }
    assert(total(m.line(dir, 0), at_least(1)) <= total(b.line(dir, 0), at_least(1)));
    assert(total(m.line(dir, 1), at_least(1)) <= total(b.line(dir, 1), at_least(1)));
    assert(total(m.line(dir, 2), at_least(1)) <= total(b.line(dir, 2), at_least(1)));
    assert(total(m.line(dir, 3), at_least(1)) <= total(b.line(dir, 3), at_least(1)));
}

/// A new tile fills one empty cell and changes no other.
pub proof fn law_spawn_fills_one_cell(a: Board, b: Board)
    requires
        is_spawn(a, b),
        a.empties().len() > 0,
    ensures
        b.empties().len() == a.empties().len() - 1,
        exists|c: int|
            0 <= c < 16 && #[trigger] a@[c] == 0 && b@ == a@.update(c, b@[c]) && (b@[c] == 1 || b@[c]
                == 2),
{
    let (pick, word) = choose|pick: int, word: u64|
        0 <= pick < a.empties().len() && b@ == #[trigger] a.with_tile(pick, word);
    lemma_empties_are_empty(a@, 16);
    let c = a.empties()[pick];
    assert(a@[c] == 0);
    assert(b@ =~= a@.update(c, b@[c]));
    lemma_one_cell_fewer(a@, c, b@[c], 16);
}

proof fn lemma_one_cell_fewer(cells: Seq<u8>, c: int, e: u8, n: nat)
    requires
        0 <= c < cells.len(),
        n <= cells.len(),
        cells[c] == 0,
        e != 0,
    ensures
        empty_among(cells.update(c, e), n).len() == empty_among(cells, n).len() - (if c < n {
            1int
        } else {
            0
        }),
    decreases n,
{
    if n > 0 {
        lemma_one_cell_fewer(cells, c, e, (n - 1) as nat);
    }
}

/// The direction across the board.
pub open spec fn opposite(dir: Dir) -> Dir {
    match dir {
        Dir::Up => Dir::Down,
        Dir::Down => Dir::Up,
        Dir::Left => Dir::Right,
        Dir::Right => Dir::Left,
    }
}

/// A move that scores is legal, and so is the move in the opposite direction, which scores
/// the same.
pub proof fn law_opposite_moves_score_the_same(b: Board, dir: Dir)
    ensures
        b.slide_score(opposite(dir)) == b.slide_score(dir),
        b.slide_score(dir) > 0 ==> b.legal(dir) && b.legal(opposite(dir)),
{
    lemma_lines_score_both_ways(b, dir, 4);
    if b.slide_score(dir) > 0 {
        lemma_scoring_is_legal(b, dir, 4);
        lemma_scoring_is_legal(b, opposite(dir), 4);
    }
}

proof fn lemma_lines_score_both_ways(b: Board, dir: Dir, n: nat)
    requires
        n <= 4,
    ensures
        b.score_of_lines(opposite(dir), n) == b.score_of_lines(dir, n),
    decreases n,
{
    if n > 0 {
        lemma_lines_score_both_ways(b, dir, (n - 1) as nat);
        let line = b.line(dir, n - 1);
        assert(b.line(opposite(dir), n - 1) =~= line.reverse());
        lemma_line_scores_both_ways(line);
    }
}

proof fn lemma_scoring_is_legal(b: Board, dir: Dir, n: nat)
    requires
        n <= 4,
        b.score_of_lines(dir, n) > 0,
    ensures
        b.legal(dir),
    decreases n,
{
    if n > 0 {
        if b.score_of_lines(dir, (n - 1) as nat) > 0 {
            lemma_scoring_is_legal(b, dir, (n - 1) as nat);
        } else {
            lemma_slid_holds_no_more(b.line(dir, n - 1));
            assert(slid(b.line(dir, n - 1)) != b.line(dir, n - 1));
            b.lemma_legal_by_lines(dir);
        }
    }
}

/// A board that holds a tile and has an empty cell has a legal move.
pub proof fn law_room_leaves_a_move(b: Board, empty: int, held: int)
    requires
        0 <= empty < 16,
        0 <= held < 16,
        b@[empty] == 0,
        b@[held] != 0,
        forall|c: int| 0 <= c < 16 ==> #[trigger] b@[c] < 255,
    ensures
        !b.stuck(),
{
    let row = empty / 4;
    if exists|p: int| 0 <= p < 4 && #[trigger] b.line(Dir::Left, row)[p] != 0 {
        let p = choose|p: int| 0 <= p < 4 && #[trigger] b.line(Dir::Left, row)[p] != 0;
        lemma_loose_line_is_a_move(b, Dir::Left, row, empty % 4, p);
    } else {
        let column = held % 4;
        assert(b.line(Dir::Left, row)[column] == 0);
        assert(b.line(Dir::Up, column)[row] == b@[column + 4 * row]);
        assert(b.line(Dir::Up, column)[held / 4] == b@[held]);
        lemma_loose_line_is_a_move(b, Dir::Up, column, row, held / 4);
    }
}

proof fn lemma_loose_line_is_a_move(b: Board, dir: Dir, l: int, empty: int, held: int)
    requires
        0 <= l < 4,
        0 <= empty < 4,
        0 <= held < 4,
        b.line(dir, l)[empty] == 0,
        b.line(dir, l)[held] != 0,
        forall|c: int| 0 <= c < 16 ==> #[trigger] b@[c] < 255,
    ensures
        !b.stuck(),
{
    let line = b.line(dir, l);
    assert forall|i: int| 0 <= i < line.len() implies #[trigger] line[i] < 255 by {
        assert(0 <= cell(dir, l, i) < 16);
        assert(b@[cell(dir, l, i)] < 255);
    }
    assert(b.line(opposite(dir), l) =~= line.reverse());
    lemma_loose_line_moves(line, empty, held);
    b.lemma_legal_by_lines(dir);
    b.lemma_legal_by_lines(opposite(dir));
    if slid(line) != line {
        assert(b.legal(dir));
    } else {
        assert(slid(b.line(opposite(dir), l)) != b.line(opposite(dir), l));
        assert(b.legal(opposite(dir)));
    }
}

/// A game starts with two tiles on the board, and with a legal move.
pub proof fn law_games_start_with_a_move(b: Board)
    requires
        is_initial(b),
    ensures
        b.empties().len() == 14,
        !b.stuck(),
{
    let (none, one) = choose|none: Board, one: Board|
        none@ == Seq::new(16, |i: int| 0u8) && #[trigger] is_spawn(none, one) && #[trigger] is_spawn(
            one,
            b,
        );
    lemma_total_rows(none@, at_least(1));
    lemma_empties_count(none);
    law_spawn_fills_one_cell(none, one);
    law_spawn_fills_one_cell(one, b);
    lemma_empties_count(b);
    lemma_empties_are_empty(b@, 16);
    lemma_total_rows(b@, at_least(1));
    let held = choose|c: int| 0 <= c < 16 && #[trigger] b@[c] != 0;
    law_initial_board(b);
    law_cap_bounds_tiles(b, GAME_CAP as int);
    law_room_leaves_a_move(b, b.empties()[0], held);
}

} // verus!
