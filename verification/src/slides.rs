//! What sliding does to a line and to a board, told without following the tiles step by step:
//! which tiles join, which do not, where each ends, when a direction is open, and where a new tile
//! appears.

use crate::board::{cell, empty_among, line_of, pos_of, spawned, Board, Dir};
use crate::line::{lemma_slid_len, lemma_tiles_bounds, merge_gain, merged, slid, slide_gain, tiles};
use crate::random::{draws_below, draws_word};
use rand::rngs::SmallRng;
use vstd::arithmetic::power2::pow2;
use vstd::prelude::*;

verus! {

/// `at` are the places of the tiles of a line, in order.
pub open spec fn are_places(line: Seq<u8>, at: Seq<int>) -> bool {
    &&& forall|j: int| 0 <= j < at.len() ==> 0 <= #[trigger] at[j] < line.len() && line[at[j]] != 0
    &&& forall|i: int, j: int| 0 <= i < j < at.len() ==> at[i] < at[j]
    &&& forall|c: int| 0 <= c < line.len() && #[trigger] line[c] != 0 ==> at.contains(c)
}

/// What stands at the places of a line.
pub open spec fn picked(line: Seq<u8>, at: Seq<int>) -> Seq<u8> {
    Seq::new(at.len(), |j: int| line[at[j]])
}

/// Where group `j` of the tiles ends.
pub open spec fn group_end(starts: Seq<int>, count: int, j: int) -> int {
    if j + 1 < starts.len() {
        starts[j + 1]
    } else {
        count
    }
}

/// Group `j` of the tiles becomes `out`: two equal tiles become one of twice the value, and a tile
/// on its own stays as it is, which it is only where the next tile differs.
pub open spec fn is_group(t: Seq<u8>, starts: Seq<int>, j: int, out: u8) -> bool {
    let a = starts[j];
    let b = group_end(starts, t.len() as int, j);
    ||| b == a + 2 && t[a] == t[a + 1] && out == t[a] + 1
    ||| b == a + 1 && out == t[a] && (b < t.len() ==> t[b] != t[a])
}

/// The tiles fall into groups from the front, without a gap, and each becomes one tile.
pub open spec fn are_groups(t: Seq<u8>, starts: Seq<int>, out: Seq<u8>) -> bool {
    &&& starts.len() == out.len()
    &&& t.len() > 0 ==> starts.len() > 0 && starts[0] == 0
    &&& t.len() == 0 ==> starts.len() == 0
    &&& forall|j: int| 0 <= j < starts.len() ==> 0 <= #[trigger] starts[j] < t.len()
    &&& forall|j: int| 0 <= j < out.len() ==> is_group(t, starts, j, #[trigger] out[j])
}

/// What the groups score: each that joins two tiles, the tile that comes of it.
pub open spec fn group_score(starts: Seq<int>, count: int, out: Seq<u8>, n: nat) -> nat
    decreases n,
{
    if n == 0 {
        0
    } else {
        group_score(starts, count, out, (n - 1) as nat) + if group_end(starts, count, n - 1)
            == starts[n - 1] + 2 {
            pow2(out[n - 1] as nat)
        } else {
            0
        }
    }
}

/// The groups of tiles, found from the front.
proof fn lemma_groups(t: Seq<u8>) -> (starts: Seq<int>)
    requires
        forall|i: int| 0 <= i < t.len() ==> #[trigger] t[i] < 255,
    ensures
        are_groups(t, starts, merged(t)),
        group_score(starts, t.len() as int, merged(t), starts.len()) == merge_gain(t),
    decreases t.len(),
{
    let out = merged(t);
    if t.len() == 0 {
        Seq::empty()
    } else if t.len() == 1 {
        let starts = seq![0int];
        reveal_with_fuel(group_score, 2);
        assert(is_group(t, starts, 0, out[0]));
        starts
    } else {
        let k: int = if t[0] == t[1] {
            2
        } else {
            1
        };
        let rest = t.skip(k);
        let below = lemma_groups(rest);
        let starts = seq![0int] + Seq::new(below.len(), |j: int| below[j] + k);
        let after = merged(rest);
        assert(out =~= seq![out[0]] + after);
        assert forall|j: int| 0 <= j < starts.len() implies 0 <= #[trigger] starts[j] < t.len() by {
            if j > 0 {
                assert(0 <= below[j - 1] < rest.len());
            }
        }
        assert forall|j: int| 0 <= j < out.len() implies is_group(t, starts, j, #[trigger] out[j]) by {
            if j > 0 {
                assert(is_group(rest, below, j - 1, after[j - 1]));
                assert(group_end(starts, t.len() as int, j) == group_end(
                    below,
                    rest.len() as int,
                    j - 1,
                ) + k);
                let a = below[j - 1];
                assert(0 <= a < rest.len());
                assert(t[a + k] == rest[a]);
                if a + 1 < rest.len() {
                    assert(t[a + k + 1] == rest[a + 1]);
                }
            } else {
                if rest.len() > 0 {
                    assert(below.len() > 0);
                    assert(starts[1] == k);
                }
            }
        }
        lemma_score_shifts(below, rest.len() as int, after, k, out[0], below.len());
        assert(starts == seq![0int] + Seq::new(below.len(), |j: int| below[j] + k));
        reveal_with_fuel(group_score, 2);
        starts
    }
}

/// What groups score does not depend on where they lie; a first group comes on top.
proof fn lemma_score_shifts(below: Seq<int>, count: int, after: Seq<u8>, k: int, first: u8, n: nat)
    requires
        below.len() == after.len(),
        n <= below.len(),
        1 <= k <= 2,
        count >= 0,
        count > 0 ==> below.len() > 0 && below[0] == 0,
        count == 0 ==> below.len() == 0,
    ensures
        group_score(
            seq![0int] + Seq::new(below.len(), |j: int| below[j] + k),
            count + k,
            seq![first] + after,
            n + 1,
        ) == (if k == 2 {
            pow2(first as nat)
        } else {
            0
        }) + group_score(below, count, after, n),
    decreases n,
{
    let starts = seq![0int] + Seq::new(below.len(), |j: int| below[j] + k);
    let out = seq![first] + after;
    reveal_with_fuel(group_score, 2);
    if n == 0 {
        if below.len() > 0 {
            assert(starts[1] == k);
        }
    } else {
        lemma_score_shifts(below, count, after, k, first, (n - 1) as nat);
        assert(starts[n as int] == below[n - 1] + k);
        assert(out[n as int] == after[n - 1]);
        if n < below.len() {
            assert(starts[n as int + 1] == below[n as int] + k);
        }
        assert(group_end(starts, count + k, n as int) == group_end(below, count, n - 1) + k);
    }
}

/// The places of the tiles of a line.
proof fn lemma_places(line: Seq<u8>) -> (at: Seq<int>)
    ensures
        are_places(line, at),
        at.len() == tiles(line).len(),
        forall|j: int| 0 <= j < at.len() ==> tiles(line)[j] == line[#[trigger] at[j]],
    decreases line.len(),
{
    reveal(Seq::filter);
    if line.len() == 0 {
        Seq::empty()
    } else {
        let front = line.drop_last();
        let n = front.len() as int;
        let below = lemma_places(front);
        assert(forall|c: int| 0 <= c < n ==> front[c] == line[c]);
        if line.last() != 0 {
            let at = below.push(n);
            assert(tiles(line) == tiles(front).push(line.last()));
            assert forall|c: int| 0 <= c < line.len() && #[trigger] line[c] != 0 implies at.contains(c) by {
                if c < n {
                    assert(front[c] != 0);
                    let j = choose|j: int| 0 <= j < below.len() && below[j] == c;
                    assert(at[j] == c);
                } else {
                    assert(at[below.len() as int] == c);
                }
            }
            assert forall|j: int| 0 <= j < at.len() implies 0 <= #[trigger] at[j] < line.len()
                && line[at[j]] != 0 && tiles(line)[j] == line[at[j]] by {
                if j < below.len() {
                    assert(at[j] == below[j]);
                }
            }
            at
        } else {
            assert(tiles(line) == tiles(front));
            assert forall|c: int| 0 <= c < line.len() && #[trigger] line[c] != 0 implies below.contains(c) by {
                assert(front[c] != 0);
            }
            below
        }
    }
}

/// `out` is a line after its tiles slid to the front, and `gain` what that scored. The tiles keep
/// their order and fall into groups from the front: two equal neighbours join to one tile of
/// twice the value and score it, once each, and a tile that differs from the next stays as it is.
/// Behind them the line is empty.
pub open spec fn is_slide(line: Seq<u8>, out: Seq<u8>, gain: nat) -> bool {
    exists|at: Seq<int>, starts: Seq<int>|
        {
            &&& #[trigger] are_places(line, at)
            &&& out.len() == line.len()
            &&& starts.len() <= out.len()
            &&& #[trigger] are_groups(picked(line, at), starts, out.take(starts.len() as int))
            &&& forall|j: int| starts.len() <= j < out.len() ==> #[trigger] out[j] == 0
            &&& gain == group_score(starts, at.len() as int, out.take(starts.len() as int), starts.len())
        }
}

/// Sliding a line joins each pair of equal neighbours once, from the side to which the tiles
/// slide, and moves the rest up.
pub proof fn law_lines_join_pairs(line: Seq<u8>)
    requires
        forall|i: int| 0 <= i < line.len() ==> #[trigger] line[i] < 255,
    ensures
        is_slide(line, slid(line), slide_gain(line)),
{
    let at = lemma_places(line);
    let t = tiles(line);
    assert(t =~= picked(line, at));
    assert forall|i: int| 0 <= i < t.len() implies #[trigger] t[i] < 255 by {
        assert(t[i] == line[at[i]]);
    }
    let starts = lemma_groups(t);
    lemma_slid_len(line);
    lemma_tiles_bounds(line);
    let out = slid(line);
    assert(starts.len() == merged(t).len());
    assert(out.take(starts.len() as int) =~= merged(t));
    assert(are_groups(picked(line, at), starts, out.take(starts.len() as int)));
}

/// A tile has an empty cell somewhere before it.
pub open spec fn has_gap(line: Seq<u8>) -> bool {
    exists|i: int, j: int| 0 <= i < j < line.len() && #[trigger] line[i] == 0 && #[trigger] line[j] != 0
}

/// Two neighbours are equal tiles.
pub open spec fn has_pair(line: Seq<u8>) -> bool {
    exists|i: int, j: int|
        0 <= i < j < line.len() && j == i + 1 && #[trigger] line[i] != 0 && #[trigger] line[j] == line[i]
}

proof fn lemma_without_pair(t: Seq<u8>)
    requires
        forall|i: int, j: int| 0 <= i < j < t.len() && j == i + 1 ==> #[trigger] t[i] != #[trigger] t[j],
    ensures
        merged(t) == t,
    decreases t.len(),
{
    if t.len() >= 2 {
        let rest = t.skip(1);
        assert(t[0] != t[1]);
        assert forall|i: int, j: int| 0 <= i < j < rest.len() && j == i + 1 implies #[trigger] rest[i]
            != #[trigger] rest[j] by {
            assert(rest[i] == t[i + 1] && rest[j] == t[j + 1]);
        }
        lemma_without_pair(rest);
        assert(merged(t) =~= t);
    }
}

proof fn lemma_with_pair(t: Seq<u8>, i: int)
    requires
        0 <= i < t.len() - 1,
        t[i] == t[i + 1],
    ensures
        merged(t).len() < t.len(),
    decreases t.len(),
{
    if t[0] == t[1] {
        lemma_merged_is_shorter(t.skip(2));
    } else {
        let rest = t.skip(1);
        assert(rest[i - 1] == t[i] && rest[i] == t[i + 1]);
        lemma_with_pair(rest, i - 1);
    }
}

proof fn lemma_merged_is_shorter(t: Seq<u8>)
    ensures
        merged(t).len() <= t.len(),
    decreases t.len(),
{
    if t.len() >= 2 {
        if t[0] == t[1] {
            lemma_merged_is_shorter(t.skip(2));
        } else {
            lemma_merged_is_shorter(t.skip(1));
        }
    }
}

/// Without a gap the tiles are the front of the line.
proof fn lemma_without_gap(line: Seq<u8>)
    requires
        !has_gap(line),
    ensures
        tiles(line) == line.take(tiles(line).len() as int),
        forall|i: int| tiles(line).len() <= i < line.len() ==> #[trigger] line[i] == 0,
        tiles(line).len() <= line.len(),
    decreases line.len(),
{
    reveal(Seq::filter);
    if line.len() > 0 {
        let front = line.drop_last();
        let n = front.len() as int;
        assert(!has_gap(front)) by {
            if has_gap(front) {
                let (i, j) = choose|i: int, j: int|
                    0 <= i < j < front.len() && #[trigger] front[i] == 0 && #[trigger] front[j] != 0;
                assert(line[i] == 0 && line[j] != 0);
            }
        }
        lemma_without_gap(front);
        let k = tiles(front).len() as int;
        if line.last() != 0 {
            if k < n {
                assert(front[k] == 0);
                assert(line[k] == 0 && line[n] != 0);
            }
            assert(tiles(line) =~= line.take(n + 1));
        } else {
            assert(tiles(line) =~= line.take(k));
            assert forall|i: int| k <= i < line.len() implies #[trigger] line[i] == 0 by {
                if i < n {
                    assert(front[i] == 0);
                }
            }
        }
    }
}

/// A line changes when it slides exactly where a tile has an empty cell somewhere before it or two
/// neighbours are equal tiles.
pub proof fn law_open_lines_have_a_gap_or_a_pair(line: Seq<u8>)
    requires
        forall|i: int| 0 <= i < line.len() ==> #[trigger] line[i] < 255,
    ensures
        slid(line) != line <==> has_gap(line) || has_pair(line),
{
    lemma_slid_len(line);
    lemma_tiles_bounds(line);
    let t = tiles(line);
    let m = merged(t);
    if has_gap(line) {
        if slid(line) == line {
            let (i, j) = choose|i: int, j: int|
                0 <= i < j < line.len() && #[trigger] line[i] == 0 && #[trigger] line[j] != 0;
            let at = lemma_places(line);
            assert forall|c: int| 0 <= c < t.len() implies 0 < #[trigger] t[c] < 255 by {
                assert(t[c] == line[at[c]]);
            }
            lemma_merged_holds_tiles(t);
            if i < m.len() {
                assert(slid(line)[i] == m[i]);
            } else {
                assert(slid(line)[j] == 0);
            }
        }
    } else {
        lemma_without_gap(line);
        if has_pair(line) {
            let (i, j) = choose|i: int, j: int|
                0 <= i < j < line.len() && j == i + 1 && #[trigger] line[i] != 0 && #[trigger] line[j]
                    == line[i];
            assert(j < t.len());
            assert(t[i] == line[i] && t[j] == line[j]);
            lemma_with_pair(t, i);
            let c = t.len() - 1;
            assert(slid(line)[c] == 0);
            assert(line[c] == t[c]);
        } else {
            assert forall|i: int, j: int| 0 <= i < j < t.len() && j == i + 1 implies #[trigger] t[i]
                != #[trigger] t[j] by {
                assert(t[i] == line[i] && t[j] == line[j]);
            }
            lemma_without_pair(t);
            assert(slid(line) =~= line);
        }
    }
}

proof fn lemma_merged_holds_tiles(t: Seq<u8>)
    requires
        forall|i: int| 0 <= i < t.len() ==> 0 < #[trigger] t[i] < 255,
    ensures
        forall|i: int| 0 <= i < merged(t).len() ==> #[trigger] merged(t)[i] != 0,
    decreases t.len(),
{
    if t.len() >= 2 {
        let k: int = if t[0] == t[1] {
            2
        } else {
            1
        };
        let rest = t.skip(k);
        assert forall|i: int| 0 <= i < rest.len() implies 0 < #[trigger] rest[i] < 255 by {
            assert(rest[i] == t[i + k]);
        }
        lemma_merged_holds_tiles(rest);
        assert forall|i: int| 0 <= i < merged(t).len() implies #[trigger] merged(t)[i] != 0 by {
            if i > 0 {
                assert(merged(t)[i] == merged(rest)[i - 1]);
            }
        }
    }
}

/// A direction is legal exactly where one of its lines is open: read from the side to which the
/// tiles slide, it holds a tile with an empty cell somewhere before it, or two equal neighbours.
pub proof fn law_legal_directions_have_an_open_line(b: Board, dir: Dir)
    requires
        forall|c: int| 0 <= c < 16 ==> #[trigger] b@[c] < 255,
    ensures
        b.legal(dir) <==> exists|l: int|
            0 <= l < 4 && (has_gap(#[trigger] b.line(dir, l)) || has_pair(b.line(dir, l))),
{
    assert forall|l: int| 0 <= l < 4 implies (slid(#[trigger] b.line(dir, l)) != b.line(dir, l) <==> (
    has_gap(b.line(dir, l)) || has_pair(b.line(dir, l)))) by {
        let line = b.line(dir, l);
        assert forall|i: int| 0 <= i < line.len() implies #[trigger] line[i] < 255 by {
            assert(line[i] == b@[cell(dir, l, i)]);
        }
        law_open_lines_have_a_gap_or_a_pair(line);
    }
    let moved = b.slide(dir);
    if exists|l: int| 0 <= l < 4 && slid(#[trigger] b.line(dir, l)) != b.line(dir, l) {
        let l = choose|l: int| 0 <= l < 4 && slid(#[trigger] b.line(dir, l)) != b.line(dir, l);
        let line = b.line(dir, l);
        lemma_slid_len(line);
        if moved == b@ {
            assert forall|p: int| 0 <= p < 4 implies slid(line)[p] == line[p] by {
                let c = cell(dir, l, p);
                lemma_cells(dir, l, p);
                assert(moved[c] == slid(line)[p]);
            }
            assert(slid(line) =~= line);
        }
    } else {
        assert forall|c: int| 0 <= c < 16 implies moved[c] == b@[c] by {
            let l = line_of(dir, c);
            lemma_lines(dir, c);
            assert(slid(b.line(dir, l)) == b.line(dir, l));
        }
        assert(moved =~= b@);
    }
}

proof fn lemma_cells(dir: Dir, l: int, p: int)
    requires
        0 <= l < 4,
        0 <= p < 4,
    ensures
        0 <= cell(dir, l, p) < 16,
        line_of(dir, cell(dir, l, p)) == l,
        pos_of(dir, cell(dir, l, p)) == p,
{
}

proof fn lemma_lines(dir: Dir, c: int)
    requires
        0 <= c < 16,
    ensures
        0 <= line_of(dir, c) < 4,
        0 <= pos_of(dir, c) < 4,
        cell(dir, line_of(dir, c), pos_of(dir, c)) == c,
{
}

/// The cells with their rows read from the other end.
pub open spec fn mirrored(cells: Seq<u8>) -> Seq<u8> {
    Seq::new(16, |c: int| cells[4 * (c / 4) + 3 - c % 4])
}

/// The cells with rows and columns exchanged.
pub open spec fn transposed(cells: Seq<u8>) -> Seq<u8> {
    Seq::new(16, |c: int| cells[4 * (c % 4) + c / 4])
}

/// The cells of a row.
pub open spec fn row(cells: Seq<u8>, r: int) -> Seq<u8> {
    cells.subrange(4 * r, 4 * r + 4)
}

/// A slide to the left slides every row on its own, and scores what its rows score.
pub proof fn law_left_slides_rows(b: Board, r: int)
    requires
        0 <= r < 4,
        forall|c: int| 0 <= c < 16 ==> #[trigger] b@[c] < 255,
    ensures
        is_slide(row(b@, r), row(b.slide(Dir::Left), r), slide_gain(row(b@, r))),
        b.slide_score(Dir::Left) == slide_gain(row(b@, 0)) + slide_gain(row(b@, 1)) + slide_gain(
            row(b@, 2),
        ) + slide_gain(row(b@, 3)),
{
    assert forall|l: int| 0 <= l < 4 implies #[trigger] b.line(Dir::Left, l) == row(b@, l) by {
        assert(b.line(Dir::Left, l) =~= row(b@, l));
    }
    let line = row(b@, r);
    assert forall|i: int| 0 <= i < line.len() implies #[trigger] line[i] < 255 by {
        assert(line[i] == b@[4 * r + i]);
    }
    law_lines_join_pairs(line);
    lemma_slid_len(line);
    let moved = b.slide(Dir::Left);
    assert(row(moved, r) =~= slid(line)) by {
        assert forall|p: int| 0 <= p < 4 implies row(moved, r)[p] == slid(line)[p] by {
            let c = 4 * r + p;
            assert(row(moved, r)[p] == moved[c]);
            assert(line_of(Dir::Left, c) == r && pos_of(Dir::Left, c) == p);
            assert(b.line(Dir::Left, r) == line);
        }
    }
    reveal_with_fuel(Board::score_of_lines, 5);
    assert(b.line(Dir::Left, 0) == row(b@, 0));
    assert(b.line(Dir::Left, 1) == row(b@, 1));
    assert(b.line(Dir::Left, 2) == row(b@, 2));
    assert(b.line(Dir::Left, 3) == row(b@, 3));
}

/// A slide to the right is a slide to the left in the mirror.
pub proof fn law_right_mirrors_left(a: Board, b: Board)
    requires
        b@ == mirrored(a@),
    ensures
        a.slide(Dir::Right) == mirrored(b.slide(Dir::Left)),
        a.slide_score(Dir::Right) == b.slide_score(Dir::Left),
        a.legal(Dir::Right) <==> b.legal(Dir::Left),
{
    assert forall|l: int| 0 <= l < 4 implies #[trigger] a.line(Dir::Right, l) == b.line(Dir::Left, l) by {
        assert(a.line(Dir::Right, l) =~= b.line(Dir::Left, l));
    }
    let x = a.slide(Dir::Right);
    let y = b.slide(Dir::Left);
    assert forall|c: int| 0 <= c < 16 implies x[c] == mirrored(y)[c] by {
        let d = 4 * (c / 4) + 3 - c % 4;
        assert(d / 4 == c / 4 && d % 4 == 3 - c % 4);
        assert(a.line(Dir::Right, c / 4) == b.line(Dir::Left, c / 4));
        assert(pos_of(Dir::Right, c) == pos_of(Dir::Left, d));
    }
    assert(x =~= mirrored(y));
    lemma_same_lines(a, Dir::Right, b, Dir::Left);
    assert(a@ =~= mirrored(b@)) by {
        assert forall|c: int| 0 <= c < 16 implies a@[c] == mirrored(b@)[c] by {
            let d = 4 * (c / 4) + 3 - c % 4;
            assert(d / 4 == c / 4 && d % 4 == 3 - c % 4);
        }
    }
    if y == b@ {
        assert(x == a@);
    }
    if x == a@ {
        assert(y =~= b@) by {
            assert forall|c: int| 0 <= c < 16 implies y[c] == b@[c] by {
                let d = 4 * (c / 4) + 3 - c % 4;
                assert(d / 4 == c / 4 && d % 4 == 3 - c % 4);
                assert(x[d] == y[c]);
                assert(a@[d] == b@[c]);
            }
        }
    }
}

/// A slide up is a slide to the left with rows and columns exchanged, and a slide down is one to
/// the right.
pub proof fn law_up_and_down_exchange_rows_and_columns(a: Board, b: Board)
    requires
        b@ == transposed(a@),
    ensures
        a.slide(Dir::Up) == transposed(b.slide(Dir::Left)),
        a.slide_score(Dir::Up) == b.slide_score(Dir::Left),
        a.slide(Dir::Down) == transposed(b.slide(Dir::Right)),
        a.slide_score(Dir::Down) == b.slide_score(Dir::Right),
{
    lemma_exchange(a, b, Dir::Up, Dir::Left);
    lemma_exchange(a, b, Dir::Down, Dir::Right);
}

proof fn lemma_exchange(a: Board, b: Board, d: Dir, e: Dir)
    requires
        b@ == transposed(a@),
        (d == Dir::Up && e == Dir::Left) || (d == Dir::Down && e == Dir::Right),
    ensures
        a.slide(d) == transposed(b.slide(e)),
        a.slide_score(d) == b.slide_score(e),
{
    assert forall|l: int| 0 <= l < 4 implies #[trigger] a.line(d, l) == b.line(e, l) by {
        assert(a.line(d, l) =~= b.line(e, l));
    }
    let x = a.slide(d);
    let y = b.slide(e);
    assert forall|c: int| 0 <= c < 16 implies x[c] == transposed(y)[c] by {
        let f = 4 * (c % 4) + c / 4;
        assert(f / 4 == c % 4 && f % 4 == c / 4);
        assert(a.line(d, c % 4) == b.line(e, c % 4));
        assert(pos_of(d, c) == pos_of(e, f));
    }
    assert(x =~= transposed(y));
    lemma_same_lines(a, d, b, e);
}

proof fn lemma_same_lines(a: Board, d: Dir, b: Board, e: Dir)
    requires
        forall|l: int| 0 <= l < 4 ==> #[trigger] a.line(d, l) == b.line(e, l),
    ensures
        a.slide_score(d) == b.slide_score(e),
{
    reveal_with_fuel(Board::score_of_lines, 5);
    assert(a.line(d, 0) == b.line(e, 0));
    assert(a.line(d, 1) == b.line(e, 1));
    assert(a.line(d, 2) == b.line(e, 2));
    assert(a.line(d, 3) == b.line(e, 3));
}

/// How many of the first `n` cells are empty.
pub open spec fn room(cells: Seq<u8>, n: int) -> nat
    decreases n,
{
    if n <= 0 {
        0
    } else {
        room(cells, n - 1) + if cells[n - 1] == 0 {
            1nat
        } else {
            0
        }
    }
}

pub proof fn lemma_empty_cells_in_order(cells: Seq<u8>, n: nat)
    requires
        n <= cells.len(),
    ensures
        empty_among(cells, n).len() == room(cells, n as int),
        forall|i: int|
            0 <= i < empty_among(cells, n).len() ==> {
                let c = #[trigger] empty_among(cells, n)[i];
                0 <= c < n && cells[c] == 0 && room(cells, c) == i
            },
    decreases n,
{
    if n > 0 {
        lemma_empty_cells_in_order(cells, (n - 1) as nat);
    }
}

/// A tile appears on an empty cell: the cell before which as many empty cells lie as was drawn, out
/// of as many as there are. It is a two where ten times the upper 53 bits of the word drawn next
/// are less than nine times `2^53`, else a four, and no other cell changes. On a full board
/// nothing appears and nothing is drawn.
pub proof fn law_tiles_appear_where_drawn(a: Board, before: SmallRng, b: Board, after: SmallRng)
    requires
        spawned(a, before, b, after),
    ensures
        room(a@, 16) == 0 ==> b == a && after == before,
        room(a@, 16) > 0 ==> exists|c: int, pick: usize, word: u64, middle: SmallRng|
            {
                &&& #[trigger] draws_below(before, room(a@, 16) as usize, pick, middle)
                &&& #[trigger] draws_word(middle, word, after)
                &&& 0 <= c < 16
                &&& #[trigger] a@[c] == 0
                &&& room(a@, c) == pick
                &&& b@ == a@.update(
                    c,
                    if 10 * (word / 2048) < 9 * 0x20_0000_0000_0000 {
                        1u8
                    } else {
                        2u8
                    },
                )
            },
{
    lemma_empty_cells_in_order(a@, 16);
    if room(a@, 16) > 0 {
        let (pick, word, middle) = choose|pick: usize, word: u64, middle: SmallRng|
            {
                &&& pick < a.empties().len()
                &&& #[trigger] draws_below(before, a.empties().len() as usize, pick, middle)
                &&& #[trigger] draws_word(middle, word, after)
                &&& b@ == a.with_tile(pick as int, word)
            };
        let c = a.empties()[pick as int];
        assert(empty_among(a@, 16)[pick as int] == c);
        assert(a@[c] == 0 && room(a@, c) == pick);
        assert(draws_below(before, room(a@, 16) as usize, pick, middle));
        assert(draws_word(middle, word, after));
        let w = word / 2048;
        assert(w < 8_106_479_329_266_893 <==> 10 * w < 9 * 0x20_0000_0000_0000);
    }
}

} // verus!
