//! One line of the board: how four tiles slide and merge.
//!
//! A tile is its exponent: 0 is an empty cell, `e` is the tile `2^e`.

use vstd::arithmetic::power2::{lemma_pow2_strictly_increases, lemma_pow2_unfold, pow2};
use vstd::prelude::*;

verus! {

/// The number that a tile shows: nothing on an empty cell, else `2^e`.
pub open spec fn tile_value(e: u8) -> nat {
    if e == 0 {
        0
    } else {
        pow2(e as nat)
    }
}

/// The tiles of a line in order, without the empty cells.
pub open spec fn tiles(line: Seq<u8>) -> Seq<u8> {
    line.filter(|e: u8| e != 0)
}

/// Adjacent equal tiles joined from the left; a joined tile is not joined again.
pub open spec fn merged(t: Seq<u8>) -> Seq<u8>
    decreases t.len(),
{
    if t.len() < 2 {
        t
    } else if t[0] == t[1] {
        seq![(t[0] + 1) as u8] + merged(t.skip(2))
    } else {
        seq![t[0]] + merged(t.skip(1))
    }
}

/// What joining the tiles scores: the sum of the tiles that come of it.
pub open spec fn merge_gain(t: Seq<u8>) -> nat
    decreases t.len(),
{
    if t.len() < 2 {
        0
    } else if t[0] == t[1] {
        pow2((t[0] + 1) as nat) + merge_gain(t.skip(2))
    } else {
        merge_gain(t.skip(1))
    }
}

/// The line after its tiles slid to the front and merged there.
pub open spec fn slid(line: Seq<u8>) -> Seq<u8> {
    let m = merged(tiles(line));
    m + Seq::new((line.len() - m.len()) as nat, |i: int| 0u8)
}

/// What sliding the line scores.
pub open spec fn slide_gain(line: Seq<u8>) -> nat {
    merge_gain(tiles(line))
}

/// The sum of `f` over the cells.
pub open spec fn total(cells: Seq<u8>, f: spec_fn(u8) -> int) -> int
    decreases cells.len(),
{
    if cells.len() == 0 {
        0
    } else {
        total(cells.drop_last(), f) + f(cells.last())
    }
}

proof fn lemma_tiles_push(line: Seq<u8>, i: int)
    requires
        0 <= i < line.len(),
    ensures
        line[i] == 0 ==> tiles(line.take(i + 1)) == tiles(line.take(i)),
        line[i] != 0 ==> tiles(line.take(i + 1)) == tiles(line.take(i)).push(line[i]),
{
    reveal(Seq::filter);
    assert(line.take(i + 1).drop_last() =~= line.take(i));
}

/// There are no more tiles than cells.
pub proof fn lemma_tiles_bounds(line: Seq<u8>)
    ensures
        tiles(line).len() <= line.len(),
        forall|i: int| 0 <= i < tiles(line).len() ==> #[trigger] tiles(line)[i] != 0,
    decreases line.len(),
{
    reveal(Seq::filter);
    if line.len() > 0 {
        lemma_tiles_bounds(line.drop_last());
    }
}

proof fn lemma_merged_len(t: Seq<u8>)
    ensures
        merged(t).len() <= t.len(),
        t.len() > 0 ==> merged(t).len() > 0,
    decreases t.len(),
{
    if t.len() >= 2 {
        if t[0] == t[1] {
            lemma_merged_len(t.skip(2));
        } else {
            lemma_merged_len(t.skip(1));
        }
    }
}

/// Sliding keeps the number of cells.
pub proof fn lemma_slid_len(line: Seq<u8>)
    ensures
        slid(line).len() == line.len(),
{
    lemma_tiles_bounds(line);
    lemma_merged_len(tiles(line));
}

/// A power of two that fits in 64 bits is a shift by fewer than 64 places.
proof fn lemma_pow2_fits(e: nat)
    requires
        pow2(e) <= u64::MAX,
    ensures
        e < 64,
{
    if e >= 64 {
        vstd::arithmetic::power2::lemma2_to64();
        if e > 64 {
            lemma_pow2_strictly_increases(64, e);
        }
    }
}

/// `1 << e` for an exponent whose power of two fits.
pub fn power_of_two(e: u8) -> (r: u64)
    requires
        pow2(e as nat) <= u64::MAX,
    ensures
        r == pow2(e as nat),
{
    proof {
        lemma_pow2_fits(e as nat);
        vstd::bits::lemma_u64_shl_is_mul(1, e as u64);
    }
    1u64 << (e as u64)
}

/// Slides a line to the front and merges each pair of equal neighbours once. The
/// second result is the sum of the merged tiles.
pub fn merge_line(input: [u8; 4]) -> (r: ([u8; 4], u64))
    requires
        slide_gain(input@) <= u64::MAX,
    ensures
        r.0@ == slid(input@),
        r.1 == slide_gain(input@),
{
    let mut nz: [u8; 4] = [0u8; 4];
    let mut n: usize = 0;
    proof {
        reveal(Seq::filter);
        assert(tiles(input@.take(0)) =~= Seq::<u8>::empty());
    }
    for i in 0..4usize
        invariant
            n <= i,
            nz@.take(n as int) == tiles(input@.take(i as int)),
    {
        proof {
            lemma_tiles_push(input@, i as int);
        }
        if input[i] != 0 {
            let ghost before = nz@;
            nz[n] = input[i];
            assert(nz@.take(n + 1) =~= before.take(n as int).push(input@[i as int]));
            n = n + 1;
        }
    }
    let ghost t = tiles(input@);
    assert(input@.take(4) =~= input@);
    assert(t == nz@.take(n as int));

    let mut out: [u8; 4] = [0u8; 4];
    let mut oi: usize = 0;
    let mut i: usize = 0;
    let mut reward: u64 = 0;
    assert(t.skip(0) =~= t);
    assert(out@.take(0) + merged(t) =~= merged(t));
    while i < n
        invariant
            oi <= i <= n <= 4,
            t == nz@.take(n as int),
            merge_gain(t) <= u64::MAX,
            out@.take(oi as int) + merged(t.skip(i as int)) == merged(t),
            reward + merge_gain(t.skip(i as int)) == merge_gain(t),
            forall|j: int| oi <= j < 4 ==> out@[j] == 0,
        decreases n - i,
    {
        let ghost rest = t.skip(i as int);
        let ghost before = out@;
        assert(rest[0] == nz@[i as int]);
        if i + 1 < n && nz[i] == nz[i + 1] {
            assert(rest[1] == nz@[i + 1]);
            assert(rest.skip(2) =~= t.skip(i + 2));
            proof {
                lemma_pow2_fits((nz@[i as int] + 1) as nat);
            }
            let e: u8 = nz[i] + 1;
            out[oi] = e;
            reward = reward + power_of_two(e);
            assert(out@.take(oi + 1) =~= before.take(oi as int).push(e));
            assert(out@.take(oi + 1) + merged(t.skip(i + 2)) =~= before.take(oi as int) + merged(rest));
            i = i + 2;
        } else {
            if i + 1 < n {
                assert(rest[1] == nz@[i + 1]);
            }
            assert(rest.skip(1) =~= t.skip(i + 1));
            let e: u8 = nz[i];
            out[oi] = e;
            assert(out@.take(oi + 1) =~= before.take(oi as int).push(e));
            assert(out@.take(oi + 1) + merged(t.skip(i + 1)) =~= before.take(oi as int) + merged(rest)) by {
                if rest.len() < 2 {
                    assert(rest =~= seq![e]);
                    assert(t.skip(i + 1) =~= Seq::<u8>::empty());
                }
            }
            i = i + 1;
        }
        oi = oi + 1;
    }
    assert(t.skip(n as int) =~= Seq::<u8>::empty());
    assert(out@.take(oi as int) =~= merged(t));
    assert(out@ =~= slid(input@));
    (out, reward)
}

/// The total over two parts.
pub proof fn lemma_total_concat(a: Seq<u8>, b: Seq<u8>, f: spec_fn(u8) -> int)
    ensures
        total(a + b, f) == total(a, f) + total(b, f),
    decreases b.len(),
{
    if b.len() == 0 {
        assert(a + b =~= a);
    } else {
        assert((a + b).drop_last() =~= a + b.drop_last());
        lemma_total_concat(a, b.drop_last(), f);
    }
}

proof fn lemma_total_zeros(n: nat, f: spec_fn(u8) -> int)
    requires
        f(0u8) == 0,
    ensures
        total(Seq::new(n, |i: int| 0u8), f) == 0,
    decreases n,
{
    let z = Seq::new(n, |i: int| 0u8);
    if n > 0 {
        assert(z.drop_last() =~= Seq::new((n - 1) as nat, |i: int| 0u8));
        lemma_total_zeros((n - 1) as nat, f);
    }
}

/// Empty cells add nothing to a total.
pub proof fn lemma_total_tiles(line: Seq<u8>, f: spec_fn(u8) -> int)
    requires
        f(0u8) == 0,
    ensures
        total(tiles(line), f) == total(line, f),
    decreases line.len(),
{
    reveal(Seq::filter);
    if line.len() > 0 {
        let front = line.drop_last();
        lemma_total_tiles(front, f);
        if line.last() != 0 {
            assert(tiles(line) == tiles(front).push(line.last()));
            assert(tiles(line).drop_last() =~= tiles(front));
        } else {
            assert(tiles(line) == tiles(front));
        }
    }
}

/// A measure of the slid line is that of its merged tiles.
pub proof fn lemma_total_slid(line: Seq<u8>, f: spec_fn(u8) -> int)
    requires
        f(0u8) == 0,
    ensures
        total(slid(line), f) == total(merged(tiles(line)), f),
{
    let m = merged(tiles(line));
    lemma_slid_len(line);
    lemma_tiles_bounds(line);
    lemma_merged_len(tiles(line));
    let pad = Seq::new((line.len() - m.len()) as nat, |i: int| 0u8);
    lemma_total_concat(m, pad, f);
    lemma_total_zeros((line.len() - m.len()) as nat, f);
}

proof fn lemma_total_split_front(t: Seq<u8>, k: int, f: spec_fn(u8) -> int)
    requires
        1 <= k <= 2,
        k <= t.len(),
    ensures
        k == 1 ==> total(t, f) == f(t[0]) + total(t.skip(1), f),
        k == 2 ==> total(t, f) == f(t[0]) + f(t[1]) + total(t.skip(2), f),
{
    reveal_with_fuel(total, 3);
    let front = t.take(k);
    assert(t =~= front + t.skip(k));
    lemma_total_concat(front, t.skip(k), f);
    if k == 1 {
        assert(front =~= seq![t[0]]);
        assert(front.drop_last() =~= Seq::<u8>::empty());
    } else {
        assert(front =~= seq![t[0], t[1]]);
        assert(front.drop_last() =~= seq![t[0]]);
        assert(front.drop_last().drop_last() =~= Seq::<u8>::empty());
    }
}

/// The value of a tile, as a measure.
pub open spec fn value_of() -> spec_fn(u8) -> int {
    |e: u8| tile_value(e) as int
}

/// What it took to build a tile `2^e` out of twos: `(e - 1) * 2^e` points.
pub open spec fn worth_of() -> spec_fn(u8) -> int {
    |e: u8| if e == 0 { 0 } else { (e - 1) * pow2(e as nat) }
}

/// Whether a cell holds a tile of at least `2^k`, for a positive `k`.
pub open spec fn at_least(k: int) -> spec_fn(u8) -> int {
    |e: u8| if e >= k { 1int } else { 0int }
}

/// The exponents that a merge can raise by one without leaving `u8`.
pub open spec fn raisable(t: Seq<u8>) -> bool {
    forall|i: int| 0 <= i < t.len() ==> 0 < #[trigger] t[i] < 255
}

/// Merging keeps the sum of the tiles.
pub proof fn lemma_merged_value(t: Seq<u8>)
    requires
        raisable(t),
    ensures
        total(merged(t), value_of()) == total(t, value_of()),
    decreases t.len(),
{
    let f = value_of();
    if t.len() >= 2 {
        if t[0] == t[1] {
            lemma_merged_value(t.skip(2));
            lemma_total_split_front(t, 2, f);
            lemma_total_split_front(merged(t), 1, f);
            assert(merged(t).skip(1) =~= merged(t.skip(2)));
            lemma_pow2_unfold((t[0] + 1) as nat);
        } else {
            lemma_merged_value(t.skip(1));
            lemma_total_split_front(t, 1, f);
            lemma_total_split_front(merged(t), 1, f);
            assert(merged(t).skip(1) =~= merged(t.skip(1)));
        }
    }
}

/// Merging adds exactly its score to the worth of the tiles.
pub proof fn lemma_merged_worth(t: Seq<u8>)
    requires
        raisable(t),
    ensures
        total(merged(t), worth_of()) == total(t, worth_of()) + merge_gain(t),
    decreases t.len(),
{
    let f = worth_of();
    if t.len() >= 2 {
        if t[0] == t[1] {
            lemma_merged_worth(t.skip(2));
            lemma_total_split_front(t, 2, f);
            lemma_total_split_front(merged(t), 1, f);
            assert(merged(t).skip(1) =~= merged(t.skip(2)));
            let a = t[0] as int;
            let p = pow2(a as nat) as int;
            lemma_pow2_unfold((t[0] + 1) as nat);
            assert(a * (2 * p) == (a - 1) * p + (a - 1) * p + 2 * p) by (nonlinear_arith);
        } else {
            lemma_merged_worth(t.skip(1));
            lemma_total_split_front(t, 1, f);
            lemma_total_split_front(merged(t), 1, f);
            assert(merged(t).skip(1) =~= merged(t.skip(1)));
        }
    }
}

/// Each tile of at least `2^k` after the merge was such a tile before it or came of
/// two tiles just below.
pub proof fn lemma_merged_count(t: Seq<u8>, k: int)
    requires
        raisable(t),
    ensures
        2 * total(merged(t), at_least(k)) <= total(t, at_least(k)) + total(t, at_least(k - 1)),
    decreases t.len(),
{
    let f = at_least(k);
    let g = at_least(k - 1);
    if t.len() == 0 {
    } else if t.len() == 1 {
        lemma_total_split_front(t, 1, f);
        lemma_total_split_front(t, 1, g);
        assert(t.skip(1) =~= Seq::<u8>::empty());
    } else if t[0] == t[1] {
        lemma_merged_count(t.skip(2), k);
        lemma_total_split_front(t, 2, f);
        lemma_total_split_front(t, 2, g);
        lemma_total_split_front(merged(t), 1, f);
        assert(merged(t).skip(1) =~= merged(t.skip(2)));
    } else {
        lemma_merged_count(t.skip(1), k);
        lemma_total_split_front(t, 1, f);
        lemma_total_split_front(t, 1, g);
        lemma_total_split_front(merged(t), 1, f);
        assert(merged(t).skip(1) =~= merged(t.skip(1)));
    }
}

proof fn lemma_merged_full(t: Seq<u8>)
    requires
        merged(t).len() == t.len(),
    ensures
        merged(t) == t,
    decreases t.len(),
{
    if t.len() >= 2 {
        if t[0] == t[1] {
            lemma_merged_len(t.skip(2));
        } else {
            lemma_merged_full(t.skip(1));
            assert(merged(t) =~= t);
        }
    }
}

proof fn lemma_tiles_full(line: Seq<u8>)
    requires
        tiles(line).len() == line.len(),
    ensures
        tiles(line) == line,
    decreases line.len(),
{
    reveal(Seq::filter);
    if line.len() > 0 {
        lemma_tiles_bounds(line.drop_last());
        lemma_tiles_full(line.drop_last());
        assert(tiles(line) =~= line);
    }
}

/// A line that sliding changes ends in an empty cell afterwards.
pub proof fn lemma_changed_line_has_room(line: Seq<u8>)
    requires
        slid(line) != line,
    ensures
        line.len() > 0,
        slid(line).last() == 0,
{
    lemma_slid_len(line);
    lemma_tiles_bounds(line);
    let t = tiles(line);
    lemma_merged_len(t);
    if line.len() == 0 {
        assert(slid(line) =~= line);
    } else if merged(t).len() == line.len() {
        lemma_tiles_full(line);
        lemma_merged_full(t);
        assert(slid(line) =~= line);
    }
}

/// Joining tiles scores a multiple of four.
pub proof fn lemma_gain_is_of_fours(t: Seq<u8>)
    requires
        forall|i: int| 0 <= i < t.len() ==> #[trigger] t[i] != 0,
    ensures
        merge_gain(t) % 4 == 0,
    decreases t.len(),
{
    if t.len() >= 2 {
        if t[0] == t[1] {
            lemma_gain_is_of_fours(t.skip(2));
            lemma_pow2_unfold((t[0] + 1) as nat);
            lemma_pow2_unfold(t[0] as nat);
        } else {
            lemma_gain_is_of_fours(t.skip(1));
        }
    }
}

/// The cells that hold a tile are no more than the cells, and all of them where none is
/// empty.
pub proof fn lemma_held_cells(t: Seq<u8>)
    ensures
        0 <= total(t, at_least(1)) <= t.len(),
        (forall|i: int| 0 <= i < t.len() ==> #[trigger] t[i] != 0) ==> total(t, at_least(1)) == t.len(),
    decreases t.len(),
{
    if t.len() > 0 {
        lemma_held_cells(t.drop_last());
        if forall|i: int| 0 <= i < t.len() ==> #[trigger] t[i] != 0 {
            assert(forall|i: int| 0 <= i < t.drop_last().len() ==> #[trigger] t.drop_last()[i] == t[i]);
            assert(t[t.len() - 1] != 0);
        }
    }
}

/// A line holds no more tiles after it slid, and fewer where that scored.
pub proof fn lemma_slid_holds_no_more(line: Seq<u8>)
    ensures
        total(slid(line), at_least(1)) <= total(line, at_least(1)),
        slide_gain(line) > 0 ==> total(slid(line), at_least(1)) < total(line, at_least(1)),
{
    let t = tiles(line);
    lemma_tiles_bounds(line);
    lemma_total_slid(line, at_least(1));
    lemma_total_tiles(line, at_least(1));
    lemma_held_cells(t);
    lemma_held_cells(merged(t));
    lemma_merged_len(t);
    if slide_gain(line) > 0 {
        lemma_gain_joins(t);
    }
}

proof fn lemma_gain_joins(t: Seq<u8>)
    requires
        merge_gain(t) > 0,
    ensures
        merged(t).len() < t.len(),
    decreases t.len(),
{
    if t.len() >= 2 {
        if t[0] == t[1] {
            lemma_merged_len(t.skip(2));
        } else {
            lemma_gain_joins(t.skip(1));
        }
    }
}

/// The tiles of a line read from its other end are its tiles from the other end.
proof fn lemma_tiles_reversed(line: Seq<u8>)
    ensures
        tiles(line.reverse()) == tiles(line).reverse(),
    decreases line.len(),
{
    reveal_with_fuel(Seq::filter, 3);
    let keep = |e: u8| e != 0;
    if line.len() > 0 {
        let front = line.drop_last();
        let last = seq![line.last()];
        lemma_tiles_reversed(front);
        assert(line.reverse() =~= last + front.reverse());
        Seq::filter_distributes_over_add(last, front.reverse(), keep);
        assert(last.drop_last() =~= Seq::<u8>::empty());
        if line.last() != 0 {
            assert(last.filter(keep) =~= last);
        } else {
            assert(last.filter(keep) =~= Seq::<u8>::empty());
        }
        assert(tiles(line).reverse() =~= last.filter(keep) + tiles(front).reverse());
    } else {
        assert(line.reverse() =~= line);
        assert(tiles(line).reverse() =~= tiles(line));
    }
}

/// Up to four tiles score the same when they are joined from the other end.
proof fn lemma_gain_reversed(t: Seq<u8>)
    requires
        t.len() <= 4,
    ensures
        merge_gain(t.reverse()) == merge_gain(t),
{
    reveal_with_fuel(merge_gain, 5);
    let r = t.reverse();
    if t.len() == 2 {
        assert(r[0] == t[1] && r[1] == t[0]);
    } else if t.len() == 3 {
        assert(r[0] == t[2] && r[1] == t[1] && r[2] == t[0]);
        assert(r.skip(1)[0] == t[1] && r.skip(1)[1] == t[0]);
    } else if t.len() == 4 {
        assert(r[0] == t[3] && r[1] == t[2] && r[2] == t[1] && r[3] == t[0]);
        assert(r.skip(1)[0] == t[2] && r.skip(1)[1] == t[1] && r.skip(1)[2] == t[0]);
        assert(r.skip(2)[0] == t[1] && r.skip(2)[1] == t[0]);
        assert(r.skip(1).skip(1)[0] == t[1] && r.skip(1).skip(1)[1] == t[0]);
    }
}

/// A line of four scores the same in both directions.
pub proof fn lemma_line_scores_both_ways(line: Seq<u8>)
    requires
        line.len() == 4,
    ensures
        slide_gain(line.reverse()) == slide_gain(line),
{
    lemma_tiles_bounds(line);
    lemma_tiles_reversed(line);
    lemma_gain_reversed(tiles(line));
}

/// A line that holds both a tile and an empty cell changes when it slides one way or the
/// other.
pub proof fn lemma_loose_line_moves(line: Seq<u8>, empty: int, held: int)
    requires
        0 <= empty < line.len(),
        0 <= held < line.len(),
        line[empty] == 0,
        line[held] != 0,
        forall|i: int| 0 <= i < line.len() ==> #[trigger] line[i] < 255,
    ensures
        slid(line) != line || slid(line.reverse()) != line.reverse(),
{
    let back = line.reverse();
    assert(back[line.len() - 1 - empty] == 0);
    assert(back[line.len() - 1 - held] != 0);
    lemma_loose_line_ends(line, empty, held);
    lemma_loose_line_ends(back, line.len() - 1 - empty, line.len() - 1 - held);
}

/// A line with a tile and an empty cell that stays as it is when it slides starts with a
/// tile and ends with an empty cell.
proof fn lemma_loose_line_ends(line: Seq<u8>, empty: int, held: int)
    requires
        0 <= empty < line.len(),
        0 <= held < line.len(),
        line[empty] == 0,
        line[held] != 0,
        forall|i: int| 0 <= i < line.len() ==> #[trigger] line[i] < 255,
    ensures
        slid(line) == line ==> line[0] != 0 && line.last() == 0,
{
    let t = tiles(line);
    lemma_tiles_bounds(line);
    lemma_merged_len(t);
    lemma_slid_len(line);
    if t.len() == line.len() {
        lemma_tiles_full(line);
    }
    broadcast use vstd::seq_lib::group_filter_ensures;
    let keep = |e: u8| e != 0;
    assert(keep(line[held]));
    assert(t.contains(line[held]));
    assert(t.contains(t[0]));
    line.lemma_filter_contains_rev(keep, t[0]);
    assert(merged(t)[0] != 0);
}

} // verus!
