//! The 2048 board: moves, their score, and the tiles that appear after them.

use crate::line::{merge_line, power_of_two, slid, slide_gain, tile_value};
use crate::random::{draw_below, draw_word, draws_below, draws_word};
use rand::rngs::SmallRng;
use vstd::prelude::*;

verus! {

/// A uniform draw from the unit interval has the form `m / 2^53`; it lies below the
/// double nearest to nine tenths exactly for `m` below this bound.
pub const NINE_TENTHS: u64 = 8_106_479_329_266_893;

/// A direction in which the tiles slide.
#[derive(Clone, Copy, Debug, PartialEq, Eq, Structural, Hash)]
pub enum Dir {
    Up,
    Down,
    Left,
    Right,
}

/// The four directions, in the order in which moves are listed.
pub open spec fn directions() -> Seq<Dir> {
    seq![Dir::Up, Dir::Down, Dir::Left, Dir::Right]
}

/// The four directions, in the order in which moves are listed.
pub fn all_directions() -> (r: [Dir; 4])
    ensures
        r@ == directions(),
{
    let r = [Dir::Up, Dir::Down, Dir::Left, Dir::Right];
    assert(r@ =~= directions());
    r
}

impl Dir {
    /// The arrow that stands for the direction.
    pub open spec fn arrow(self) -> char {
        match self {
            Dir::Up => '\u{2191}',
            Dir::Down => '\u{2193}',
            Dir::Left => '\u{2190}',
            Dir::Right => '\u{2192}',
        }
    }

    /// The arrow that stands for the direction.
    pub fn symbol(self) -> (r: char)
        ensures
            r == self.arrow(),
    {
        match self {
            Dir::Up => '\u{2191}',
            Dir::Down => '\u{2193}',
            Dir::Left => '\u{2190}',
            Dir::Right => '\u{2192}',
        }
    }
}

/// The cell at position `pos` of a line, counted from the side to which the tiles
/// slide. Cells are numbered by rows from the top left.
pub open spec fn cell(dir: Dir, line: int, pos: int) -> int {
    match dir {
        Dir::Left => 4 * line + pos,
        Dir::Right => 4 * line + 3 - pos,
        Dir::Up => line + 4 * pos,
        Dir::Down => line + 12 - 4 * pos,
    }
}

/// The line on which a cell lies.
pub open spec fn line_of(dir: Dir, c: int) -> int {
    match dir {
        Dir::Left | Dir::Right => c / 4,
        Dir::Up | Dir::Down => c % 4,
    }
}

/// The position of a cell on its line.
pub open spec fn pos_of(dir: Dir, c: int) -> int {
    match dir {
        Dir::Left => c % 4,
        Dir::Right => 3 - c % 4,
        Dir::Up => c / 4,
        Dir::Down => 3 - c / 4,
    }
}

/// A board: the exponents of its sixteen cells by rows, 0 for an empty cell.
#[derive(Clone, Copy, Debug, Hash)]
pub struct Board(pub [u8; 16]);

impl View for Board {
    type V = Seq<u8>;

    open spec fn view(&self) -> Seq<u8> {
        self.0@
    }
}

impl PartialEq for Board {
    fn eq(&self, other: &Board) -> (r: bool) {
        for i in 0..16usize
            invariant
                forall|j: int| 0 <= j < i ==> self.0@[j] == other.0@[j],
        {
            if self.0[i] != other.0[i] {
                return false;
            }
        }
        assert(self.0 =~= other.0);
        true
    }
}

impl Eq for Board {

}

impl vstd::std_specs::cmp::PartialEqSpecImpl for Board {
    open spec fn obeys_eq_spec() -> bool {
        true
    }

    open spec fn eq_spec(&self, other: &Board) -> bool {
        self == other
    }
}

/// Boards with the same cells are equal.
pub proof fn lemma_board_ext(a: Board, b: Board)
    requires
        a@ == b@,
    ensures
        a == b,
{
    assert forall|i: int| 0 <= i < 16 implies a.0[i] == b.0[i] by {
        assert(a@[i] == b@[i]);
    }
    assert(a.0 =~= b.0);
}

/// The exponent of the tile that a random word puts on the board: a two where the
/// uniform draw that `rand` makes of the word lies below nine tenths, else a four.
pub open spec fn tile_of_word(word: u64) -> u8 {
    if word / 2048 < NINE_TENTHS {
        1
    } else {
        2
    }
}

/// The empty cells among the first `n`, in order.
pub open spec fn empty_among(cells: Seq<u8>, n: nat) -> Seq<int>
    decreases n,
{
    if n == 0 {
        seq![]
    } else if cells[n - 1] == 0 {
        empty_among(cells, (n - 1) as nat).push(n - 1)
    } else {
        empty_among(cells, (n - 1) as nat)
    }
}

/// `b` is `a` with a two or a four on one of its empty cells, or `a` itself where it
/// has none.
pub open spec fn is_spawn(a: Board, b: Board) -> bool {
    if a.empties().len() == 0 {
        b == a
    } else {
        exists|pick: int, word: u64|
            0 <= pick < a.empties().len() && b@ == #[trigger] a.with_tile(pick, word)
    }
}

/// `b` is `a` after a tile appeared that was drawn from the generator `before`: its place
/// among the empty cells first, then the word that gives the tile. A full board stays as
/// it is, and nothing is drawn.
pub open spec fn spawned(a: Board, before: SmallRng, b: Board, after: SmallRng) -> bool {
    if a.empties().len() == 0 {
        b == a && after == before
    } else {
        exists|pick: usize, word: u64, middle: SmallRng|
            {
                &&& pick < a.empties().len()
                &&& #[trigger] draws_below(before, a.empties().len() as usize, pick, middle)
                &&& #[trigger] draws_word(middle, word, after)
                &&& b@ == a.with_tile(pick as int, word)
            }
    }
}

/// `b` is a starting board whose two tiles were drawn from the generator `before`.
pub open spec fn started(before: SmallRng, b: Board, after: SmallRng) -> bool {
    exists|none: Board, one: Board, middle: SmallRng|
        {
            &&& none@ == Seq::new(16, |i: int| 0u8)
            &&& #[trigger] spawned(none, before, one, middle)
            &&& #[trigger] spawned(one, middle, b, after)
        }
}

/// A tile that was drawn is one that can appear.
pub proof fn law_drawn_tiles_can_appear(a: Board, before: SmallRng, b: Board, after: SmallRng)
    requires
        spawned(a, before, b, after),
    ensures
        is_spawn(a, b),
{
    if a.empties().len() > 0 {
        let (pick, word, middle) = choose|pick: usize, word: u64, middle: SmallRng|
            {
                &&& pick < a.empties().len()
                &&& #[trigger] draws_below(before, a.empties().len() as usize, pick, middle)
                &&& #[trigger] draws_word(middle, word, after)
                &&& b@ == a.with_tile(pick as int, word)
            };
        assert(b@ == a.with_tile(pick as int, word));
    }
}

impl Board {
    /// The cells of a line, from the side to which the tiles slide.
    pub open spec fn line(self, dir: Dir, l: int) -> Seq<u8> {
        Seq::new(4, |p: int| self@[cell(dir, l, p)])
    }

    /// The cells after all tiles slid in a direction.
    pub open spec fn slide(self, dir: Dir) -> Seq<u8> {
        Seq::new(16, |c: int| slid(self.line(dir, line_of(dir, c)))[pos_of(dir, c)])
    }

    /// What the first `n` lines score when the tiles slide.
    pub open spec fn score_of_lines(self, dir: Dir, n: nat) -> nat
        decreases n,
    {
        if n == 0 {
            0
        } else {
            self.score_of_lines(dir, (n - 1) as nat) + slide_gain(self.line(dir, n - 1))
        }
    }

    /// What sliding in a direction scores.
    pub open spec fn slide_score(self, dir: Dir) -> nat {
        self.score_of_lines(dir, 4)
    }

    /// A direction is legal where sliding changes the board.
    pub open spec fn legal(self, dir: Dir) -> bool {
        self.slide(dir) != self@
    }

    /// The legal directions, in the order of [`directions`].
    pub open spec fn legal_dirs(self) -> Seq<Dir> {
        directions().filter(|d: Dir| self.legal(d))
    }

    /// No direction is legal.
    pub open spec fn stuck(self) -> bool {
        forall|d: Dir| !#[trigger] self.legal(d)
    }

    /// Whatever direction is taken, the score fits in 64 bits.
    pub open spec fn scores_fit(self) -> bool {
        forall|d: Dir| #[trigger] self.slide_score(d) <= u64::MAX
    }

    /// `m` is the outcome of sliding in a legal direction: the board and the score.
    pub open spec fn is_move(self, dir: Dir, m: Board, reward: u64) -> bool {
        self.legal(dir) && m@ == self.slide(dir) && reward == self.slide_score(dir)
    }

    /// The empty cells in order.
    pub open spec fn empties(self) -> Seq<int> {
        empty_among(self@, 16)
    }

    /// The cells with a new tile on the empty cell number `pick`.
    pub open spec fn with_tile(self, pick: int, word: u64) -> Seq<u8> {
        self@.update(self.empties()[pick], tile_of_word(word))
    }

    /// The exponent of the largest tile among the first `n` cells.
    pub open spec fn top_among(self, n: nat) -> u8
        decreases n,
    {
        if n == 0 {
            0
        } else if self.top_among((n - 1) as nat) < self@[n - 1] {
            self@[n - 1]
        } else {
            self.top_among((n - 1) as nat)
        }
    }

    /// The exponent of the largest tile.
    pub open spec fn top(self) -> u8 {
        self.top_among(16)
    }

    /// The board without tiles.
    pub fn empty() -> (r: Board)
        ensures
            r@ == Seq::new(16, |i: int| 0u8),
    {
        let r = Board([0u8; 16]);
        assert(r@ =~= Seq::new(16, |i: int| 0u8));
        r
    }

    /// The number of empty cells.
    pub fn empty_count(self) -> (r: usize)
        ensures
            r == self.empties().len(),
    {
        let mut n: usize = 0;
        for i in 0..16usize
            invariant
                n == empty_among(self@, i as nat).len(),
                n <= i,
        {
            if self.0[i] == 0 {
                n = n + 1;
            }
        }
        n
    }

    /// The exponent of the largest tile, 0 on a board without tiles.
    pub fn top_exponent(self) -> (r: u8)
        ensures
            r == self.top(),
            forall|i: int| 0 <= i < 16 ==> #[trigger] self@[i] <= r,
            r == 0 || self@.contains(r),
    {
        let mut e: u8 = 0;
        for i in 0..16usize
            invariant
                e == self.top_among(i as nat),
                forall|j: int| 0 <= j < i ==> #[trigger] self@[j] <= e,
                e == 0 || exists|j: int| 0 <= j < i && #[trigger] self@[j] == e,
        {
            if e < self.0[i] {
                e = self.0[i];
                assert(self@[i as int] == e);
            }
        }
        e
    }

    /// The largest tile, 0 on a board without tiles.
    pub fn max_tile(self) -> (r: u64)
        requires
            tile_value(self.top()) <= u64::MAX,
        ensures
            r == tile_value(self.top()),
    {
        let e = self.top_exponent();
        if e == 0 {
            0
        } else {
            power_of_two(e)
        }
    }

    /// The board and the score after sliding in a direction, or nothing where that
    /// would change nothing.
    pub fn moved(self, dir: Dir) -> (r: Option<(Board, u64)>)
        requires
            self.slide_score(dir) <= u64::MAX,
        ensures
            match r {
                Some((m, reward)) => self.is_move(dir, m, reward),
                None => !self.legal(dir),
            },
    {
        let mut out = self;
        let mut reward: u64 = 0;
        let mut changed: bool = false;
        for line_idx in 0..4usize
            invariant
                self.slide_score(dir) <= u64::MAX,
                reward == self.score_of_lines(dir, line_idx as nat),
                forall|c: int|
                    0 <= c < 16 && line_of(dir, c) < line_idx ==> #[trigger] out@[c] == self.slide(dir)[c],
                forall|c: int|
                    0 <= c < 16 && line_of(dir, c) >= line_idx ==> #[trigger] out@[c] == self@[c],
                changed == (exists|l: int|
                    0 <= l < line_idx && slid(#[trigger] self.line(dir, l)) != self.line(dir, l)),
        {
            let l: usize = line_idx;
            let idxs: [usize; 4] = match dir {
                Dir::Left => [l * 4, l * 4 + 1, l * 4 + 2, l * 4 + 3],
                Dir::Right => [l * 4 + 3, l * 4 + 2, l * 4 + 1, l * 4],
                Dir::Up => [l, l + 4, l + 8, l + 12],
                Dir::Down => [l + 12, l + 8, l + 4, l],
            };
            assert(forall|p: int| 0 <= p < 4 ==> #[trigger] idxs@[p] == cell(dir, l as int, p));
            let input: [u8; 4] = [
                self.0[idxs[0]],
                self.0[idxs[1]],
                self.0[idxs[2]],
                self.0[idxs[3]],
            ];
            let ghost row = self.line(dir, l as int);
            assert(input@ =~= row);
            proof {
                self.lemma_scores_grow(dir, (l + 1) as nat, 4);
                crate::line::lemma_slid_len(row);
            }
            let (line, r) = merge_line(input);
            reward = reward + r;
            let mut same: bool = true;
            for k in 0..4usize
                invariant
                    same == (forall|j: int| 0 <= j < k ==> line@[j] == input@[j]),
            {
                if line[k] != input[k] {
                    same = false;
                }
            }
            assert(same == (line@ =~= input@));
            if !same {
                changed = true;
                assert(slid(self.line(dir, l as int)) != self.line(dir, l as int));
            }
            let ghost before = out@;
            for k in 0..4usize
                invariant
                    l < 4,
                    forall|p: int| 0 <= p < 4 ==> #[trigger] idxs@[p] == cell(dir, l as int, p),
                    forall|p: int| 0 <= p < k ==> out@[#[trigger] cell(dir, l as int, p)] == line@[p],
                    forall|c: int|
                        0 <= c < 16 && line_of(dir, c) != l ==> #[trigger] out@[c] == before[c],
            {
                assert(idxs@[k as int] == cell(dir, l as int, k as int));
                assert(line_of(dir, cell(dir, l as int, k as int)) == l);
                let ghost prior = out@;
                out.0[idxs[k]] = line[k];
                assert(out@ =~= prior.update(cell(dir, l as int, k as int), line@[k as int]));
            }
            assert forall|c: int| 0 <= c < 16 && line_of(dir, c) < l + 1 implies #[trigger] out@[c]
                == self.slide(dir)[c] by {
                if line_of(dir, c) == l {
                    assert(cell(dir, l as int, pos_of(dir, c)) == c);
                }
            }
        }
        proof {
            assert(out@ =~= self.slide(dir));
            self.lemma_legal_by_lines(dir);
        }
        if changed {
            Some((out, reward))
        } else {
            None
        }
    }

    proof fn lemma_scores_grow(self, dir: Dir, a: nat, b: nat)
        requires
            a <= b,
        ensures
            self.score_of_lines(dir, a) <= self.score_of_lines(dir, b),
        decreases b,
    {
        if a < b {
            self.lemma_scores_grow(dir, a, (b - 1) as nat);
        }
    }

    /// A direction is legal exactly where sliding changes one of the lines.
    pub proof fn lemma_legal_by_lines(self, dir: Dir)
        ensures
            self.legal(dir) == (exists|l: int|
                0 <= l < 4 && slid(#[trigger] self.line(dir, l)) != self.line(dir, l)),
    {
        if exists|l: int| 0 <= l < 4 && slid(#[trigger] self.line(dir, l)) != self.line(dir, l) {
            let l = choose|l: int|
                0 <= l < 4 && slid(#[trigger] self.line(dir, l)) != self.line(dir, l);
            let row = self.line(dir, l);
            crate::line::lemma_slid_len(row);
            if slid(row) =~= row {
            } else {
                let p = choose|p: int| 0 <= p < 4 && slid(row)[p] != row[p];
                let c = cell(dir, l, p);
                assert(line_of(dir, c) == l && pos_of(dir, c) == p);
                assert(self.slide(dir)[c] != self@[c]);
            }
        } else {
            assert forall|c: int| 0 <= c < 16 implies self.slide(dir)[c] == self@[c] by {
                let l = line_of(dir, c);
                assert(slid(self.line(dir, l)) == self.line(dir, l));
                assert(cell(dir, l, pos_of(dir, c)) == c);
            }
            assert(self.slide(dir) =~= self@);
        }
    }

    /// The legal moves: the direction, the board after it, and its score.
    pub fn legal_moves(self) -> (r: Vec<(Dir, Board, u64)>)
        requires
            self.scores_fit(),
        ensures
            r@.len() == self.legal_dirs().len(),
            forall|i: int|
                0 <= i < r@.len() ==> (#[trigger] r@[i]).0 == self.legal_dirs()[i] && self.is_move(
                    r@[i].0,
                    r@[i].1,
                    r@[i].2,
                ),
    {
        let dirs = all_directions();
        let mut moves: Vec<(Dir, Board, u64)> = Vec::new();
        let ghost keep = |d: Dir| self.legal(d);
        proof {
            reveal(Seq::filter);
            assert(directions().take(0).filter(keep) =~= seq![]);
        }
        for i in 0..4usize
            invariant
                self.scores_fit(),
                dirs@ == directions(),
                keep == (|d: Dir| self.legal(d)),
                moves@.len() == directions().take(i as int).filter(keep).len(),
                forall|j: int|
                    0 <= j < moves@.len() ==> (#[trigger] moves@[j]).0 == directions().take(
                        i as int,
                    ).filter(keep)[j] && self.is_move(moves@[j].0, moves@[j].1, moves@[j].2),
        {
            let d = dirs[i];
            proof {
                reveal(Seq::filter);
                assert(directions().take(i + 1).drop_last() =~= directions().take(i as int));
            }
            match self.moved(d) {
                Some((b, score)) => {
                    moves.push((d, b, score));
                },
                None => {},
            }
        }
        assert(directions().take(4) =~= directions());
        moves
    }

    /// The board with a new tile on its empty cell number `pick`: the tile that
    /// `word` gives.
    pub fn spawn_with(self, pick: usize, word: u64) -> (r: Board)
        requires
            pick < self.empties().len(),
        ensures
            r@ == self.with_tile(pick as int, word),
    {
        let mut seen: usize = 0;
        let mut i: usize = 0;
        let ghost all = self.empties();
        while i < 16
            invariant
                i <= 16,
                all == self.empties(),
                pick < all.len(),
                seen == empty_among(self@, i as nat).len(),
                seen <= pick,
            decreases 16 - i,
        {
            if self.0[i] == 0 {
                if seen == pick {
                    proof {
                        lemma_empty_prefix(self@, (i + 1) as nat, 16);
                        assert(empty_among(self@, (i + 1) as nat)[seen as int] == i);
                    }
                    let mut out = self;
                    out.0[i] = if word / 2048 < NINE_TENTHS {
                        1
                    } else {
                        2
                    };
                    assert(out@ =~= self.with_tile(pick as int, word));
                    return out;
                }
                seen = seen + 1;
            }
            i = i + 1;
        }
        self
    }

    /// The board after a tile appeared: on an empty cell drawn uniformly, a two or a
    /// four. A full board stays as it is.
    pub fn spawn(self, rng: &mut SmallRng) -> (r: Board)
        ensures
            is_spawn(self, r),
            spawned(self, *old(rng), r, *final(rng)),
            self.empties().len() == 0 ==> *final(rng) == *old(rng),
    {
        let n = self.empty_count();
        if n == 0 {
            return self;
        }
        let ghost before = *rng;
        let pick = draw_below(rng, n);
        let ghost middle = *rng;
        let word = draw_word(rng);
        let r = self.spawn_with(pick, word);
        assert(n == self.empties().len() as usize);
        assert(draws_below(before, self.empties().len() as usize, pick, middle));
        assert(draws_word(middle, word, *rng));
        r
    }

    /// A starting board: two tiles on an empty board.
    pub fn initial(rng: &mut SmallRng) -> (r: Board)
        ensures
            is_initial(r),
            started(*old(rng), r, *final(rng)),
    {
        let none = Board::empty();
        let ghost before = *rng;
        let one = none.spawn(rng);
        let ghost middle = *rng;
        let two = one.spawn(rng);
        assert(is_spawn(none, one) && is_spawn(one, two));
        assert(spawned(none, before, one, middle) && spawned(one, middle, two, *rng));
        two
    }

    /// The tiles of the board as the numbers that they show.
    pub fn values(self) -> (r: [u64; 16])
        requires
            forall|i: int| 0 <= i < 16 ==> tile_value(#[trigger] self@[i]) <= u64::MAX,
        ensures
            forall|i: int| 0 <= i < 16 ==> #[trigger] r@[i] == tile_value(self@[i]),
    {
        let mut out: [u64; 16] = [0u64; 16];
        for i in 0..16usize
            invariant
                forall|j: int| 0 <= j < 16 ==> tile_value(#[trigger] self@[j]) <= u64::MAX,
                forall|j: int| 0 <= j < i ==> #[trigger] out@[j] == tile_value(self@[j]),
        {
            let e = self.0[i];
            assert(tile_value(self@[i as int]) <= u64::MAX);
            out[i] = if e == 0 {
                0
            } else {
                power_of_two(e)
            };
        }
        out
    }
}

/// A board that a game starts from.
pub open spec fn is_initial(b: Board) -> bool {
    exists|none: Board, one: Board|
        none@ == Seq::new(16, |i: int| 0u8) && #[trigger] is_spawn(none, one) && #[trigger] is_spawn(
            one,
            b,
        )
}

/// Looking at more cells only adds to the empty cells found so far.
proof fn lemma_empty_prefix(cells: Seq<u8>, a: nat, b: nat)
    requires
        a <= b,
    ensures
        empty_among(cells, a).len() <= empty_among(cells, b).len(),
        forall|j: int|
            0 <= j < empty_among(cells, a).len() ==> #[trigger] empty_among(cells, a)[j] == empty_among(
                cells,
                b,
            )[j],
    decreases b,
{
    if a < b {
        lemma_empty_prefix(cells, a, (b - 1) as nat);
    }
}

/// The cells listed as empty are the empty ones.
pub proof fn lemma_empties_are_empty(cells: Seq<u8>, n: nat)
    ensures
        empty_among(cells, n).len() <= n,
        forall|j: int|
            0 <= j < empty_among(cells, n).len() ==> 0 <= #[trigger] empty_among(cells, n)[j] < n
                && cells[empty_among(cells, n)[j]] == 0,
        forall|c: int| 0 <= c < n && #[trigger] cells[c] == 0 ==> empty_among(cells, n).contains(c),
    decreases n,
{
    if n > 0 {
        lemma_empties_are_empty(cells, (n - 1) as nat);
        let front = empty_among(cells, (n - 1) as nat);
        let all = empty_among(cells, n);
        assert forall|c: int| 0 <= c < n && #[trigger] cells[c] == 0 implies all.contains(c) by {
            if c == n - 1 {
                assert(all[all.len() - 1] == c);
            } else {
                let j = choose|j: int| 0 <= j < front.len() && front[j] == c;
                assert(all[j] == c);
            }
        }
    }
}

/// Nine words in ten put a two on the board, up to one part in `2^50`.
pub proof fn law_nine_words_in_ten_give_a_two(word: u64)
    ensures
        tile_of_word(word) == 1 <==> word < 2048 * NINE_TENTHS,
        9 * 0x1_0000_0000_0000_0000 <= 10 * (2048 * NINE_TENTHS) < 9 * 0x1_0000_0000_0000_0000 + 0x4000,
{
}

} // verus!
