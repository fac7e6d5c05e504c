//! Whole games: a fixed number of simulations for every move, or one search after the
//! other with a record of each.

use crate::arith::{count, evaluates, num, Arithmetic, Formula, Term};
use crate::board::{
    is_initial, is_spawn, lemma_board_ext, lemma_empties_are_empty, spawned, started, Board, Dir,
};
use crate::double::Double;
use crate::growth::{
    board_of, law_caps_are_ordered, law_games_start_with_a_move, law_headroom_bounds,
    law_initial_board, law_largest_tile_of_a_game, law_legal_move_leaves_room, lemma_board_of,
    GAME_CAP, HEADROOM,
};
use crate::limits::SearchConstraints;
use crate::line::tile_value;
use crate::live::SearchOutcome;
use crate::policy::Policy;
use crate::random::{generator, is_seeded};
use crate::search::{choose_move, is_best_move, searched, SearchCfg};
use crate::snapshot::RootActionSnapshot;
use crate::span::Span;
use crate::tree::Node;
use crate::turns::{
    allowed, board_after, law_games_end, law_headroom_is_playable, law_play_account,
    law_playable_scores_fit, law_points_are_of_fours, law_score_of_a_game, lemma_one_more_tile,
    lemma_one_more_turn, points, tiles_from, Turn,
};
use rand::rngs::SmallRng;
use vstd::arithmetic::power2::lemma2_to64;
use vstd::prelude::*;

verus! {

/// The odd number that spreads the searches of a game over the seeds.
pub const SEARCH_STRIDE: u64 = 0x9E37_79B9_7F4A_7C15;

/// What tells the seeds of the searches from that of the game.
pub const SEARCH_SALT: u64 = 0xD1B5_4A32_D192_ED03;

/// The seed of the search for a move of a game. It depends on the game and the number of
/// the move alone, so that no search touches the tiles that appear.
#[verifier::allow_in_spec]
pub fn search_seed(seed: u64, moves: usize) -> (r: u64)
    returns
        seed ^ (moves as u64).wrapping_mul(SEARCH_STRIDE) ^ SEARCH_SALT,
{
    seed ^ (moves as u64).wrapping_mul(SEARCH_STRIDE) ^ SEARCH_SALT
}

/// A search of `simulations` simulations with a generator that starts from `seed` chooses
/// `dir` on a board.
pub open spec fn search_picks<K: Arithmetic>(
    k: &K,
    cfg: SearchCfg,
    simulations: nat,
    seed: u64,
    board: Board,
    dir: Dir,
) -> bool {
    exists|root: Node, start: SmallRng, end: SmallRng|
        {
            &&& is_seeded(seed, start)
            &&& #[trigger] searched(k, cfg, board, simulations, root, start, end)
            &&& is_best_move(root, dir)
        }
}

/// Every turn is what a search of `simulations` simulations chooses, whose generator
/// starts from the seed of the search.
#[verifier::opaque]
pub open spec fn turns_are_searched<K: Arithmetic>(
    k: &K,
    cfg: SearchCfg,
    simulations: nat,
    seed: u64,
    start: Board,
    turns: Seq<Turn>,
) -> bool {
    forall|i: int|
        0 <= i < turns.len() ==> search_picks(
            k,
            cfg,
            simulations,
            search_seed(seed, i as usize),
            board_after(start, turns.take(i)),
            (#[trigger] turns[i]).dir,
        )
}

/// The tiles of a game, those of its starting board and those after its moves, come from
/// one generator that starts from `seed`; nothing else was drawn from it, and it is `after`
/// now.
pub open spec fn tiles_are_seeded(seed: u64, start: Board, turns: Seq<Turn>, after: SmallRng) -> bool {
    exists|first: SmallRng, second: SmallRng|
        {
            &&& is_seeded(seed, first)
            &&& #[trigger] started(first, start, second)
            &&& tiles_from(second, start, turns, after)
        }
}

/// One more turn of a game whose tiles come from one generator.
proof fn lemma_one_more_seeded_tile(
    seed: u64,
    start: Board,
    turns: Seq<Turn>,
    middle: SmallRng,
    t: Turn,
    after: SmallRng,
)
    requires
        tiles_are_seeded(seed, start, turns, middle),
        spawned(board_of(board_after(start, turns).slide(t.dir)), middle, t.after, after),
    ensures
        tiles_are_seeded(seed, start, turns.push(t), after),
{
    let (first, second) = choose|first: SmallRng, second: SmallRng|
        {
            &&& is_seeded(seed, first)
            &&& #[trigger] started(first, start, second)
            &&& tiles_from(second, start, turns, middle)
        };
    lemma_one_more_tile(second, start, turns, middle, t, after);
    assert(started(first, start, second));
}

/// A whole game.
pub open spec fn is_complete(start: Board, turns: Seq<Turn>) -> bool {
    is_initial(start) && allowed(start, turns) && board_after(start, turns).stuck()
}

/// The result of a game, and what it was played with.
#[derive(Debug)]
pub struct GameResult {
    pub seed: u64,
    pub policy: String,
    pub simulations: usize,
    pub mc_samples: usize,
    pub final_score: u64,
    pub max_tile: u64,
    pub moves: usize,
}

impl GameResult {
    /// The score, the largest tile and the number of moves are those of the game.
    pub open spec fn is_of(self, start: Board, turns: Seq<Turn>) -> bool {
        &&& self.final_score == points(start, turns)
        &&& self.max_tile == tile_value(board_after(start, turns).top())
        &&& self.moves == turns.len()
    }

    /// The result is that of a whole game from a seed, each move chosen by a search with so
    /// many simulations. The tiles come from a generator of their own, which starts from the
    /// seed and which no search draws from; each search starts from its own seed.
    pub open spec fn is_game<K: Arithmetic>(
        self,
        k: &K,
        cfg: SearchCfg,
        simulations: usize,
        seed: u64,
    ) -> bool {
        &&& self.seed == seed
        &&& self.policy@ == cfg.policy.title()
        &&& self.simulations == simulations
        &&& self.mc_samples == (match cfg.policy {
            Policy::McVoc(n) => n,
            _ => 0,
        })
        &&& exists|start: Board, turns: Seq<Turn>, after: SmallRng|
            {
                &&& #[trigger] tiles_are_seeded(seed, start, turns, after)
                &&& is_complete(start, turns)
                &&& turns_are_searched(k, cfg, simulations as nat, seed, start, turns)
                &&& self.is_of(start, turns)
            }
    }

    /// `t` is how long the game took, and how many simulations came to a second: none
    /// where no time has passed.
    pub open spec fn is_timing<K: Arithmetic>(self, k: &K, elapsed: Span, t: Timing) -> bool {
        exists|seconds: Double|
            {
                &&& #[trigger] evaluates(k, Formula::Seconds(elapsed), seconds)
                &&& evaluates(k, num(seconds).times(num(Double::thousand())), t.wall_ms)
                &&& if Double::zero().below(seconds) {
                    evaluates(
                        k,
                        count(self.simulations as u64).times(count(self.moves as u64)).over(num(seconds)),
                        t.sims_per_second,
                    )
                } else {
                    t.sims_per_second == Double::zero()
                }
            }
    }

    /// How long the game took, and how many simulations came to a second.
    pub fn timing<K: Arithmetic>(&self, k: &K, elapsed: Span) -> (r: Timing)
        ensures
            self.is_timing(k, elapsed, r),
    {
        let seconds = Term::seconds(k, elapsed).value;
        let wall_ms = Term::num(k, seconds).times(k, Term::num(k, Double::thousand())).value;
        let sims_per_second = if Double::zero().lt(seconds) {
            let total = Term::count(k, self.simulations as u64).times(
                k,
                Term::count(k, self.moves as u64),
            );
            total.over(k, Term::num(k, seconds)).value
        } else {
            Double::zero()
        };
        assert(evaluates(k, Formula::Seconds(elapsed), seconds));
        Timing { wall_ms, sims_per_second }
    }
}

/// The time that a game took, in milliseconds, and its simulations by the second.
#[derive(Clone, Copy, Debug)]
pub struct Timing {
    pub wall_ms: Double,
    pub sims_per_second: Double,
}

proof fn lemma_searched_one_more_turn<K: Arithmetic>(
    k: &K,
    cfg: SearchCfg,
    simulations: nat,
    seed: u64,
    start: Board,
    turns: Seq<Turn>,
    t: Turn,
)
    requires
        turns_are_searched(k, cfg, simulations, seed, start, turns),
        search_picks(
            k,
            cfg,
            simulations,
            search_seed(seed, turns.len() as usize),
            board_after(start, turns),
            t.dir,
        ),
    ensures
        turns_are_searched(k, cfg, simulations, seed, start, turns.push(t)),
{
    reveal(turns_are_searched);
    let more = turns.push(t);
    assert forall|i: int| 0 <= i < more.len() implies search_picks(
        k,
        cfg,
        simulations,
        search_seed(seed, i as usize),
        board_after(start, more.take(i)),
        (#[trigger] more[i]).dir,
    ) by {
        if i < turns.len() {
            assert(more.take(i) =~= turns.take(i));
            assert(turns[i] == more[i]);
        } else {
            assert(more.take(i) =~= turns);
        }
    }
}

/// What holds of the board in the middle of a game.
proof fn lemma_mid_game(start: Board, turns: Seq<Turn>)
    requires
        is_initial(start),
        allowed(start, turns),
    ensures
        board_after(start, turns).playable(),
        board_after(start, turns).scores_fit(),
        tile_value(board_after(start, turns).top()) <= u64::MAX,
        turns.len() <= 1_048_574,
        points(start, turns) <= u64::MAX,
        forall|i: int|
            0 <= i < 16 ==> tile_value(#[trigger] board_after(start, turns)@[i]) <= u64::MAX,
{
    law_initial_board(start);
    law_caps_are_ordered(start, GAME_CAP as int, HEADROOM as int);
    law_play_account(start, turns);
    law_games_end(start, turns);
    law_headroom_is_playable(board_after(start, turns));
    law_playable_scores_fit(board_after(start, turns));
    law_headroom_bounds(start);
    law_largest_tile_of_a_game(board_after(start, turns));
}

/// Plays a game to its end, each move chosen by a search with the given number of
/// simulations. The tiles come from a generator of their own, which starts from the seed
/// and which no search draws from; each search starts from its own seed.
pub fn play_game<K: Arithmetic>(seed: u64, simulations: usize, cfg: &SearchCfg, k: &K) -> (r: GameResult)
    requires
        simulations <= u32::MAX,
    ensures
        r.is_game(k, *cfg, simulations, seed),
{
    let mut env_rng = generator(seed);
    let ghost first = env_rng;
    let start = Board::initial(&mut env_rng);
    assert(started(first, start, env_rng));
    let mut board = start;
    let mut score: u64 = 0;
    let mut moves: usize = 0;
    let ghost mut turns: Seq<Turn> = seq![];
    assert(turns_are_searched(k, *cfg, simulations as nat, seed, start, turns)) by {
        reveal(turns_are_searched);
    }
    loop
        invariant
            simulations <= u32::MAX,
            is_initial(start),
            allowed(start, turns),
            turns_are_searched(k, *cfg, simulations as nat, seed, start, turns),
            tiles_are_seeded(seed, start, turns, env_rng),
            board == board_after(start, turns),
            score == points(start, turns),
            moves == turns.len(),
        ensures
            is_complete(start, turns),
        decreases 1_048_575 - moves,
    {
        proof {
            lemma_mid_game(start, turns);
        }
        let mut search_rng = generator(search_seed(seed, moves));
        let ghost search_start = search_rng;
        let dir = match choose_move(board, simulations, cfg, k, &mut search_rng) {
            Some(dir) => dir,
            None => {
                break;
            },
        };
        let (moved, reward) = match board.moved(dir) {
            Some(m) => m,
            None => {
                break;
            },
        };
        let ghost middle = env_rng;
        let next = moved.spawn(&mut env_rng);
        proof {
            let t = Turn { dir, after: next };
            lemma_board_of(board.slide(dir));
            lemma_board_ext(moved, board_of(board.slide(dir)));
            lemma_one_more_turn(start, turns, t);
            let root = choose|root: Node| #[trigger]
                searched(
                    k,
                    *cfg,
                    board,
                    simulations as nat,
                    root,
                    search_start,
                    search_rng,
                ) && is_best_move(root, dir);
            assert(is_seeded(search_seed(seed, moves), search_start));
            assert(searched(k, *cfg, board, simulations as nat, root, search_start, search_rng));
            assert(search_picks(
                k,
                *cfg,
                simulations as nat,
                search_seed(seed, moves),
                board,
                dir,
            ));
            lemma_searched_one_more_turn(k, *cfg, simulations as nat, seed, start, turns, t);
            lemma_one_more_seeded_tile(seed, start, turns, middle, t, env_rng);
            turns = turns.push(t);
            lemma_mid_game(start, turns);
        }
        score = score + reward;
        moves = moves + 1;
        board = next;
    }
    proof {
        lemma_mid_game(start, turns);
        assert(tiles_are_seeded(seed, start, turns, env_rng));
    }
    GameResult {
        seed,
        policy: cfg.policy.name(),
        simulations,
        mc_samples: cfg.policy.mc_samples(),
        final_score: score,
        max_tile: board.max_tile(),
        moves,
    }
}

/// The board shows these numbers.
pub open spec fn shows(b: Board, values: [u64; 16]) -> bool {
    forall|j: int| 0 <= j < 16 ==> #[trigger] values@[j] == tile_value(b@[j])
}

/// One move of a traced game: the boards as the numbers they show, the new tile, and
/// the search that chose the move.
#[derive(Debug)]
pub struct TraceStep {
    pub move_index: usize,
    pub score_before: u64,
    pub score_after: u64,
    pub board_before: [u64; 16],
    pub chosen: Dir,
    pub reward: u64,
    pub compute_elapsed: Span,
    pub wall_elapsed: Span,
    pub excluded_overhead: Span,
    pub simulations: u32,
    pub budget_time: Option<Span>,
    pub budget_simulations: Option<usize>,
    pub unlimited: bool,
    pub stopped_by_voc: bool,
    pub max_voc: Double,
    pub voc_cost: Option<Double>,
    pub spawn_index: usize,
    pub spawn_tile: u64,
    pub board_after: [u64; 16],
    pub actions: Vec<RootActionSnapshot>,
}

/// The limit in force on the number of simulations, as a number.
pub open spec fn is_budget(c: SearchConstraints, budget: Option<usize>) -> bool {
    match (c.simulation_limit, budget) {
        (Some(limit), Some(n)) => n == limit.size(),
        (None, None) => true,
        _ => false,
    }
}

impl TraceStep {
    /// The step records turn number `i` of a game.
    pub open spec fn is_turn(self, start: Board, turns: Seq<Turn>, i: int) -> bool {
        let before = board_after(start, turns.take(i));
        let t = turns[i];
        &&& self.move_index == i
        &&& self.chosen == t.dir
        &&& self.score_before == points(start, turns.take(i))
        &&& self.reward == before.slide_score(t.dir)
        &&& self.score_after == points(start, turns.take(i + 1))
        &&& shows(before, self.board_before)
        &&& shows(t.after, self.board_after)
        &&& self.spawn_index < 16
        &&& before.slide(t.dir)[self.spawn_index as int] == 0
        &&& t.after@ == before.slide(t.dir).update(
            self.spawn_index as int,
            t.after@[self.spawn_index as int],
        )
        &&& self.spawn_tile == tile_value(t.after@[self.spawn_index as int])
        &&& self.spawn_tile == 2 || self.spawn_tile == 4
    }

    /// The step records a search.
    pub open spec fn is_search(self, s: SearchOutcome) -> bool {
        &&& self.chosen == s.dir
        &&& self.compute_elapsed == s.compute_elapsed
        &&& self.wall_elapsed == s.wall_elapsed
        &&& self.excluded_overhead == s.excluded_overhead
        &&& self.simulations == s.simulations
        &&& self.budget_time == s.constraints.time_limit
        &&& is_budget(s.constraints, self.budget_simulations)
        &&& self.unlimited == s.constraints.uncapped()
        &&& self.stopped_by_voc == s.stopped_by_voc
        &&& self.max_voc == s.max_voc
        &&& self.voc_cost == s.constraints.min_voc
        &&& self.actions == s.root.actions
    }
}

/// A traced game in progress.
pub struct TraceRun {
    pub seed: u64,
    pub board: Board,
    pub score: u64,
    pub steps: Vec<TraceStep>,
    pub env_rng: SmallRng,
    pub start: Ghost<Board>,
    pub turns: Ghost<Seq<Turn>>,
}

/// A traced game.
#[derive(Debug)]
pub struct GameTrace {
    pub seed: u64,
    pub policy: String,
    pub simulations: Option<usize>,
    pub time_limit: Option<Span>,
    pub voc_cost: Option<Double>,
    pub final_score: u64,
    pub max_tile: u64,
    pub moves: Vec<TraceStep>,
}

impl GameTrace {
    /// The trace is that of the game so far, with the constraints that it started under.
    pub open spec fn is_of(self, run: TraceRun, policy: Policy, constraints: SearchConstraints) -> bool {
        &&& self.seed == run.seed
        &&& self.policy@ == policy.title()
        &&& is_budget(constraints, self.simulations)
        &&& self.time_limit == constraints.time_limit
        &&& self.voc_cost == constraints.min_voc
        &&& self.final_score == run.score
        &&& self.max_tile == tile_value(run.board.top())
        &&& self.moves == run.steps
    }
}

/// The steps record the turns of a game, one each.
pub open spec fn are_turns(start: Board, turns: Seq<Turn>, steps: Seq<TraceStep>) -> bool {
    &&& steps.len() == turns.len()
    &&& forall|i: int| 0 <= i < steps.len() ==> (#[trigger] steps[i]).is_turn(start, turns, i)
}

/// The number of simulations in a limit.
pub fn budget_of(c: SearchConstraints) -> (r: Option<usize>)
    ensures
        is_budget(c, r),
{
    match c.simulation_limit {
        Some(limit) => Some(limit.get()),
        None => None,
    }
}

/// The first cell in which two boards differ, or the first cell of all.
pub fn first_difference(a: Board, b: Board) -> (r: usize)
    ensures
        r < 16,
        match first_unlike(a, b, 0) {
            Some(i) => r == i,
            None => r == 0,
        },
{
    let mut i: usize = 0;
    while i < 16
        invariant
            i <= 16,
            first_unlike(a, b, 0) == first_unlike(a, b, i as int),
        decreases 16 - i,
    {
        if a.0[i] != b.0[i] {
            return i;
        }
        i = i + 1;
    }
    0
}

/// The first cell from `i` on in which two boards differ.
pub open spec fn first_unlike(a: Board, b: Board, i: int) -> Option<int>
    decreases 16 - i,
{
    if i >= 16 {
        None
    } else if a@[i] != b@[i] {
        Some(i)
    } else {
        first_unlike(a, b, i + 1)
    }
}

proof fn lemma_spawn_is_the_difference(a: Board, b: Board, i: int, from: int)
    requires
        0 <= from <= i < 16,
        a@[i] != b@[i],
        forall|j: int| 0 <= j < 16 && j != i ==> a@[j] == b@[j],
    ensures
        first_unlike(a, b, from) == Some(i),
    decreases i - from,
{
    if from < i {
        assert(a@[from] == b@[from]);
        lemma_spawn_is_the_difference(a, b, i, from + 1);
    }
}

proof fn lemma_steps_stay(start: Board, turns: Seq<Turn>, steps: Seq<TraceStep>, t: Turn, s: TraceStep)
    requires
        are_turns(start, turns, steps),
        s.is_turn(start, turns.push(t), turns.len() as int),
    ensures
        are_turns(start, turns.push(t), steps.push(s)),
{
    let more = turns.push(t);
    assert forall|i: int| 0 <= i < steps.push(s).len() implies (#[trigger] steps.push(s)[i]).is_turn(
        start,
        more,
        i,
    ) by {
        if i < steps.len() {
            assert(steps[i].is_turn(start, turns, i));
            assert(more.take(i) =~= turns.take(i));
            assert(more.take(i + 1) =~= turns.take(i + 1));
        }
    }
}

/// The cell that a new tile appeared on.
proof fn lemma_spawn_cell(a: Board, b: Board) -> (i: int)
    requires
        is_spawn(a, b),
        a.empties().len() > 0,
    ensures
        0 <= i < 16,
        a@[i] == 0,
        b@ == a@.update(i, b@[i]),
        b@[i] == 1 || b@[i] == 2,
        tile_value(b@[i]) == 2 || tile_value(b@[i]) == 4,
{
    let (pick, word) = choose|pick: int, word: u64|
        0 <= pick < a.empties().len() && b@ == #[trigger] a.with_tile(pick, word);
    lemma_empties_are_empty(a@, 16);
    lemma2_to64();
    a.empties()[pick]
}

impl TraceRun {
    /// The state of a traced game is in order: there is a game from a starting board to
    /// the present one, whose turns the steps record and whose tiles come from the
    /// generator of the game, which started from its seed.
    pub open spec fn wf(self) -> bool {
        &&& tiles_are_seeded(self.seed, self.start@, self.turns@, self.env_rng)
        &&& is_initial(self.start@)
        &&& allowed(self.start@, self.turns@)
        &&& self.board == board_after(self.start@, self.turns@)
        &&& self.score == points(self.start@, self.turns@)
        &&& are_turns(self.start@, self.turns@, self.steps@)
    }

    /// Starts a traced game.
    pub fn start(seed: u64) -> (r: TraceRun)
        ensures
            r.wf(),
            r.seed == seed,
            r.steps@.len() == 0,
            r.score == 0,
    {
        let mut env_rng = generator(seed);
        let ghost first = env_rng;
        let board = Board::initial(&mut env_rng);
        assert(started(first, board, env_rng));
        assert(tiles_are_seeded(seed, board, Seq::empty(), env_rng));
        TraceRun {
            seed,
            board,
            score: 0,
            steps: Vec::new(),
            env_rng,
            start: Ghost(board),
            turns: Ghost(Seq::empty()),
        }
    }

    /// The seed of the next search.
    pub fn next_seed(&self) -> (r: u64)
        ensures
            r == search_seed(self.seed, self.steps.len()),
    {
        search_seed(self.seed, self.steps.len())
    }

    /// The generator of the next search, which starts from [`TraceRun::next_seed`].
    pub fn search_rng(&self) -> (r: SmallRng)
        ensures
            is_seeded(search_seed(self.seed, self.steps.len()), r),
    {
        generator(self.next_seed())
    }

    /// Plays the move of a search and records it. Where the move is not legal nothing
    /// happens, and the answer is no.
    pub fn record(&mut self, search: SearchOutcome) -> (r: bool)
        requires
            old(self).wf(),
        ensures
            final(self).wf(),
            r == old(self).board.legal(search.dir),
            !r ==> *final(self) == *old(self),
            r ==> {
                &&& spawned(
                    board_of(old(self).board.slide(search.dir)),
                    old(self).env_rng,
                    final(self).board,
                    final(self).env_rng,
                )
                &&& final(self).seed == old(self).seed
                &&& final(self).start == old(self).start
                &&& final(self).turns@ == old(self).turns@.push(
                    Turn { dir: search.dir, after: final(self).board },
                )
                &&& final(self).steps@.len() == old(self).steps@.len() + 1
                &&& final(self).steps@.drop_last() == old(self).steps@
                &&& final(self).steps@.last().is_search(search)
            },
    {
        proof {
            lemma_mid_game(self.start@, self.turns@);
        }
        let before = self.board;
        let (moved, reward) = match before.moved(search.dir) {
            Some(m) => m,
            None => {
                return false;
            },
        };
        let ghost middle = self.env_rng;
        let next = moved.spawn(&mut self.env_rng);
        let ghost turn = Turn { dir: search.dir, after: next };
        let ghost turns = self.turns@;
        let ghost start = self.start@;
        let ghost steps = self.steps@;
        proof {
            lemma_board_of(before.slide(search.dir));
            lemma_board_ext(moved, board_of(before.slide(search.dir)));
            lemma_one_more_turn(start, turns, turn);
            lemma_one_more_seeded_tile(self.seed, start, turns, middle, turn, self.env_rng);
            lemma_mid_game(start, turns.push(turn));
            law_legal_move_leaves_room(before, search.dir, moved);
            let i = lemma_spawn_cell(moved, next);
            lemma_spawn_is_the_difference(moved, next, i, 0);
        }
        let spawn_index = first_difference(moved, next);
        let after_values = next.values();
        let score_after = self.score + reward;
        let step = TraceStep {
            move_index: self.steps.len(),
            score_before: self.score,
            score_after,
            board_before: before.values(),
            chosen: search.dir,
            reward,
            compute_elapsed: search.compute_elapsed,
            wall_elapsed: search.wall_elapsed,
            excluded_overhead: search.excluded_overhead,
            simulations: search.simulations,
            budget_time: search.constraints.time_limit,
            budget_simulations: budget_of(search.constraints),
            unlimited: search.constraints.hard_limits_disabled(),
            stopped_by_voc: search.stopped_by_voc,
            max_voc: search.max_voc,
            voc_cost: search.constraints.min_voc,
            spawn_index,
            spawn_tile: after_values[spawn_index],
            board_after: after_values,
            actions: search.root.actions,
        };
        proof {
            let more = turns.push(turn);
            assert(more.take(turns.len() as int) =~= turns);
            assert(more.take(turns.len() as int + 1) =~= more);
            assert(step.is_turn(start, more, turns.len() as int));
            lemma_steps_stay(start, turns, steps, turn, step);
        }
        self.steps.push(step);
        self.score = score_after;
        self.board = next;
        self.turns = Ghost(turns.push(turn));
        assert(self.steps@.drop_last() =~= steps);
        true
    }

    /// The trace of the game so far, with the constraints that it started under.
    pub fn finish(self, policy: Policy, constraints: SearchConstraints) -> (r: GameTrace)
        requires
            self.wf(),
        ensures
            r.is_of(self, policy, constraints),
    {
        proof {
            lemma_mid_game(self.start@, self.turns@);
        }
        GameTrace {
            seed: self.seed,
            policy: policy.name(),
            simulations: budget_of(constraints),
            time_limit: constraints.time_limit,
            voc_cost: constraints.min_voc,
            final_score: self.score,
            max_tile: self.board.max_tile(),
            moves: self.steps,
        }
    }
}

/// The board of a traced game can always be searched, and its moves can be counted.
pub proof fn law_traced_board_is_in_play(run: TraceRun)
    requires
        run.wf(),
    ensures
        run.board.playable(),
        run.steps@.len() <= 1_048_574,
{
    lemma_mid_game(run.start@, run.turns@);
}

/// The steps of a trace follow on from one another: each starts from the board and the
/// score that the one before it ended with, and adds its reward to the score.
pub proof fn law_trace_steps_follow_on(run: TraceRun, i: int)
    requires
        run.wf(),
        0 <= i < run.steps@.len(),
    ensures
        run.steps@[i].move_index == i,
        run.steps@[i].score_after == run.steps@[i].score_before + run.steps@[i].reward,
        i == 0 ==> run.steps@[i].score_before == 0,
        i > 0 ==> run.steps@[i].score_before == run.steps@[i - 1].score_after,
        i > 0 ==> run.steps@[i].board_before@ =~= run.steps@[i - 1].board_after@,
        i + 1 == run.steps@.len() ==> run.steps@[i].score_after == run.score,
        i + 1 == run.steps@.len() ==> shows(run.board, run.steps@[i].board_after),
{
    let turns = run.turns@;
    let start = run.start@;
    assert(run.steps@[i].is_turn(start, turns, i));
    assert(turns.take(i + 1).drop_last() =~= turns.take(i));
    assert(turns.take(i + 1).last() == turns[i]);
    if i > 0 {
        assert(run.steps@[i - 1].is_turn(start, turns, i - 1));
        assert(turns.take(i).last() == turns[i - 1]);
    }
    if i + 1 == turns.len() {
        assert(turns.take(i + 1) =~= turns);
    }
}

/// The score, the largest tile and the number of moves of a game are those of its turns
/// alone: what the searches observe of the returns, scaled and shifted or not, has no
/// part in them.
pub proof fn law_score_is_of_the_turns(a: GameResult, b: GameResult, start: Board, turns: Seq<Turn>)
    requires
        a.is_of(start, turns),
        b.is_of(start, turns),
    ensures
        a.final_score == b.final_score,
        a.max_tile == b.max_tile,
        a.moves == b.moves,
{
}

/// A game ends with a score of at most what its tiles are worth, no tile above 131072,
/// and fewer than a million and fifty thousand moves.
pub proof fn law_results_are_bounded(r: GameResult, start: Board, turns: Seq<Turn>)
    requires
        is_complete(start, turns),
        r.is_of(start, turns),
    ensures
        r.max_tile <= 131_072,
        r.moves <= 1_048_574,
        r.final_score == board_after(start, turns).worth() - 2 * board_after(
            start,
            turns,
        ).tile_sum() + 4 * r.moves + 8,
{
    law_games_end(start, turns);
    law_score_of_a_game(start, turns);
    law_largest_tile_of_a_game(board_after(start, turns));
}

/// The stride has an inverse modulo `2^64`, so its multiples are all different.
proof fn lemma_stride_is_invertible(x: u64, y: u64)
    requires
        x < y,
    ensures
        x.wrapping_mul(SEARCH_STRIDE) != y.wrapping_mul(SEARCH_STRIDE),
{
    let s = SEARCH_STRIDE as int;
    let m = 0x1_0000_0000_0000_0000int;
    let inverse = 17428512612931826493int;
    let c = 10771413168148108919int;
    assert(s * inverse == 1 + c * m);
    if (x * s) % m == (y * s) % m {
        let d = y - x;
        let q = (y * s) / m - (x * s) / m;
        assert(d * s == q * m) by (nonlinear_arith)
            requires
                d == y - x,
                m > 0,
                (x * s) % m == (y * s) % m,
                q == (y * s) / m - (x * s) / m,
        ;
        let z = q * inverse - d * c;
        assert(d == m * z) by (nonlinear_arith)
            requires
                d * s == q * m,
                s * inverse == 1 + c * m,
                z == q * inverse - d * c,
        ;
        assert(false) by (nonlinear_arith)
            requires
                d == m * z,
                0 < d < m,
        ;
    }
}

/// The searches of a game start from different seeds, one for each of its moves.
pub proof fn law_search_seeds_differ(seed: u64, a: usize, b: usize)
    requires
        a < b,
    ensures
        search_seed(seed, a) != search_seed(seed, b),
{
    let x = a as u64;
    let y = b as u64;
    let p = x.wrapping_mul(SEARCH_STRIDE);
    let q = y.wrapping_mul(SEARCH_STRIDE);
    assert(p != q) by {
        lemma_stride_is_invertible(x, y);
    }
    let s = SEARCH_SALT;
    assert(p != q ==> (seed ^ p) ^ s != (seed ^ q) ^ s) by (bit_vector);
}

/// A traced game that comes to its end is a whole game, and has a move at least.
pub proof fn law_finished_traces_are_whole_games(run: TraceRun)
    requires
        run.wf(),
        run.board.stuck(),
    ensures
        is_complete(run.start@, run.turns@),
        run.steps@.len() >= 1,
        shows(run.board, run.steps@.last().board_after),
{
    law_games_start_with_a_move(run.start@);
    law_trace_steps_follow_on(run, run.steps@.len() - 1);
}

/// A whole game has a move at least, and scores a multiple of four.
pub proof fn law_results_of_whole_games(r: GameResult, start: Board, turns: Seq<Turn>)
    requires
        is_complete(start, turns),
        r.is_of(start, turns),
    ensures
        r.moves >= 1,
        r.final_score % 4 == 0,
{
    law_games_start_with_a_move(start);
    law_points_are_of_fours(start, turns);
}

} // verus!
