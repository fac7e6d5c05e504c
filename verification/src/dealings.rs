//! What the calls around the search promise their callers, told of the calls themselves: of the
//! board, of numbers, of keys, and of games and their accounts.

use crate::accounts::{exact_pace, exact_timing, law_games_are_timed, law_pace_of_a_run};
use crate::arith::Arithmetic;
use crate::binary::{law_numbers_are_ordered_by_value, signed_multiples};
use crate::board::{is_initial, is_spawn, spawned, started, Board, Dir};
use crate::bounds::{all_plain, is_top, lemma_greatest_is_top};
use crate::course::{lemma_ways, law_top_is_the_largest_tile, ways, ways_before};
use crate::double::{greatest_of, greatest_other_than, Double};
use crate::exact::Exact;
use crate::figures::{millis, shows};
use crate::game::{
    is_complete, play_game, search_picks, search_seed, tiles_are_seeded, turns_are_searched,
    GameResult, GameTrace, Timing, TraceRun,
};
use crate::gauges::{law_frame_keys_move_the_frames, law_limit_keys_move_one_limit};
use crate::growth::{board_of, law_spawn_fills_one_cell};
use crate::jobs::{
    benchmark_jobs, game_seed, law_every_combination_is_played, law_resume_plays_what_is_missing,
    schedule, unplayed, was_played, DoneGame, Job, Schedule,
};
use crate::limits::SearchConstraints;
use crate::line::{merge_line, slide_gain, tile_value};
use crate::live::{SearchOutcome, SearchRun};
use crate::policy::Policy;
use crate::random::{draws_below, draws_word, is_seeded};
use crate::search::{is_best_move, searched, SearchCfg};
use crate::session::{Key, KeyCode, LiveCommand, LiveSession};
use crate::slides::{
    has_gap, has_pair, is_slide, law_left_slides_rows, law_legal_directions_have_an_open_line,
    law_lines_join_pairs, law_tiles_appear_where_drawn, lemma_empty_cells_in_order, room, row,
};
use crate::span::{Span, MAX_NANOS};
use crate::summary::{pace, Aggregates, Pace};
use crate::tree::Node;
use crate::turns::{allowed, board_after, points, tiles_from, Turn};
use crate::units::plain;
use rand::rngs::SmallRng;
use vstd::arithmetic::power2::lemma_pow2_strictly_increases;
use vstd::prelude::*;

verus! {

/// A merged line has each pair of equal neighbours joined once, from the front, and scores the
/// tiles that come of it.
pub proof fn law_merging_joins_pairs(input: [u8; 4], r: ([u8; 4], u64))
    requires
        forall|i: int| 0 <= i < 4 ==> #[trigger] input@[i] < 255,
        call_ensures(merge_line, (input,), r),
    ensures
        is_slide(input@, r.0@, r.1 as nat),
{
    law_lines_join_pairs(input@);
}

/// A move is there exactly where one of the lines in its direction is open, and a move to the left
/// slides every row.
pub proof fn law_moving_slides_the_lines(b: Board, dir: Dir, r: Option<(Board, u64)>)
    requires
        forall|c: int| 0 <= c < 16 ==> #[trigger] b@[c] < 255,
        call_ensures(Board::moved, (b, dir), r),
    ensures
        r is Some <==> exists|l: int|
            0 <= l < 4 && (has_gap(#[trigger] b.line(dir, l)) || has_pair(b.line(dir, l))),
        r matches Some((moved, score)) ==> moved@ == b.slide(dir) && score == b.slide_score(dir),
        dir == Dir::Left ==> (r matches Some((moved, score)) ==> forall|l: int|
            0 <= l < 4 ==> is_slide(
                #[trigger] row(b@, l),
                row(moved@, l),
                slide_gain(row(b@, l)),
            )),
{
    law_legal_directions_have_an_open_line(b, dir);
    if dir == Dir::Left {
        if let Some((moved, score)) = r {
            assert forall|l: int| 0 <= l < 4 implies is_slide(
                #[trigger] row(b@, l),
                row(moved@, l),
                slide_gain(row(b@, l)),
            ) by {
                law_left_slides_rows(b, l);
            }
        }
    }
}

/// The legal moves are listed in the order up, down, left, right, every one of them once, each with
/// the board after it and its score.
pub proof fn law_moves_are_listed_in_order(b: Board, r: Vec<(Dir, Board, u64)>)
    requires
        call_ensures(Board::legal_moves, (b,), r),
    ensures
        r@.len() == ways(b),
        forall|i: int|
            0 <= i < r@.len() ==> b.legal((#[trigger] r@[i]).0) && ways_before(b, r@[i].0) == i
                && r@[i].1@ == b.slide(r@[i].0) && r@[i].2 == b.slide_score(r@[i].0),
{
    lemma_ways(b);
    assert forall|i: int| 0 <= i < r@.len() implies b.legal((#[trigger] r@[i]).0) && ways_before(
        b,
        r@[i].0,
    ) == i && r@[i].1@ == b.slide(r@[i].0) && r@[i].2 == b.slide_score(r@[i].0) by {
        assert(r@[i].0 == b.legal_dirs()[i]);
    }
}

/// A new tile appears on the empty cell that was drawn, a two for nine words in ten and else a
/// four, and nothing else changes.
pub proof fn law_spawning_puts_one_tile(a: Board, rng: &mut SmallRng, b: Board)
    requires
        call_ensures(Board::spawn, (a, rng), b),
    ensures
        room(a@, 16) == 0 ==> b == a && *final(rng) == *old(rng),
        room(a@, 16) > 0 ==> exists|c: int, pick: usize, word: u64, middle: SmallRng|
            {
                &&& #[trigger] draws_below(*old(rng), room(a@, 16) as usize, pick, middle)
                &&& #[trigger] draws_word(middle, word, *final(rng))
                &&& 0 <= c < 16
                &&& #[trigger] a@[c] == 0
                &&& room(a@, c) == pick
                &&& b@ == a@.update(
                    c,
                    if 10 * (word / 2048) < 9 * 0x20_0000_0000_0000 {
                        1u8
                    } else {
                        2u8
                    },
                )
            },
{
    law_tiles_appear_where_drawn(a, *old(rng), b, *final(rng));
}

/// The empty cells are counted, and the largest number on the board is on it, with none larger.
pub proof fn law_boards_are_counted(b: Board, empty: usize, largest: u64)
    requires
        call_ensures(Board::empty_count, (b,), empty),
        call_ensures(Board::max_tile, (b,), largest),
    ensures
        empty == room(b@, 16),
        exists|c: int| 0 <= c < 16 && tile_value(#[trigger] b@[c]) == largest,
        forall|c: int| 0 <= c < 16 ==> tile_value(#[trigger] b@[c]) <= largest,
{
    lemma_empty_cells_in_order(b@, 16);
    law_top_is_the_largest_tile(b);
    assert forall|c: int| 0 <= c < 16 implies tile_value(#[trigger] b@[c]) <= largest by {
        lemma_larger_tile(b@[c], b.top());
    }
    let c = choose|c: int| 0 <= c < 16 && #[trigger] b@[c] == b.top();
    assert(tile_value(b@[c]) == largest);
}

proof fn lemma_larger_tile(a: u8, b: u8)
    requires
        a <= b,
    ensures
        tile_value(a) <= tile_value(b),
{
    if 0 < a < b {
        lemma_pow2_strictly_increases(a as nat, b as nat);
    }
}

/// Finite numbers compare as what they stand for, and the greater and the lesser of two are that.
pub proof fn law_comparing_numbers(x: Double, y: Double, lt: bool, le: bool, max: Double, min: Double)
    requires
        x.finite(),
        y.finite(),
        call_ensures(Double::lt, (x, y), lt),
        call_ensures(Double::le, (x, y), le),
        call_ensures(Double::max, (x, y), max),
        call_ensures(Double::min, (x, y), min),
    ensures
        lt <==> signed_multiples(x) < signed_multiples(y),
        le <==> signed_multiples(x) <= signed_multiples(y),
        max == x || max == y,
        min == x || min == y,
        signed_multiples(max) >= signed_multiples(x) && signed_multiples(max) >= signed_multiples(y),
        signed_multiples(min) <= signed_multiples(x) && signed_multiples(min) <= signed_multiples(y),
{
    law_numbers_are_ordered_by_value(x, y);
}

/// The greatest of numbers is the greatest of them, and the greatest other than one is that of the
/// others.
pub proof fn law_greatest_of_numbers(m: Exact, xs: Vec<Double>, skip: usize, all: Double, others: Double)
    requires
        m.ordered(),
        all_plain(xs@),
        xs@.len() > 1,
        skip < xs@.len(),
        call_ensures(greatest_of, (&xs,), all),
        call_ensures(greatest_other_than, (&xs, skip), others),
    ensures
        is_top(m, xs@, m.at(all)),
        is_top(m, xs@.remove(skip as int), m.at(others)),
{
    lemma_greatest_is_top(m, xs@);
    let rest = xs@.remove(skip as int);
    assert forall|j: int| 0 <= j < rest.len() implies plain(#[trigger] rest[j]) by {
        assert(rest[j] == if j < skip {
            xs@[j]
        } else {
            xs@[j + 1]
        });
    }
    lemma_greatest_is_top(m, rest);
}

/// Pressing plus, equals or page up raises a limit by one step, minus or page down lowers it by one:
/// the time where it is limited, else the simulations. The notice describes the constraints then,
/// and the search goes on.
pub proof fn law_limit_keys_act<K: Arithmetic>(session: &mut LiveSession, key: Key, k: &K, r: LiveCommand)
    requires
        !key.released,
        key.code == KeyCode::Char('+') || key.code == KeyCode::Char('=') || key.code == KeyCode::PageUp
            || key.code == KeyCode::Char('-') || key.code == KeyCode::PageDown,
        call_ensures(LiveSession::handle_key::<K>, (session, key, k), r),
    ensures
        r == LiveCommand::Continue,
        exists|d: Seq<char>| #[trigger]
            final(session).settings.constraints.is_description(k, d) && final(session).notice@
                == "constraints "@ + d,
        ({
            let s = old(session).settings;
            let t = final(session).settings;
            let up = key.code != KeyCode::Char('-') && key.code != KeyCode::PageDown;
            &&& t.frame_interval == s.frame_interval
            &&& t.constraints.min_voc == s.constraints.min_voc
            &&& s.constraints.time_limit matches Some(l) ==> (t.constraints.time_limit matches Some(n) && if up {
                n.nanos == l.nanos + 50_000_000 || (n.nanos == MAX_NANOS && l.nanos + 50_000_000
                    > MAX_NANOS)
            } else {
                n.nanos == l.nanos - 50_000_000 || (n.nanos == 10_000_000 && l.nanos < 60_000_000)
            }) && t.constraints.simulation_limit == s.constraints.simulation_limit
            &&& s.constraints.time_limit is None ==> t.constraints.time_limit is None && ({
                let from: int = match s.constraints.simulation_limit {
                    Some(l) => l.size() as int,
                    None => 512,
                };
                t.constraints.simulation_limit matches Some(n) && if up {
                    n.size() == from + 128 || (n.size() == usize::MAX && from + 128 > usize::MAX)
                } else {
                    n.size() == from - 128 || (n.size() == 1 && from <= 128)
                }
            })
        }),
{
    let up = key.code != KeyCode::Char('-') && key.code != KeyCode::PageDown;
    law_limit_keys_move_one_limit(old(session).settings, final(session).settings, up);
}

/// Pressing a closing bracket spaces the frames out by ten milliseconds, an opening bracket brings
/// them closer by ten; nothing else of the settings changes, the notice gives the new time between
/// frames, and the search goes on.
pub proof fn law_frame_keys_act<K: Arithmetic>(session: &mut LiveSession, key: Key, k: &K, r: LiveCommand)
    requires
        !key.released,
        key.code == KeyCode::Char(']') || key.code == KeyCode::Char('['),
        call_ensures(LiveSession::handle_key::<K>, (session, key, k), r),
    ensures
        r == LiveCommand::Continue,
        exists|d: Seq<char>| #[trigger]
            shows(k, millis(final(session).settings.frame_interval), 0, d) && final(session).notice@
                == "refresh interval "@ + d + " ms"@,
        final(session).settings.constraints == old(session).settings.constraints,
        ({
            let from = old(session).settings.frame_interval.nanos;
            let to = final(session).settings.frame_interval.nanos;
            &&& key.code == KeyCode::Char(']') ==> to == from + 10_000_000 || (to == MAX_NANOS && from
                + 10_000_000 > MAX_NANOS)
            &&& key.code == KeyCode::Char('[') ==> to == from - 10_000_000 || (to == 10_000_000 && from
                < 20_000_000)
        }),
{
    law_frame_keys_move_the_frames(
        old(session).settings,
        final(session).settings,
        key.code == KeyCode::Char(']'),
    );
}

/// A key that was released leaves the session as it is, and so do the arrows, which force their
/// direction.
pub proof fn law_arrows_force_their_direction<K: Arithmetic>(
    session: &mut LiveSession,
    key: Key,
    k: &K,
    r: LiveCommand,
)
    requires
        call_ensures(LiveSession::handle_key::<K>, (session, key, k), r),
    ensures
        key.released ==> r == LiveCommand::Continue && *final(session) == *old(session),
        !key.released && key.code == KeyCode::Up ==> r == LiveCommand::Force(Dir::Up),
        !key.released && key.code == KeyCode::Down ==> r == LiveCommand::Force(Dir::Down),
        !key.released && key.code == KeyCode::Left ==> r == LiveCommand::Force(Dir::Left),
        !key.released && key.code == KeyCode::Right ==> r == LiveCommand::Force(Dir::Right),
        r is Force ==> *final(session) == *old(session),
        !key.released && (key.code == KeyCode::Esc || key.code == KeyCode::Char('q') || (key.code
            == KeyCode::Char('c') && key.control)) ==> r == LiveCommand::Quit && *final(session) == *old(session),
        !key.released && (key.code == KeyCode::Enter || key.code == KeyCode::Char(' ')) ==> r
            == LiveCommand::ActBest && final(session).settings == old(session).settings,
{
}

/// A live search starts where a move is legal, under the constraints of its session where it has
/// one and else under those given, with nothing simulated.
pub proof fn law_searches_start_under_their_constraints(
    board: Board,
    constraints: SearchConstraints,
    session: Option<LiveSession>,
    r: Option<SearchRun>,
)
    requires
        call_ensures(SearchRun::start, (board, constraints, session), r),
    ensures
        r is None <==> board.stuck(),
        r matches Some(run) ==> {
            &&& run.root.board == board
            &&& run.sims_done == 0
            &&& run.root.visits == 0
            &&& run.excluded.nanos == 0
            &&& run.selected is None
            &&& !run.stopped_by_voc
            &&& session matches Some(s) ==> run.active == s.settings.constraints && run.next_frame
                == Some(s.settings.frame_interval)
            &&& session is None ==> run.active == constraints && run.next_frame is None
                && run.next_input is None
        },
{
}

/// A traced game records the move of a search where it is legal: the score grows by what the move
/// scores, a tile appears after it, and the step tells both scores, the move, the boards as
/// numbers and the search. Else nothing happens.
pub proof fn law_recording_plays_the_move(run: &mut TraceRun, search: SearchOutcome, r: bool)
    requires
        old(run).wf(),
        call_ensures(TraceRun::record, (run, search), r),
    ensures
        r <==> old(run).board.legal(search.dir),
        !r ==> *final(run) == *old(run),
        r ==> {
            let step = final(run).steps@.last();
            &&& final(run).score == old(run).score + old(run).board.slide_score(search.dir)
            &&& final(run).steps@.len() == old(run).steps@.len() + 1
            &&& final(run).steps@.drop_last() == old(run).steps@
            &&& step.move_index == old(run).steps@.len()
            &&& step.chosen == search.dir
            &&& step.reward == old(run).board.slide_score(search.dir)
            &&& step.score_before == old(run).score
            &&& step.score_after == final(run).score
            &&& forall|c: int|
                0 <= c < 16 ==> #[trigger] step.board_before@[c] == tile_value(old(run).board@[c])
            &&& forall|c: int|
                0 <= c < 16 ==> #[trigger] step.board_after@[c] == tile_value(final(run).board@[c])
            &&& step.spawn_index < 16
            &&& old(run).board.slide(search.dir)[step.spawn_index as int] == 0
            &&& final(run).board@ == old(run).board.slide(search.dir).update(
                step.spawn_index as int,
                final(run).board@[step.spawn_index as int],
            )
            &&& step.spawn_tile == tile_value(final(run).board@[step.spawn_index as int])
            &&& step.simulations == search.simulations
            &&& step.compute_elapsed == search.compute_elapsed
            &&& step.wall_elapsed == search.wall_elapsed
            &&& step.excluded_overhead == search.excluded_overhead
            &&& step.budget_time == search.constraints.time_limit
            &&& step.voc_cost == search.constraints.min_voc
            &&& step.max_voc == search.max_voc
            &&& step.stopped_by_voc == search.stopped_by_voc
            &&& step.unlimited <==> search.constraints.simulation_limit is None
                && search.constraints.time_limit is None
        },
{
    if r {
        let start = old(run).start@;
        let turns = old(run).turns@;
        let n = turns.len() as int;
        let t = Turn { dir: search.dir, after: final(run).board };
        let more = turns.push(t);
        assert(more.drop_last() =~= turns);
        assert(more.take(n) =~= turns);
        assert(more.take(n + 1) =~= more);
        assert(final(run).turns@ == more);
        assert(final(run).steps@[n].is_turn(start, more, n));
        assert(final(run).steps@.last() == final(run).steps@[n]);
    }
}

/// A game that was played out: it starts from two tiles, every turn is allowed, it ends where no
/// move is left, its score is what its turns score, and its largest tile is on its last board.
pub proof fn law_games_are_played_out<K: Arithmetic>(
    seed: u64,
    simulations: usize,
    cfg: SearchCfg,
    k: &K,
    r: GameResult,
)
    requires
        call_ensures(play_game::<K>, (seed, simulations, &cfg, k), r),
    ensures
        r.seed == seed,
        r.simulations == simulations,
        exists|start: Board, turns: Seq<Turn>|
            {
                &&& #[trigger] allowed(start, turns)
                &&& room(start@, 16) == 14
                &&& board_after(start, turns).stuck()
                &&& r.final_score == points(start, turns)
                &&& r.moves == turns.len()
                &&& exists|c: int|
                    0 <= c < 16 && tile_value(#[trigger] board_after(start, turns)@[c]) == r.max_tile
                &&& forall|c: int|
                    0 <= c < 16 ==> tile_value(#[trigger] board_after(start, turns)@[c]) <= r.max_tile
            },
{
    let (start, turns, after) = choose|start: Board, turns: Seq<Turn>, after: SmallRng|
        {
            &&& #[trigger] tiles_are_seeded(seed, start, turns, after)
            &&& is_complete(start, turns)
            &&& turns_are_searched(k, cfg, simulations as nat, seed, start, turns)
            &&& r.is_of(start, turns)
        };
    let last = board_after(start, turns);
    law_top_is_the_largest_tile(last);
    assert forall|c: int| 0 <= c < 16 implies tile_value(#[trigger] last@[c]) <= r.max_tile by {
        lemma_larger_tile(last@[c], last.top());
    }
    let c = choose|c: int| 0 <= c < 16 && #[trigger] last@[c] == last.top();
    assert(tile_value(last@[c]) == r.max_tile);
    lemma_two_tiles(start);
    assert(allowed(start, turns));
}

/// The board before turn number `i`.
pub open spec fn before_turn(start: Board, turns: Seq<Turn>, i: int) -> Board {
    if i == 0 {
        start
    } else {
        turns[i - 1].after
    }
}

/// The seed of the search for move number `i` of a game.
pub open spec fn seed_of_search(seed: u64, i: int) -> u64 {
    seed ^ (i as u64).wrapping_mul(0x9E37_79B9_7F4A_7C15) ^ 0xD1B5_4A32_D192_ED03
}

/// `dir` is what a search of a board comes to, with so many simulations and a generator that starts
/// from the seed.
pub open spec fn is_search_of<K: Arithmetic>(
    k: &K,
    cfg: SearchCfg,
    simulations: nat,
    seed: u64,
    b: Board,
    dir: Dir,
) -> bool {
    exists|root: Node, first: SmallRng, last: SmallRng|
        {
            &&& is_seeded(seed, first)
            &&& #[trigger] searched(k, cfg, b, simulations, root, first, last)
            &&& is_best_move(root, dir)
        }
}

/// The searches of a game: each starts from its own seed, makes as many simulations as asked for,
/// and comes to the move that was made.
pub open spec fn searched_in_turn<K: Arithmetic>(
    k: &K,
    cfg: SearchCfg,
    simulations: nat,
    seed: u64,
    start: Board,
    turns: Seq<Turn>,
) -> bool {
    forall|i: int|
        0 <= i < turns.len() ==> is_search_of(
            k,
            cfg,
            simulations,
            seed_of_search(seed, i),
            before_turn(start, turns, i),
            (#[trigger] turns[i]).dir,
        )
}

/// The tiles of a game: two at the start and one after each move, drawn one after the other.
pub open spec fn tiles_in_turn(start: Board, turns: Seq<Turn>, gens: Seq<SmallRng>) -> bool {
    &&& gens.len() == turns.len() + 1
    &&& forall|i: int|
        0 <= i < turns.len() ==> spawned(
            board_of(before_turn(start, turns, i).slide(turns[i].dir)),
            gens[i],
            (#[trigger] turns[i]).after,
            gens[i + 1],
        )
}

proof fn lemma_tiles_one_more(
    start: Board,
    turns: Seq<Turn>,
    gens: Seq<SmallRng>,
    t: Turn,
    after: SmallRng,
)
    requires
        tiles_in_turn(start, turns, gens),
        spawned(
            board_of(before_turn(start, turns, turns.len() as int).slide(t.dir)),
            gens[turns.len() as int],
            t.after,
            after,
        ),
    ensures
        tiles_in_turn(start, turns.push(t), gens.push(after)),
{
    let more = turns.push(t);
    let all = gens.push(after);
    assert forall|i: int| 0 <= i < more.len() implies spawned(
        board_of(before_turn(start, more, i).slide(more[i].dir)),
        all[i],
        (#[trigger] more[i]).after,
        all[i + 1],
    ) by {
        assert(before_turn(start, more, i) == before_turn(start, turns, i));
        if i < turns.len() {
            assert(more[i] == turns[i] && all[i] == gens[i] && all[i + 1] == gens[i + 1]);
        } else {
            assert(more[i] == t && all[i] == gens[turns.len() as int] && all[i + 1] == after);
        }
    }
}

proof fn lemma_tiles_in_turn(before: SmallRng, start: Board, turns: Seq<Turn>, after: SmallRng) -> (gens: Seq<
    SmallRng,
>)
    requires
        tiles_from(before, start, turns, after),
    ensures
        tiles_in_turn(start, turns, gens),
        gens[0] == before,
        gens[turns.len() as int] == after,
    decreases turns.len(),
{
    if turns.len() == 0 {
        seq![before]
    } else {
        let front = turns.drop_last();
        let t = turns.last();
        let middle = choose|middle: SmallRng|
            tiles_from(before, start, front, middle) && #[trigger] spawned(
                board_of(board_after(start, front).slide(t.dir)),
                middle,
                t.after,
                after,
            );
        let rest = lemma_tiles_in_turn(before, start, front, middle);
        assert(before_turn(start, front, front.len() as int) == board_after(start, front));
        lemma_tiles_one_more(start, front, rest, t, after);
        assert(front.push(t) =~= turns);
        rest.push(after)
    }
}

/// A game follows from its seed: its tiles are drawn from one generator that starts from the seed,
/// the two of the starting board first and then one after each move, and nothing else is; each
/// move is what a search comes to that starts from a seed of its own, with as many simulations as
/// asked for.
pub proof fn law_games_follow_their_seed<K: Arithmetic>(
    seed: u64,
    simulations: usize,
    cfg: SearchCfg,
    k: &K,
    r: GameResult,
)
    requires
        call_ensures(play_game::<K>, (seed, simulations, &cfg, k), r),
    ensures
        exists|start: Board, turns: Seq<Turn>, gens: Seq<SmallRng>, first: SmallRng|
            {
                &&& is_seeded(seed, first)
                &&& #[trigger] started(first, start, gens[0])
                &&& #[trigger] tiles_in_turn(start, turns, gens)
                &&& searched_in_turn(k, cfg, simulations as nat, seed, start, turns)
                &&& r.final_score == points(start, turns)
                &&& r.moves == turns.len()
            },
{
    let (start, turns, after) = choose|start: Board, turns: Seq<Turn>, after: SmallRng|
        {
            &&& #[trigger] tiles_are_seeded(seed, start, turns, after)
            &&& is_complete(start, turns)
            &&& turns_are_searched(k, cfg, simulations as nat, seed, start, turns)
            &&& r.is_of(start, turns)
        };
    let (first, second) = choose|first: SmallRng, second: SmallRng|
        {
            &&& is_seeded(seed, first)
            &&& #[trigger] started(first, start, second)
            &&& tiles_from(second, start, turns, after)
        };
    let gens = lemma_tiles_in_turn(second, start, turns, after);
    lemma_searched_in_turn(k, cfg, simulations as nat, seed, start, turns, r.moves);
    assert(started(first, start, gens[0]));
    assert(tiles_in_turn(start, turns, gens));
}

proof fn lemma_searched_in_turn<K: Arithmetic>(
    k: &K,
    cfg: SearchCfg,
    simulations: nat,
    seed: u64,
    start: Board,
    turns: Seq<Turn>,
    moves: usize,
)
    requires
        turns_are_searched(k, cfg, simulations, seed, start, turns),
        turns.len() == moves,
    ensures
        searched_in_turn(k, cfg, simulations, seed, start, turns),
{
    reveal(turns_are_searched);
    assert forall|i: int| 0 <= i < turns.len() implies is_search_of(
        k,
        cfg,
        simulations,
        seed_of_search(seed, i),
        before_turn(start, turns, i),
        (#[trigger] turns[i]).dir,
    ) by {
        let b = board_after(start, turns.take(i));
        assert(b == before_turn(start, turns, i)) by {
            if i > 0 {
                assert(turns.take(i).last() == turns[i - 1]);
            }
        }
        assert(search_picks(k, cfg, simulations, search_seed(seed, i as usize), b, turns[i].dir));
        assert((i as usize) as u64 == i as u64);
        let (root, first, last) = choose|root: Node, first: SmallRng, last: SmallRng|
            {
                &&& is_seeded(search_seed(seed, i as usize), first)
                &&& #[trigger] searched(k, cfg, b, simulations, root, first, last)
                &&& is_best_move(root, turns[i].dir)
            };
        assert(searched(k, cfg, before_turn(start, turns, i), simulations, root, first, last));
    }
}

/// A traced game searches from the seeds of a game played at once: that of its seed and the number
/// of moves made so far.
pub proof fn law_traces_search_from_the_same_seeds(run: TraceRun, seed: u64, rng: SmallRng)
    requires
        call_ensures(TraceRun::next_seed, (&run,), seed),
        call_ensures(TraceRun::search_rng, (&run,), rng),
    ensures
        seed == seed_of_search(run.seed, run.steps@.len() as int),
        is_seeded(seed_of_search(run.seed, run.steps@.len() as int), rng),
{
    assert((run.steps@.len() as usize) as u64 == run.steps@.len() as u64);
}

/// A starting board holds two tiles.
proof fn lemma_two_tiles(b: Board)
    requires
        is_initial(b),
    ensures
        room(b@, 16) == 14,
{
    let (none, one) = choose|none: Board, one: Board|
        none@ == Seq::new(16, |i: int| 0u8) && #[trigger] is_spawn(none, one) && #[trigger] is_spawn(
            one,
            b,
        );
    lemma_empty_cells_in_order(none@, 16);
    lemma_empty_cells_in_order(one@, 16);
    lemma_empty_cells_in_order(b@, 16);
    reveal_with_fuel(room, 17);
    assert(room(none@, 16) == 16);
    law_spawn_fills_one_cell(none, one);
    law_spawn_fills_one_cell(one, b);
}

/// A game took a thousand milliseconds for each of its seconds, and made so many simulations a
/// second.
pub proof fn law_timing_a_game<K: Arithmetic>(m: Exact, g: GameResult, k: &K, elapsed: Span, t: Timing)
    requires
        m.ordered(),
        m.at(Double::thousand()) == 1000 as real,
        exact_timing(k, m, g, elapsed),
        call_ensures(GameResult::timing::<K>, (&g, k, elapsed), t),
    ensures
        m.at(t.wall_ms) == (1000 as real) * (m.seconds)(elapsed),
        (m.seconds)(elapsed) > 0 as real ==> m.at(t.sims_per_second) * (m.seconds)(elapsed) == (
        g.simulations as real) * (g.moves as real),
{
    law_games_are_timed(k, m, g, elapsed, t);
}

/// How far a run has come and how long it will take.
pub proof fn law_pacing_a_run<K: Arithmetic>(
    m: Exact,
    k: &K,
    n: usize,
    already_done: usize,
    total: usize,
    elapsed: Span,
    p: Pace,
)
    requires
        m.ordered(),
        m.at(Double::hundred()) == 100 as real,
        m.at(Double::sixty()) == 60 as real,
        0 < total,
        already_done <= n <= total,
        exact_pace(k, m, n, already_done, total, elapsed),
        call_ensures(pace::<K>, (k, n, already_done, total, elapsed), p),
    ensures
        m.at(p.percent) * (total as real) == (100 as real) * (n as real),
        m.at(p.elapsed_minutes) * (60 as real) == (m.seconds)(elapsed),
        (m.seconds)(elapsed) > 0 as real ==> m.at(p.rate) * (m.seconds)(elapsed) == n as real
            - already_done as real,
        m.at(p.rate) > 0 as real ==> (m.at(p.left_minutes) * (60 as real)) * m.at(p.rate) == total as real
            - n as real,
{
    law_pace_of_a_run(k, m, n, already_done, total, elapsed, p);
}

/// A game is added to the totals of its budget and policy, once, and to no others.
pub proof fn law_recording_adds_one_game(a: &mut Aggregates, budget: usize, policy: &str, score: u64, tile: u64)
    requires
        call_ensures(Aggregates::record, (a, budget, policy, score, tile), ()),
    ensures
        final(a).tally((budget, policy@)).count == old(a).tally((budget, policy@)).count + 1,
        final(a).tally((budget, policy@)).scores == old(a).tally((budget, policy@)).scores + score,
        final(a).tally((budget, policy@)).tiles == old(a).tally((budget, policy@)).tiles + tile,
        forall|key: (usize, Seq<char>)|
            key != (budget, policy@) ==> #[trigger] final(a).tally(key) == old(a).tally(key),
{
}

/// A traced game ends with what it came to: its score, the largest number on its board, its steps,
/// and the constraints that it started under.
pub proof fn law_traces_end_with_their_game(
    run: TraceRun,
    policy: Policy,
    constraints: SearchConstraints,
    r: GameTrace,
)
    requires
        call_ensures(TraceRun::finish, (run, policy, constraints), r),
    ensures
        r.seed == run.seed,
        r.policy@ == policy.title(),
        r.final_score == run.score,
        r.moves == run.steps,
        r.time_limit == constraints.time_limit,
        r.voc_cost == constraints.min_voc,
        r.simulations is Some <==> constraints.simulation_limit is Some,
        constraints.simulation_limit matches Some(l) ==> r.simulations == Some(l.size()),
        exists|c: int| 0 <= c < 16 && tile_value(#[trigger] run.board@[c]) == r.max_tile,
        forall|c: int| 0 <= c < 16 ==> tile_value(#[trigger] run.board@[c]) <= r.max_tile,
{
    let b = run.board;
    law_top_is_the_largest_tile(b);
    assert forall|c: int| 0 <= c < 16 implies tile_value(#[trigger] b@[c]) <= r.max_tile by {
        lemma_larger_tile(b@[c], b.top());
    }
    let c = choose|c: int| 0 <= c < 16 && #[trigger] b@[c] == b.top();
    assert(tile_value(b@[c]) == r.max_tile);
}

/// A schedule holds a game of a benchmark exactly where it was not played before, and tells how many
/// games there are in all and how many are done.
pub proof fn law_schedules_hold_what_is_missing(
    budgets: Vec<usize>,
    policies: Vec<Policy>,
    base: u64,
    games: usize,
    done: Vec<DoneGame>,
    r: Schedule,
    b: int,
    p: int,
    g: int,
)
    requires
        call_ensures(schedule, (&budgets, &policies, base, games, &done), r),
        0 <= b < budgets@.len(),
        0 <= p < policies@.len(),
        0 <= g < games,
    ensures
        r.total == policies@.len() * budgets@.len() * games,
        r.already_done + r.jobs@.len() == r.total,
        ({
            let job = Job { seed: game_seed(base, g), policy: policies@[p], budget: budgets@[b] };
            r.jobs@.contains(job) <==> !was_played(done@, job)
        }),
{
    broadcast use vstd::seq_lib::group_to_multiset_ensures;

    let all = benchmark_jobs(budgets@, policies@, base, games as nat);
    let left = unplayed(all, done@);
    let job = Job { seed: game_seed(base, g), policy: policies@[p], budget: budgets@[b] };
    law_every_combination_is_played(budgets@, policies@, base, games as nat, b, p, g);
    law_resume_plays_what_is_missing(all, done@, job);
    assert(r.jobs@.to_multiset().count(job) == left.to_multiset().count(job));
    assert(r.jobs@.contains(job) <==> r.jobs@.to_multiset().count(job) > 0);
    assert(left.contains(job) <==> left.to_multiset().count(job) > 0);
}

} // verus!
