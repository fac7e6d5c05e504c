//! The board, the tiles and the numbers.

use bayes_2048::board::{all_directions, Board, Dir};
use bayes_2048::double::{
    greatest_above_of, greatest_of, greatest_other_than, index_of_first_greatest,
    index_of_last_greatest, index_of_runner_up, least_of, Double,
};
use bayes_2048::line::{merge_line, power_of_two};
use rand::rngs::SmallRng;
use rand::{Rng, SeedableRng};

fn double(x: f64) -> Double {
    Double { bits: x.to_bits() }
}

fn worth(board: Board) -> u64 {
    board.0.iter().filter(|e| **e > 0).map(|e| (*e as u64 - 1) << *e).sum()
}

fn tile_sum(board: Board) -> u64 {
    board.values().iter().sum()
}

#[test]
fn merge_once_per_tile() {
    assert_eq!(merge_line([1, 1, 1, 1]), ([2, 2, 0, 0], 8));
    assert_eq!(merge_line([1, 1, 2, 0]), ([2, 2, 0, 0], 4));
    assert_eq!(merge_line([2, 2, 2, 0]), ([3, 2, 0, 0], 8));
    assert_eq!(merge_line([1, 0, 1, 1]), ([2, 1, 0, 0], 4));
}

#[test]
fn left_move_score() {
    let b = Board([1, 1, 0, 0, 2, 2, 2, 2, 0, 0, 0, 0, 1, 0, 1, 0]);
    let (m, r) = b.moved(Dir::Left).unwrap();
    assert_eq!(r, 4 + 8 + 8 + 4);
    assert_eq!(m.0, [2, 0, 0, 0, 3, 3, 0, 0, 0, 0, 0, 0, 2, 0, 0, 0,]);
}

#[test]
fn no_move_is_none() {
    let b = Board([1, 2, 3, 4, 2, 3, 4, 5, 3, 4, 5, 6, 4, 5, 6, 7]);
    assert!(b.legal_moves().is_empty());
}

#[test]
fn moves_in_all_four_directions() {
    let b = Board([1, 0, 0, 0, 1, 0, 0, 0, 0, 0, 0, 0, 0, 0, 0, 2]);
    let (up, r) = b.moved(Dir::Up).unwrap();
    assert_eq!((up.0, r), ([2, 0, 0, 2, 0, 0, 0, 0, 0, 0, 0, 0, 0, 0, 0, 0], 4));
    let (down, r) = b.moved(Dir::Down).unwrap();
    assert_eq!((down.0, r), ([0, 0, 0, 0, 0, 0, 0, 0, 0, 0, 0, 0, 2, 0, 0, 2], 4));
    let (left, r) = b.moved(Dir::Left).unwrap();
    assert_eq!((left.0, r), ([1, 0, 0, 0, 1, 0, 0, 0, 0, 0, 0, 0, 2, 0, 0, 0], 0));
    let (right, r) = b.moved(Dir::Right).unwrap();
    assert_eq!((right.0, r), ([0, 0, 0, 1, 0, 0, 0, 1, 0, 0, 0, 0, 0, 0, 0, 2], 0));
}

#[test]
fn a_move_that_changes_nothing_is_refused() {
    let b = Board([1, 2, 0, 0, 0, 0, 0, 0, 0, 0, 0, 0, 0, 0, 0, 0]);
    assert_eq!(b.moved(Dir::Left), None);
    assert_eq!(b.moved(Dir::Up), None);
    let legal: Vec<Dir> = b.legal_moves().iter().map(|m| m.0).collect();
    assert_eq!(legal, [Dir::Down, Dir::Right]);
}

#[test]
fn legal_moves_come_with_boards_and_scores() {
    let b = Board([3, 3, 0, 0, 0, 0, 0, 0, 0, 0, 0, 0, 0, 0, 0, 0]);
    let moves = b.legal_moves();
    assert_eq!(moves.len(), 3);
    assert_eq!(moves[0].0, Dir::Down);
    assert_eq!(moves[1], (Dir::Left, Board([4, 0, 0, 0, 0, 0, 0, 0, 0, 0, 0, 0, 0, 0, 0, 0]), 16));
    assert_eq!(moves[2], (Dir::Right, Board([0, 0, 0, 4, 0, 0, 0, 0, 0, 0, 0, 0, 0, 0, 0, 0]), 16));
}

#[test]
fn directions_are_listed_in_order() {
    assert_eq!(all_directions(), [Dir::Up, Dir::Down, Dir::Left, Dir::Right]);
    let arrows: String = all_directions().iter().map(|d| d.symbol()).collect();
    assert_eq!(arrows, "↑↓←→");
}

#[test]
fn values_and_largest_tile() {
    let b = Board([0, 1, 2, 3, 0, 0, 0, 0, 0, 0, 0, 0, 0, 0, 17, 0]);
    assert_eq!(b.values(), [0, 2, 4, 8, 0, 0, 0, 0, 0, 0, 0, 0, 0, 0, 131_072, 0]);
    assert_eq!(b.max_tile(), 131_072);
    assert_eq!(b.top_exponent(), 17);
    assert_eq!(b.empty_count(), 12);
    assert_eq!(Board::empty().max_tile(), 0);
    assert_eq!(power_of_two(10), 1024);
}

#[test]
fn spawn_takes_the_cell_and_the_tile_that_were_drawn() {
    let b = Board([1, 0, 2, 0, 3, 0, 0, 0, 0, 0, 0, 0, 0, 0, 0, 0]);
    let two = b.spawn_with(1, 0);
    assert_eq!(two.0[3], 1);
    let four = b.spawn_with(0, u64::MAX);
    assert_eq!(four.0[1], 2);
    // Nine tenths of the doubles that a word can give lie below 0.9.
    let last_two = 8_106_479_329_266_892u64 << 11;
    let first_four = 8_106_479_329_266_893u64 << 11;
    assert_eq!(b.spawn_with(2, last_two).0[5], 1);
    assert_eq!(b.spawn_with(2, first_four).0[5], 2);
    assert!(((last_two >> 11) as f64) * (1.0 / (1u64 << 53) as f64) < 0.9);
    assert!(((first_four >> 11) as f64) * (1.0 / (1u64 << 53) as f64) >= 0.9);
}

#[test]
fn spawn_draws_as_a_uniform_double_would() {
    let mut ours = SmallRng::seed_from_u64(7);
    let mut theirs = SmallRng::seed_from_u64(7);
    for _ in 0..2000 {
        let b = Board([1, 0, 2, 0, 3, 0, 0, 0, 0, 0, 0, 0, 0, 0, 5, 0]);
        let spawned = b.spawn(&mut ours);
        let empties: Vec<usize> = (0..16).filter(|i| b.0[*i] == 0).collect();
        let at = empties[theirs.random_range(0..empties.len())];
        let tile = if theirs.random::<f64>() < 0.9 { 1 } else { 2 };
        let mut expected = b;
        expected.0[at] = tile;
        assert_eq!(spawned, expected);
    }
}

#[test]
fn spawn_on_a_full_board_changes_nothing() {
    let full = Board([1, 2, 3, 4, 2, 3, 4, 5, 3, 4, 5, 6, 4, 5, 6, 7]);
    let mut rng = SmallRng::seed_from_u64(3);
    assert_eq!(full.spawn(&mut rng), full);
}

#[test]
fn games_start_with_two_tiles() {
    for seed in 0..50 {
        let mut rng = SmallRng::seed_from_u64(seed);
        let b = Board::initial(&mut rng);
        assert_eq!(b.empty_count(), 14);
        assert!(b.0.iter().all(|e| *e <= 2));
        assert!(4 <= tile_sum(b) && tile_sum(b) <= 8);
        assert_eq!(worth(b), 2 * (tile_sum(b) - 4));
    }
}

#[test]
fn the_account_of_a_game_is_kept() {
    for seed in 0..20 {
        let mut rng = SmallRng::seed_from_u64(seed);
        let mut board = Board::initial(&mut rng);
        let mut score = 0;
        let mut moves = 0;
        loop {
            let legal = board.legal_moves();
            if legal.is_empty() {
                break;
            }
            let (_, moved, reward) = legal[rng.random_range(0..legal.len())];
            assert_eq!(tile_sum(moved), tile_sum(board));
            assert_eq!(worth(moved), worth(board) + reward);
            assert!(moved.empty_count() > 0);
            board = moved.spawn(&mut rng);
            score += reward;
            moves += 1;
        }
        assert_eq!(score, worth(board) + 4 * moves + 8 - 2 * tile_sum(board));
        assert!(board.max_tile() <= 131_072);
        assert!(moves <= 1_048_574);
    }
}

#[test]
fn doubles_compare_as_numbers() {
    let xs = [
        0.0, -0.0, 1.0, -1.0, 0.5, 1e300, -1e300, 5e-324, -5e-324, f64::INFINITY,
        f64::NEG_INFINITY, f64::NAN, -f64::NAN,
    ];
    for a in xs {
        assert_eq!(double(a).is_nan(), a.is_nan());
        assert_eq!(double(a).is_finite(), a.is_finite());
        for b in xs {
            assert_eq!(double(a).lt(double(b)), a < b);
            assert_eq!(double(a).le(double(b)), a <= b);
            assert_eq!(double(a).same(double(b)), a == b);
            assert_eq!(double(a).total_lt(double(b)), a.total_cmp(&b).is_lt());
            let max = f64::from_bits(double(a).max(double(b)).bits);
            let min = f64::from_bits(double(a).min(double(b)).bits);
            assert!(max == a.max(b) || (max.is_nan() && a.is_nan() && b.is_nan()));
            assert!(min == a.min(b) || (min.is_nan() && a.is_nan() && b.is_nan()));
        }
        let unit = f64::from_bits(double(a).clamp_unit().bits);
        assert!(unit == a.clamp(0.0, 1.0) || a.is_nan() && unit.is_nan());
    }
    assert_eq!(f64::from_bits(Double::one().bits), 1.0);
    assert_eq!(f64::from_bits(Double::infinity().bits), f64::INFINITY);
    assert_eq!(f64::from_bits(Double::neg_infinity().bits), f64::NEG_INFINITY);
}

#[test]
fn constants_and_signs_of_doubles() {
    for (ours, x) in [
        (Double::zero(), 0.0),
        (Double::neg_zero(), -0.0),
        (Double::one(), 1.0),
        (Double::two(), 2.0),
        (Double::half(), 0.5),
        (Double::sixty(), 60.0),
        (Double::hundred(), 100.0),
        (Double::thousand(), 1000.0),
        (Double::tolerance(), 1e-12),
    ] {
        assert_eq!(ours, double(x));
        assert_eq!(ours.neg(), double(-x));
        assert_eq!(ours.abs(), double(x.abs()));
        assert_eq!(ours.neg().abs(), double(x.abs()));
    }
}

#[test]
fn greatest_and_least_entries() {
    let xs: Vec<Double> = [2.0, f64::NAN, 7.0, -3.0, 7.0].iter().map(|x| double(*x)).collect();
    assert_eq!(greatest_of(&xs), double(7.0));
    assert_eq!(least_of(&xs), double(-3.0));
    assert_eq!(greatest_other_than(&xs, 2), double(7.0));
    assert_eq!(greatest_of(&vec![]), Double::neg_infinity());
    assert_eq!(least_of(&vec![]), Double::infinity());
    assert_eq!(greatest_above_of(double(9.0), &xs), double(9.0));
    assert_eq!(index_of_first_greatest(&xs), 2);
    let ys: Vec<Double> = [2.0, 7.0, -3.0, 7.0].iter().map(|x| double(*x)).collect();
    assert_eq!(index_of_last_greatest(&ys), 3);
    assert_eq!(ys[index_of_runner_up(&ys, 3)], double(7.0));
    assert_eq!(ys[index_of_runner_up(&ys, 1)], double(7.0));
}

#[test]
fn scaling_and_shifting_keeps_the_greatest_entry() {
    let xs = [3.0, -1.0, 8.5, 8.25];
    let plain: Vec<Double> = xs.iter().map(|x| double(*x)).collect();
    let other: Vec<Double> = xs.iter().map(|x| double(1000.0 * x + 37.0)).collect();
    assert_eq!(index_of_first_greatest(&plain), index_of_first_greatest(&other));
    assert_eq!(index_of_last_greatest(&plain), index_of_last_greatest(&other));
}

fn played_boards(seed: u64) -> Vec<Board> {
    let mut rng = SmallRng::seed_from_u64(seed);
    let mut board = Board::initial(&mut rng);
    let mut boards = vec![board];
    loop {
        let legal = board.legal_moves();
        if legal.is_empty() {
            return boards;
        }
        let (_, moved, _) = legal[rng.random_range(0..legal.len())];
        board = moved.spawn(&mut rng);
        boards.push(board);
    }
}

fn opposite(dir: Dir) -> Dir {
    match dir {
        Dir::Up => Dir::Down,
        Dir::Down => Dir::Up,
        Dir::Left => Dir::Right,
        Dir::Right => Dir::Left,
    }
}

#[test]
fn scores_are_of_fours_and_the_same_both_ways() {
    for board in played_boards(31) {
        for (dir, _, reward) in board.legal_moves() {
            assert_eq!(reward % 4, 0);
            if reward > 0 {
                assert_eq!(board.moved(opposite(dir)).unwrap().1, reward);
            }
        }
    }
}

#[test]
fn moves_fill_no_cell_and_tiles_fill_one() {
    let mut rng = SmallRng::seed_from_u64(3);
    for board in played_boards(32) {
        for (_, moved, _) in board.legal_moves() {
            assert!(moved.empty_count() >= board.empty_count());
            let after = moved.spawn(&mut rng);
            assert_eq!(after.empty_count(), moved.empty_count() - 1);
            let changed: Vec<usize> = (0..16).filter(|i| after.0[*i] != moved.0[*i]).collect();
            assert_eq!(changed.len(), 1);
            assert_eq!(moved.0[changed[0]], 0);
            assert!(after.0[changed[0]] == 1 || after.0[changed[0]] == 2);
        }
    }
}

#[test]
fn boards_with_room_have_moves() {
    for seed in 0..20 {
        let boards = played_boards(seed);
        assert_eq!(boards[0].empty_count(), 14);
        for board in &boards {
            assert!(board.empty_count() == 0 || !board.legal_moves().is_empty());
        }
        assert!(boards.len() > 1);
    }
}

#[test]
fn tiles_come_from_the_place_first_and_then_the_word() {
    let mut board = Board::empty();
    let mut rng = SmallRng::seed_from_u64(8);
    let mut other = SmallRng::seed_from_u64(8);
    for _ in 0..16 {
        let pick = other.random_range(0..board.empty_count());
        let word = other.random::<u64>();
        let next = board.spawn(&mut rng);
        assert_eq!(next, board.spawn_with(pick, word));
        assert_eq!(rng, other);
        board = next;
    }
    assert_eq!(board.spawn(&mut rng), board);
    assert_eq!(rng, other);
}
