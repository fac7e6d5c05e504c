//! The statistics, the policies and the search, with the formulas in ordinary doubles.

use bayes_2048::arith::Arithmetic;
use bayes_2048::board::{all_directions, Board, Dir};
use bayes_2048::double::Double;
use bayes_2048::estimate::{exact_voc, one_step_voc_and_switch, RewardTransform, Stats};
use bayes_2048::game::{play_game, search_seed, TraceRun};
use bayes_2048::limits::{SearchConstraints, SimulationLimit};
use bayes_2048::live::{Action, SearchOutcome, SearchRun};
use bayes_2048::policy::Policy;
use bayes_2048::search::{best_move, choose_move, random_rollout, simulate, SearchCfg};
use bayes_2048::select::{least_sampled, select_edge, ties_of};
use bayes_2048::snapshot::{max_exact_voc, snapshot_root};
use bayes_2048::span::Span;
use bayes_2048::tree::{Edge, Node};
use rand::rngs::SmallRng;
use rand::{Rng, SeedableRng};
use rand_distr::{Distribution, StudentT};
use statrs::distribution::{Continuous, ContinuousCDF, StudentsT};

struct Floats;

fn d(x: f64) -> Double {
    Double { bits: x.to_bits() }
}

fn v(x: Double) -> f64 {
    f64::from_bits(x.bits)
}

impl Arithmetic for Floats {
    fn plus(&self, a: Double, b: Double) -> Double {
        d(v(a) + v(b))
    }

    fn minus(&self, a: Double, b: Double) -> Double {
        d(v(a) - v(b))
    }

    fn times(&self, a: Double, b: Double) -> Double {
        d(v(a) * v(b))
    }

    fn over(&self, a: Double, b: Double) -> Double {
        d(v(a) / v(b))
    }

    fn root(&self, a: Double) -> Double {
        d(v(a).sqrt())
    }

    fn log(&self, a: Double) -> Double {
        d(v(a).ln())
    }

    fn of_count(&self, n: u64) -> Double {
        d(n as f64)
    }

    fn of_sum(&self, n: u128) -> Double {
        d(n as f64)
    }

    fn of_span(&self, span: Span) -> Double {
        d(span.nanos as f64 / 1e9)
    }

    fn density(&self, freedom: Double, z: Double) -> Double {
        d(StudentsT::new(0.0, 1.0, v(freedom)).unwrap().pdf(v(z)))
    }

    fn lower_tail(&self, freedom: Double, z: Double) -> Double {
        d(StudentsT::new(0.0, 1.0, v(freedom)).unwrap().cdf(v(z)))
    }

    fn upper_tail(&self, freedom: Double, z: Double) -> Double {
        d(StudentsT::new(0.0, 1.0, v(freedom)).unwrap().sf(v(z)))
    }

    fn draw(&self, freedom: Double, rng: SmallRng) -> (Double, SmallRng) {
        let mut rng = rng;
        let t = StudentT::new(v(freedom)).unwrap().sample(&mut rng);
        (d(t), rng)
    }

    fn to_span(&self, seconds: Double) -> Span {
        Span { nanos: std::time::Duration::from_secs_f64(v(seconds)).as_nanos() }
    }

    fn to_count(&self, a: Double) -> usize {
        v(a).round() as usize
    }

    fn fixed(&self, a: Double, digits: usize) -> String {
        format!("{:.*}", digits, v(a))
    }
}

fn transform(scale: f64, shift: f64) -> RewardTransform {
    RewardTransform { scale: d(scale), shift: d(shift) }
}

fn config(policy: Policy, rollout_cap: usize) -> SearchCfg {
    SearchCfg { policy, rollout_cap, reward_transform: transform(1.0, 0.0) }
}

fn observed_all(xs: &[f64]) -> Stats {
    let mut stats = Stats::none();
    for x in xs {
        stats.observe(&Floats, d(*x));
    }
    stats
}

fn stats_around(mean: f64) -> Stats {
    observed_all(&[mean - 1.0, mean, mean + 1.0])
}

fn node_with(stats: &[Stats]) -> Node {
    let mut edges = Vec::new();
    let mut visits = 0;
    for (i, s) in stats.iter().enumerate() {
        let mut edge = Edge::new(all_directions()[i], Board::empty(), 0);
        edge.stats = *s;
        visits += s.n;
        edges.push(edge);
    }
    Node { board: Board::empty(), visits, edges }
}

fn start_board(seed: u64) -> Board {
    let mut rng = SmallRng::seed_from_u64(seed);
    Board::initial(&mut rng)
}

fn limited(n: usize) -> SearchConstraints {
    SearchConstraints {
        simulation_limit: SimulationLimit::new(n),
        time_limit: None,
        min_voc: None,
    }
}

fn diagnostic_search(
    board: Board,
    constraints: SearchConstraints,
    cfg: &SearchCfg,
    rng: &mut SmallRng,
) -> Option<SearchOutcome> {
    let mut run = SearchRun::start(board, constraints, None)?;
    let now = Span { nanos: 0 };
    loop {
        match run.step(now, cfg, &Floats, rng) {
            Action::Again => {}
            Action::Finish => break,
            other => panic!("nobody watches: {other:?}"),
        }
    }
    let snapshot = run.snapshot(&Floats);
    assert!(!run.last_frame_due());
    Some(run.finish(snapshot, now, now, now, cfg, &Floats).0)
}

#[test]
fn exact_voc_is_positive_at_decision_boundary() {
    let s = observed_all(&[1.0, 2.0, 3.0, 4.0]);
    assert!(0.0 < v(exact_voc(&Floats, s, s.mean)));
}

#[test]
fn exact_voc_is_affine_equivariant() {
    let xs = [100.0, 300.0, 200.0, 500.0, 250.0];
    let mut a = Stats::none();
    let mut b = Stats::none();
    for x in xs {
        a.observe(&Floats, d(x));
        b.observe(&Floats, d(1000.0 * x + 37.0));
    }
    let va = v(exact_voc(&Floats, a, d(280.0)));
    let vb = v(exact_voc(&Floats, b, d(1000.0 * 280.0 + 37.0)));
    let rel = (vb - 1000.0 * va).abs() / (1.0 + vb.abs());
    assert!(rel < 1e-10, "va={va} vb={vb} rel={rel}");
}

#[test]
fn affine_stats_preserve_order() {
    let xs = [100.0, 300.0, 200.0, 500.0];
    let mut a = Stats::none();
    let mut b = Stats::none();
    for x in xs {
        a.observe(&Floats, d(x));
        b.observe(&Floats, d(1000.0 * x + 37.0));
    }
    assert!((v(b.mean) - (1000.0 * v(a.mean) + 37.0)).abs() < 1e-8);
    assert!((v(b.sd(&Floats)) - 1000.0 * v(a.sd(&Floats))).abs() < 1e-8);
}

#[test]
fn best_arm_switch_probability_uses_runner_up_with_four_actions() {
    let means = [10.0, 9.0, 0.0, -10.0];
    let edges = all_directions()
        .into_iter()
        .zip(means)
        .map(|(dir, mean)| {
            let mut edge = Edge::new(dir, Board::empty(), 0);
            edge.stats = stats_around(mean);
            edge
        })
        .collect();
    let root = Node { board: Board::empty(), visits: 12, edges };

    let snapshot = snapshot_root(&root, &Floats);
    let best = snapshot.action(Dir::Up).unwrap();
    let expected = v(one_step_voc_and_switch(&Floats, stats_around(10.0), d(9.0)).1);
    let wrong_distant_competitor = v(one_step_voc_and_switch(&Floats, stats_around(10.0), d(0.0)).1);

    assert_eq!(snapshot.best_dir, Dir::Up);
    assert!((v(best.switch_prob) - expected).abs() < 1e-12);
    assert!(wrong_distant_competitor < v(best.switch_prob));
    assert!((v(snapshot.allocation_entropy) - 1.0).abs() < 1e-12);
}

#[test]
fn switch_probability_is_symmetric_for_equal_uncertainty() {
    let best = v(one_step_voc_and_switch(&Floats, stats_around(10.0), d(9.0)).1);
    let challenger = v(one_step_voc_and_switch(&Floats, stats_around(9.0), d(10.0)).1);
    assert!((best - challenger).abs() < 1e-12);
}

#[test]
fn fixed_budget_diagnostic_search_matches_benchmark_search() {
    let mut env_rng = SmallRng::seed_from_u64(46);
    let board = Board::initial(&mut env_rng);
    let cfg = config(Policy::ExactVoc, 100);
    let mut benchmark_rng = SmallRng::seed_from_u64(1234);
    let mut diagnostic_rng = SmallRng::seed_from_u64(1234);

    let benchmark_choice = choose_move(board, 64, &cfg, &Floats, &mut benchmark_rng);
    let diagnostic =
        diagnostic_search(board, limited(64), &cfg, &mut diagnostic_rng).unwrap();

    assert_eq!(benchmark_choice, Some(diagnostic.dir));
    assert_eq!(diagnostic.simulations, 64);
    assert_eq!(diagnostic.root.total_samples, 64);
}

#[test]
fn statistics_of_a_few_samples() {
    let none = Stats::none();
    assert_eq!((none.n, v(none.mean), v(none.sd(&Floats))), (0, 0.0, 0.0));
    let one = observed_all(&[5.0]);
    assert_eq!((one.n, v(one.mean), v(one.sd(&Floats))), (1, 5.0, 0.0));
    let s = observed_all(&[2.0, 4.0, 9.0]);
    assert_eq!((s.n, v(s.min), v(s.max)), (3, 2.0, 9.0));
    assert!((v(s.mean) - 5.0).abs() < 1e-12);
    assert!((v(s.m2) - 26.0).abs() < 1e-12);
    assert!((v(s.sd(&Floats)) - 13.0f64.sqrt()).abs() < 1e-12);
}

#[test]
fn certain_samples_have_no_value_and_no_spread() {
    let mut rng = SmallRng::seed_from_u64(5);
    let two = observed_all(&[1.0, 3.0]);
    assert_eq!(two.step_scale(&Floats), None);
    assert_eq!(v(exact_voc(&Floats, two, d(2.0))), 0.0);
    assert_eq!(v(two.mean_sample(&Floats, &mut rng)), 2.0);
    let equal = observed_all(&[4.0, 4.0, 4.0]);
    assert_eq!(equal.step_scale(&Floats), None);
    assert_eq!(one_step_voc_and_switch(&Floats, equal, d(9.0)), (d(0.0), d(0.0)));
    assert_eq!(v(equal.mean_sample(&Floats, &mut rng)), 4.0);
    assert_eq!(v(equal.return_sample(&Floats, &mut rng)), 4.0);
    let spread = observed_all(&[1.0, 2.0, 3.0]);
    assert!((v(spread.step_scale(&Floats).unwrap()) - 1.0 / 12.0f64.sqrt()).abs() < 1e-12);
    assert!(v(spread.mean_sample(&Floats, &mut rng)) != 2.0);
    assert!(v(spread.return_sample(&Floats, &mut rng)) != 2.0);
}

#[test]
fn value_of_a_sample_by_the_closed_form() {
    // For n = 3 the step has two degrees of freedom; at the boundary the value is
    // tau * nu / (nu - 1) * f(0) with f(0) = 1 / (2 sqrt 2).
    let s = stats_around(10.0);
    let expected = (1.0 / 12.0f64.sqrt()) * 2.0 / (2.0 * 2.0f64.sqrt());
    assert!((v(exact_voc(&Floats, s, d(10.0))) - expected).abs() < 1e-12);
    let (voc, switch) = one_step_voc_and_switch(&Floats, s, d(10.0));
    assert!((v(voc) - expected).abs() < 1e-12);
    assert!((v(switch) - 0.5).abs() < 1e-9);
}

#[test]
fn the_first_samples_go_round() {
    for policy in [Policy::Uct, Policy::Thompson, Policy::ExactVoc, Policy::McVoc(4)] {
        let cfg = config(policy, 20);
        let board = start_board(11);
        let moves = board.legal_moves().len();
        let needed = if policy == Policy::Uct { 1 } else { 3 };
        let mut rng = SmallRng::seed_from_u64(9);
        let mut root = Node::new(board);
        for done in 0..needed * moves {
            let counts: Vec<u32> = root.edges.iter().map(|e| e.stats.n).collect();
            assert!(counts.iter().max().unwrap() - counts.iter().min().unwrap() <= 1);
            assert_eq!(counts.iter().sum::<u32>() as usize, done);
            let next = select_edge(&root, policy, &Floats, &mut rng);
            assert_eq!(next, least_sampled(&root.edges));
            simulate(&mut root, &cfg, &Floats, &mut rng);
        }
        assert!(root.edges.iter().all(|e| e.stats.n as usize == needed));
    }
}

#[test]
fn uct_prefers_the_higher_mean_at_equal_counts() {
    let node = node_with(&[stats_around(5.0), stats_around(9.0), stats_around(1.0)]);
    let mut rng = SmallRng::seed_from_u64(1);
    assert_eq!(select_edge(&node, Policy::Uct, &Floats, &mut rng), 1);
    // Equal means are all the same; the first comes first.
    let flat = node_with(&[stats_around(2.0), stats_around(2.0)]);
    assert_eq!(select_edge(&flat, Policy::Uct, &Floats, &mut rng), 0);
}

#[test]
fn thompson_prefers_what_is_certain_to_be_better() {
    let low = observed_all(&[1.0, 1.0, 1.0]);
    let high = observed_all(&[8.0, 8.0, 8.0]);
    let node = node_with(&[low, high, low]);
    let mut rng = SmallRng::seed_from_u64(1);
    assert_eq!(select_edge(&node, Policy::Thompson, &Floats, &mut rng), 1);
}

#[test]
fn value_of_computation_goes_to_the_uncertain_rival() {
    let sure = observed_all(&[10.0, 10.0, 10.0]);
    let rival = observed_all(&[4.0, 9.0, 14.0]);
    let hopeless = observed_all(&[-100.0, -100.0, -100.0]);
    let node = node_with(&[sure, rival, hopeless]);
    let mut rng = SmallRng::seed_from_u64(1);
    assert_eq!(select_edge(&node, Policy::ExactVoc, &Floats, &mut rng), 1);
    assert_eq!(select_edge(&node, Policy::McVoc(64), &Floats, &mut rng), 1);
}

#[test]
fn ties_go_to_every_move_in_time() {
    let node = node_with(&[stats_around(3.0), stats_around(3.0)]);
    let mut rng = SmallRng::seed_from_u64(1);
    let mut seen = [false, false];
    for _ in 0..64 {
        seen[select_edge(&node, Policy::ExactVoc, &Floats, &mut rng)] = true;
    }
    assert_eq!(seen, [true, true]);
}

#[test]
fn scores_tie_within_the_tolerance() {
    let scores: Vec<Double> = [1.0, 1.0 + 1e-13, 0.5, 1.0 - 3e-12].iter().map(|x| d(*x)).collect();
    assert_eq!(ties_of(&scores, false, &Floats), [0, 1]);
    let large: Vec<Double> = [1e6, 1e6 - 1e-7, 1e6 - 1e-5].iter().map(|x| d(*x)).collect();
    assert_eq!(ties_of(&large, true, &Floats), [0, 1]);
    assert_eq!(ties_of(&large, false, &Floats), [0]);
}

#[test]
fn draws_and_means_move_with_the_units() {
    let xs = [3.0, 8.0, 4.0, 6.0];
    let plain = observed_all(&xs);
    let moved = observed_all(&xs.map(|x| 1000.0 * x + 37.0));
    for seed in 0..20 {
        let mut a = SmallRng::seed_from_u64(seed);
        let mut b = SmallRng::seed_from_u64(seed);
        let x = v(plain.mean_sample(&Floats, &mut a));
        let y = v(moved.mean_sample(&Floats, &mut b));
        assert!((y - (1000.0 * x + 37.0)).abs() < 1e-6);
        let x = v(plain.return_sample(&Floats, &mut a));
        let y = v(moved.return_sample(&Floats, &mut b));
        assert!((y - (1000.0 * x + 37.0)).abs() < 1e-6);
        let m = v(plain.mean_with(&Floats, d(x)));
        let n = v(moved.mean_with(&Floats, d(y)));
        assert!((m - (21.0 + x) / 5.0).abs() < 1e-9);
        assert!((n - (1000.0 * m + 37.0)).abs() < 1e-6);
    }
}

#[test]
fn choices_do_not_depend_on_units() {
    let samples = [[5.0, 6.0, 7.5], [9.0, 2.0, 6.0], [8.0, 8.5, 1.0]];
    let plain: Vec<Stats> = samples.iter().map(|xs| observed_all(xs)).collect();
    let moved: Vec<Stats> =
        samples.iter().map(|xs| observed_all(&xs.map(|x| 64.0 * x + 128.0))).collect();
    for policy in [Policy::Uct, Policy::Thompson, Policy::ExactVoc, Policy::McVoc(16)] {
        for seed in 0..10 {
            let mut a = SmallRng::seed_from_u64(seed);
            let mut b = SmallRng::seed_from_u64(seed);
            assert_eq!(
                select_edge(&node_with(&plain), policy, &Floats, &mut a),
                select_edge(&node_with(&moved), policy, &Floats, &mut b)
            );
        }
    }
    assert_eq!(best_move(&node_with(&plain)), best_move(&node_with(&moved)));
}

#[test]
fn values_and_probabilities_stay_in_bounds() {
    let s = observed_all(&[3.0, 8.0, 4.0, 6.0]);
    for i in -40..40 {
        let (voc, switch) = one_step_voc_and_switch(&Floats, s, d(i as f64));
        assert!(v(voc) >= 0.0);
        assert!((0.0..=1.0).contains(&v(switch)));
        assert_eq!(voc, exact_voc(&Floats, s, d(i as f64)));
        // The two forms differ by the distance from the competitor.
        let tau = v(s.step_scale(&Floats).unwrap());
        let z = (i as f64 - v(s.mean)) / tau;
        let t = StudentsT::new(0.0, 1.0, 3.0).unwrap();
        let first = (3.0 + z * z) / 2.0 * t.pdf(z);
        let below = tau * (first - z * t.sf(z));
        let above = tau * (first + z * t.cdf(z));
        assert!((above - (below + tau * z)).abs() < 1e-6);
    }
}

#[test]
fn limited_searches_take_three_steps_for_each_simulation() {
    let cfg = config(Policy::Uct, 3);
    let mut rng = SmallRng::seed_from_u64(1);
    let mut run = SearchRun::start(start_board(1), limited(20), None).unwrap();
    let mut steps = 0;
    while run.step(Span { nanos: 0 }, &cfg, &Floats, &mut rng) == Action::Again {
        steps += 1;
    }
    assert_eq!(run.sims_done, 20);
    assert_eq!(steps, 3 * 20 + 1);
}

#[test]
fn transforms_and_units() {
    let t = transform(1000.0, 37.0);
    assert_eq!(v(t.apply(&Floats, 12)), 12037.0);
    assert_eq!(v(t.to_observed_units(&Floats, d(2.5))), 2500.0);
    assert_eq!(v(t.to_score_units(&Floats, d(2500.0))), 2.5);
}

#[test]
fn games_start_from_their_seed() {
    for seed in 0..20 {
        assert_eq!(TraceRun::start(seed).board, start_board(seed));
    }
    let run = TraceRun::start(3);
    assert_eq!(run.next_seed(), search_seed(3, 0));
    assert_eq!(run.search_rng(), SmallRng::seed_from_u64(search_seed(3, 0)));
}

#[test]
fn random_play_stops_at_the_cap_and_at_the_end() {
    let mut rng = SmallRng::seed_from_u64(2);
    let board = start_board(2);
    assert_eq!(random_rollout(board, &mut rng, 0), 0);
    let stuck = Board([1, 2, 1, 2, 2, 1, 2, 1, 1, 2, 1, 2, 2, 1, 2, 1]);
    assert_eq!(random_rollout(stuck, &mut rng, 100), 0);
    let one_merge = Board([1, 1, 3, 4, 5, 6, 7, 8, 9, 10, 11, 12, 13, 14, 15, 16]);
    assert_eq!(random_rollout(one_merge, &mut rng, 1), 4);
    assert!(random_rollout(board, &mut rng, 1000) > 0);
}

#[test]
fn simulations_add_one_sample_and_observe_the_return() {
    let cfg =
        SearchCfg { reward_transform: transform(2.0, 5.0), ..config(Policy::ExactVoc, 50) };
    let mut rng = SmallRng::seed_from_u64(21);
    let mut root = Node::new(start_board(21));
    let total = simulate(&mut root, &cfg, &Floats, &mut rng);
    assert_eq!(root.visits, 1);
    let sampled: Vec<&Edge> = root.edges.iter().filter(|e| e.stats.n == 1).collect();
    assert_eq!(sampled.len(), 1);
    assert_eq!(v(sampled[0].stats.mean), 2.0 * total as f64 + 5.0);
    assert_eq!(sampled[0].children.len(), 1);
    let mut over = Node::new(Board([1, 2, 1, 2, 2, 1, 2, 1, 1, 2, 1, 2, 2, 1, 2, 1]));
    assert!(over.terminal());
    assert_eq!(simulate(&mut over, &cfg, &Floats, &mut rng), 0);
    assert_eq!(over.visits, 0);
}

#[test]
fn known_positions_are_searched_again() {
    let cfg = config(Policy::Uct, 2);
    let mut rng = SmallRng::seed_from_u64(8);
    let mut root = Node::new(start_board(8));
    for _ in 0..600 {
        simulate(&mut root, &cfg, &Floats, &mut rng);
    }
    // Each position is played out once and simulated from then on.
    for edge in &root.edges {
        let below: u32 = edge.children.iter().map(|c| c.node.visits).sum();
        assert!(below > 0);
        assert_eq!(below as usize, edge.stats.n as usize - edge.children.len());
        for (i, child) in edge.children.iter().enumerate() {
            assert_eq!(child.board, child.node.board);
            assert!(edge.children[..i].iter().all(|other| other.board != child.board));
        }
    }
}

#[test]
fn no_legal_move_is_no_choice() {
    let cfg = config(Policy::Uct, 5);
    let mut rng = SmallRng::seed_from_u64(8);
    let stuck = Board([1, 2, 1, 2, 2, 1, 2, 1, 1, 2, 1, 2, 2, 1, 2, 1]);
    assert_eq!(choose_move(stuck, 10, &cfg, &Floats, &mut rng), None);
    assert!(diagnostic_search(stuck, limited(10), &cfg, &mut rng).is_none());
}

#[test]
fn the_last_of_equal_moves_is_played() {
    let node = node_with(&[stats_around(3.0), stats_around(8.0), stats_around(8.0)]);
    assert_eq!(best_move(&node), Dir::Left);
    // Without simulations all means are zero.
    let cfg = config(Policy::Uct, 5);
    let mut rng = SmallRng::seed_from_u64(8);
    let board = start_board(4);
    let last = board.legal_moves().last().unwrap().0;
    assert_eq!(choose_move(board, 0, &cfg, &Floats, &mut rng), Some(last));
}

#[test]
fn snapshot_figures() {
    let node = node_with(&[stats_around(10.0), stats_around(7.0), observed_all(&[1.0])]);
    let s = snapshot_root(&node, &Floats);
    assert_eq!(s.total_samples, 7);
    assert_eq!(s.best_dir, Dir::Up);
    assert_eq!(v(s.top_mean_gap), 3.0);
    assert_eq!(v(s.actions[1].gap_to_best), -3.0);
    assert!((v(s.actions[0].share) - 3.0 / 7.0).abs() < 1e-12);
    assert_eq!(s.best_action().dir, Dir::Up);
    assert!(s.action(Dir::Right).is_none());
    let p = [3.0 / 7.0, 3.0 / 7.0, 1.0 / 7.0];
    let h: f64 = p.iter().map(|x: &f64| -x * x.ln()).sum::<f64>() / 3.0f64.ln();
    assert!((v(s.allocation_entropy) - h).abs() < 1e-12);
    assert_eq!(v(s.max_voc()), v(s.actions[0].voc).max(v(s.actions[1].voc)));
}

#[test]
fn values_at_the_root() {
    assert_eq!(v(max_exact_voc(&node_with(&[stats_around(1.0)]), &Floats)), 0.0);
    let young = node_with(&[stats_around(1.0), observed_all(&[1.0])]);
    assert_eq!(v(max_exact_voc(&young, &Floats)), f64::INFINITY);
    let node = node_with(&[stats_around(10.0), stats_around(9.0)]);
    let a = v(exact_voc(&Floats, stats_around(10.0), d(9.0)));
    let b = v(exact_voc(&Floats, stats_around(9.0), d(10.0)));
    assert_eq!(v(max_exact_voc(&node, &Floats)), a.max(b));
    let alone = snapshot_root(&node_with(&[stats_around(1.0)]), &Floats);
    assert_eq!((v(alone.actions[0].voc), v(alone.allocation_entropy)), (0.0, 0.0));
}

#[test]
fn a_search_ends_when_a_sample_is_not_worth_its_cost() {
    let cfg = config(Policy::ExactVoc, 50);
    let board = start_board(3);
    let moves = board.legal_moves().len() as u32;
    let costly = SearchConstraints {
        simulation_limit: SimulationLimit::new(5000),
        time_limit: None,
        min_voc: Some(d(1e9)),
    };
    let mut rng = SmallRng::seed_from_u64(77);
    let outcome = diagnostic_search(board, costly, &cfg, &mut rng).unwrap();
    assert!(outcome.stopped_by_voc);
    assert_eq!(outcome.simulations, 3 * moves);
    assert!(v(outcome.max_voc) <= 1e9);
    // The cost is in score units, whatever the search observes.
    let scaled = SearchCfg { reward_transform: transform(1000.0, 37.0), ..cfg };
    let mut rng = SmallRng::seed_from_u64(77);
    let other = diagnostic_search(board, costly, &scaled, &mut rng).unwrap();
    assert_eq!(other.simulations, outcome.simulations);
    assert_eq!(other.dir, outcome.dir);
    assert!((v(other.max_voc) - v(outcome.max_voc)).abs() <= 1e-6 * v(outcome.max_voc));
}

#[test]
fn games_do_not_depend_on_the_units_of_the_returns() {
    let cfg = config(Policy::Thompson, 10);
    let plain = play_game(5, 16, &cfg, &Floats);
    // A power of two scales every sum without rounding.
    let wide = SearchCfg { reward_transform: transform(1024.0, 0.0), ..cfg };
    let scaled = play_game(5, 16, &wide, &Floats);
    assert_eq!(plain.final_score, scaled.final_score);
    assert_eq!(plain.max_tile, scaled.max_tile);
    assert_eq!(plain.moves, scaled.moves);
}

#[test]
fn games_are_played_to_their_end() {
    let cfg = config(Policy::McVoc(2), 5);
    let game = play_game(1, 4, &cfg, &Floats);
    assert_eq!(game.seed, 1);
    assert_eq!(game.policy, "mc-voc-2");
    assert_eq!(game.simulations, 4);
    assert_eq!(game.mc_samples, 2);
    assert!(game.moves > 10);
    assert!(game.final_score > 0);
    assert!(game.max_tile.is_power_of_two() && game.max_tile <= 131_072);
    let again = play_game(1, 4, &cfg, &Floats);
    assert_eq!((again.final_score, again.moves), (game.final_score, game.moves));
    let other = play_game(2, 4, &cfg, &Floats);
    assert!((other.final_score, other.moves) != (game.final_score, game.moves));
    let timing = game.timing(&Floats, Span::from_millis(500));
    assert_eq!(v(timing.wall_ms), 500.0);
    assert_eq!(v(timing.sims_per_second), 8.0 * game.moves as f64);
    assert_eq!(v(game.timing(&Floats, Span { nanos: 0 }).sims_per_second), 0.0);
    let uct = config(Policy::Uct, 5);
    assert_eq!(play_game(1, 4, &uct, &Floats).mc_samples, 0);
}

#[test]
fn searches_have_seeds_of_their_own() {
    assert_eq!(search_seed(0, 0), 0xD1B5_4A32_D192_ED03);
    assert_eq!(
        search_seed(5, 3),
        5 ^ 3u64.wrapping_mul(0x9E37_79B9_7F4A_7C15) ^ 0xD1B5_4A32_D192_ED03
    );
    let mut seeds: Vec<u64> = (0..1000).map(|m| search_seed(42, m)).collect();
    seeds.sort();
    seeds.dedup();
    assert_eq!(seeds.len(), 1000);
}

#[test]
fn traces_replay_the_game() {
    let cfg = config(Policy::ExactVoc, 5);
    let constraints = limited(6);
    let mut run = TraceRun::start(9);
    loop {
        let mut rng = run.search_rng();
        let Some(outcome) = diagnostic_search(run.board, constraints, &cfg, &mut rng) else {
            break;
        };
        let dir = outcome.dir;
        assert!(run.record(outcome));
        assert_eq!(run.steps.last().unwrap().chosen, dir);
    }
    let board = run.board;
    let trace = run.finish(Policy::ExactVoc, constraints);
    assert_eq!(trace.seed, 9);
    assert_eq!(trace.policy, "exact-voc");
    assert_eq!(trace.simulations, Some(6));
    assert_eq!(trace.time_limit, None);
    assert_eq!(trace.voc_cost, None);
    assert_eq!(trace.max_tile, board.max_tile());
    // The same searches and tiles as a game with the same seed and budget.
    let game = play_game(9, 6, &cfg, &Floats);
    assert_eq!((trace.final_score, trace.moves.len()), (game.final_score, game.moves));
    let mut score = 0;
    for (i, step) in trace.moves.iter().enumerate() {
        assert_eq!(step.move_index, i);
        assert_eq!(step.score_before, score);
        score += step.reward;
        assert_eq!(step.score_after, score);
        assert_eq!(step.simulations, 6);
        assert_eq!(step.budget_simulations, Some(6));
        assert!(!step.unlimited);
        assert!(!step.stopped_by_voc);
        assert!(step.spawn_tile == 2 || step.spawn_tile == 4);
        assert_eq!(step.board_after[step.spawn_index], step.spawn_tile);
        if i > 0 {
            assert_eq!(step.board_before, trace.moves[i - 1].board_after);
        }
        assert!(step.actions.iter().any(|a| a.dir == step.chosen));
    }
    assert_eq!(trace.moves.last().unwrap().board_after, board.values());
}

#[test]
fn illegal_moves_are_not_recorded() {
    let cfg = config(Policy::Uct, 5);
    let mut tried = 0;
    for seed in 0..20 {
        let mut run = TraceRun::start(seed);
        let before = run.board;
        let Some(wrong) = all_directions().into_iter().find(|dir| before.moved(*dir).is_none())
        else {
            continue;
        };
        let mut rng = run.search_rng();
        let outcome = diagnostic_search(before, limited(4), &cfg, &mut rng).unwrap();
        assert!(!run.record(SearchOutcome { dir: wrong, ..outcome }));
        assert_eq!(run.board, before);
        assert_eq!((run.steps.len(), run.score), (0, 0));
        tried += 1;
    }
    assert!(tried > 0);
}

fn stuck_board() -> Board {
    Board([1, 2, 3, 4, 2, 3, 4, 5, 3, 4, 5, 6, 4, 5, 6, 7])
}

#[test]
fn nothing_is_drawn_where_nothing_is_open() {
    let fresh = SmallRng::seed_from_u64(40);
    let mut rng = fresh.clone();
    let cfg = config(Policy::Thompson, 20);
    assert_eq!(stuck_board().spawn(&mut rng), stuck_board());
    assert_eq!(random_rollout(stuck_board(), &mut rng, 50), 0);
    assert_eq!(random_rollout(start_board(1), &mut rng, 0), 0);
    assert_eq!(choose_move(stuck_board(), 10, &cfg, &Floats, &mut rng), None);
    let mut terminal = Node::new(stuck_board());
    assert_eq!(simulate(&mut terminal, &cfg, &Floats, &mut rng), 0);
    let certain = observed_all(&[5.0, 5.0, 5.0]);
    let few = observed_all(&[5.0, 9.0]);
    assert_eq!(v(certain.mean_sample(&Floats, &mut rng)), 5.0);
    assert_eq!(v(certain.return_sample(&Floats, &mut rng)), 5.0);
    assert_eq!(v(few.mean_sample(&Floats, &mut rng)), 7.0);
    assert_eq!(v(few.return_sample(&Floats, &mut rng)), 7.0);
    let even = node_with(&[certain, observed_all(&[4.0, 4.0, 4.0])]);
    assert_eq!(select_edge(&even, Policy::Thompson, &Floats, &mut rng), 0);
    let open = node_with(&[stats_around(3.0), stats_around(8.0)]);
    assert_eq!(select_edge(&open, Policy::Uct, &Floats, &mut rng), 1);
    for policy in [Policy::Uct, Policy::Thompson, Policy::ExactVoc, Policy::McVoc(8)] {
        let waiting = node_with(&[stats_around(3.0), Stats::none()]);
        assert_eq!(select_edge(&waiting, policy, &Floats, &mut rng), 1);
    }
    assert_eq!(rng, fresh);
    let draws = [Policy::Thompson, Policy::ExactVoc, Policy::McVoc(8)];
    for policy in draws {
        let mut rng = fresh.clone();
        select_edge(&open, policy, &Floats, &mut rng);
        assert_ne!(rng, fresh);
    }
}

#[test]
fn draws_of_the_mean_and_of_the_return_are_one_draw_each() {
    let stats = observed_all(&[2.0, 5.0, 11.0]);
    let mut a = SmallRng::seed_from_u64(41);
    let mut b = a.clone();
    let mut c = a.clone();
    let mean = v(stats.mean_sample(&Floats, &mut a));
    let next = v(stats.return_sample(&Floats, &mut b));
    let t = StudentT::new(2.0).unwrap().sample(&mut c);
    assert_eq!(a, c);
    assert_eq!(b, c);
    let sd = v(stats.sd(&Floats));
    assert_eq!(mean, 6.0 + sd / 3.0f64.sqrt() * t);
    assert_eq!(next, 6.0 + sd * (1.0 + 1.0 / 3.0f64).sqrt() * t);
}

#[test]
fn ties_are_drawn_from_all_of_them() {
    let node = node_with(&[stats_around(5.0), stats_around(5.0), stats_around(5.0)]);
    for seed in 0..20 {
        let mut rng = SmallRng::seed_from_u64(seed);
        let mut other = rng.clone();
        let pick = other.random_range(0..3usize);
        assert_eq!(select_edge(&node, Policy::ExactVoc, &Floats, &mut rng), pick);
        assert_eq!(rng, other);
    }
}

#[test]
fn random_play_draws_a_direction_and_then_a_tile() {
    for seed in 0..10 {
        let start = start_board(seed);
        let mut rng = SmallRng::seed_from_u64(seed + 100);
        let mut other = rng.clone();
        let score = random_rollout(start, &mut rng, 30);
        let mut board = start;
        let mut expected = 0;
        for _ in 0..30 {
            let legal = board.legal_moves();
            if legal.is_empty() {
                break;
            }
            let (_, moved, reward) = legal[other.random_range(0..legal.len())];
            expected += reward;
            board = moved.spawn(&mut other);
        }
        assert_eq!(score, expected);
        assert_eq!(rng, other);
    }
}

#[test]
fn longer_random_play_scores_no_less() {
    for seed in 0..10 {
        let start = start_board(seed);
        let mut last = 0;
        for cap in [0, 1, 5, 20, 100, 10_000] {
            let mut rng = SmallRng::seed_from_u64(seed);
            let score = random_rollout(start, &mut rng, cap);
            assert_eq!(score % 4, 0);
            assert!(score >= last);
            last = score;
        }
    }
}

#[test]
fn large_tiles_can_be_searched() {
    let mut cells = [0; 16];
    cells[5] = 60;
    let mut rng = SmallRng::seed_from_u64(6);
    let cfg = config(Policy::ExactVoc, 20);
    assert!(choose_move(Board(cells), 20, &cfg, &Floats, &mut rng).is_some());
}

#[test]
fn without_a_simulation_the_last_legal_move_is_played() {
    for seed in 0..10 {
        let board = start_board(seed);
        let fresh = SmallRng::seed_from_u64(seed);
        let mut rng = fresh.clone();
        let cfg = config(Policy::Thompson, 20);
        let last = board.legal_moves().last().unwrap().0;
        assert_eq!(choose_move(board, 0, &cfg, &Floats, &mut rng), Some(last));
        assert_eq!(rng, fresh);
    }
}

#[test]
fn searches_repeat_and_agree_step_by_step() {
    for policy in [Policy::Uct, Policy::Thompson, Policy::ExactVoc, Policy::McVoc(8)] {
        let cfg = config(policy, 25);
        let board = start_board(50);
        let mut a = SmallRng::seed_from_u64(51);
        let mut b = a.clone();
        let mut c = a.clone();
        let first = choose_move(board, 40, &cfg, &Floats, &mut a);
        let second = choose_move(board, 40, &cfg, &Floats, &mut b);
        let steps = diagnostic_search(board, limited(40), &cfg, &mut c).unwrap();
        assert_eq!(first, second);
        assert_eq!(a, b);
        assert_eq!(first, Some(steps.dir));
        assert_eq!(steps.simulations, 40);
        assert_eq!(a, c);
    }
}

#[test]
fn steps_without_a_simulation_draw_nothing() {
    let cfg = config(Policy::Thompson, 10);
    let mut rng = SmallRng::seed_from_u64(52);
    let mut run = SearchRun::start(start_board(52), limited(9), None).unwrap();
    loop {
        let before = rng.clone();
        let sims = run.sims_done;
        let action = run.step(Span { nanos: 0 }, &cfg, &Floats, &mut rng);
        assert_eq!(run.sims_done == sims, rng == before);
        if action == Action::Finish {
            break;
        }
    }
    assert_eq!(run.sims_done, 9);
}

#[test]
fn a_lone_move_is_not_searched() {
    let lone = Board([2, 3, 4, 5, 0, 0, 0, 0, 0, 0, 0, 0, 0, 0, 0, 0]);
    assert_eq!(lone.legal_moves().len(), 1);
    let fresh = SmallRng::seed_from_u64(53);
    let mut rng = fresh.clone();
    let constraints =
        SearchConstraints { simulation_limit: None, time_limit: None, min_voc: Some(d(0.5)) };
    let outcome =
        diagnostic_search(lone, constraints, &config(Policy::ExactVoc, 20), &mut rng).unwrap();
    assert_eq!(outcome.simulations, 0);
    assert_eq!(v(outcome.max_voc), 0.0);
    assert!(outcome.stopped_by_voc);
    assert_eq!(outcome.dir, Dir::Down);
    assert_eq!(rng, fresh);
}

#[test]
fn the_greatest_value_is_in_the_snapshot() {
    let nodes = [
        node_with(&[stats_around(3.0)]),
        node_with(&[stats_around(3.0), stats_around(4.0)]),
        node_with(&[stats_around(3.0), observed_all(&[2.0, 9.0, 4.0, 4.5]), stats_around(5.0)]),
    ];
    for node in nodes {
        let max = max_exact_voc(&node, &Floats);
        assert_eq!(max, snapshot_root(&node, &Floats).max_voc());
    }
}

#[test]
fn statistics_are_of_all_the_samples() {
    let xs = [4.0, 7.5, -2.0, 7.5, 0.25, 3.0];
    let stats = observed_all(&xs);
    let mean = xs.iter().sum::<f64>() / 6.0;
    let squares: f64 = xs.iter().map(|x| (x - mean) * (x - mean)).sum();
    assert_eq!(stats.n, 6);
    assert_eq!((v(stats.min), v(stats.max)), (-2.0, 7.5));
    assert!((v(stats.mean) - mean).abs() < 1e-12);
    assert!((v(stats.m2) - squares).abs() < 1e-9);
}

#[test]
fn values_and_probabilities_fall_with_distance() {
    let stats = observed_all(&[1.0, 4.0, 6.0, 9.0]);
    let mean = v(stats.mean);
    let mut last = (f64::INFINITY, 0.5);
    for i in 0..20 {
        let gap = i as f64 * 0.5;
        let (above, p) = one_step_voc_and_switch(&Floats, stats, d(mean + gap));
        let (below, q) = one_step_voc_and_switch(&Floats, stats, d(mean - gap));
        assert!((v(above) - v(below)).abs() < 1e-9);
        assert!((v(p) - v(q)).abs() < 1e-9);
        assert!(v(above) <= last.0 && v(p) <= last.1 + 1e-12);
        last = (v(above), v(p));
    }
}

#[test]
fn tiles_follow_from_the_seed_and_the_moves() {
    let cfg = config(Policy::Uct, 5);
    let mut tiles = SmallRng::seed_from_u64(60);
    let mut board = Board::initial(&mut tiles);
    let mut run = TraceRun::start(60);
    assert_eq!(run.board, board);
    assert_eq!(run.env_rng, tiles);
    loop {
        let mut rng = run.search_rng();
        assert_eq!(rng, SmallRng::seed_from_u64(search_seed(60, run.steps.len())));
        let Some(outcome) = diagnostic_search(run.board, limited(4), &cfg, &mut rng) else {
            break;
        };
        board = board.moved(outcome.dir).unwrap().0.spawn(&mut tiles);
        assert!(run.record(outcome));
        assert_eq!(run.board, board);
        assert_eq!(run.env_rng, tiles);
    }
    assert!(board.legal_moves().is_empty());
    assert!(!run.steps.is_empty());
    let first = play_game(60, 4, &cfg, &Floats);
    let second = play_game(60, 4, &cfg, &Floats);
    assert_eq!(first.final_score % 4, 0);
    assert_eq!(
        (first.final_score, first.max_tile, first.moves),
        (second.final_score, second.max_tile, second.moves)
    );
    assert_eq!((run.score, run.steps.len()), (first.final_score, first.moves));
}

#[test]
fn a_return_lies_further_out_than_a_mean() {
    let stats = observed_all(&[2.0, 5.0, 11.0, 6.0]);
    let factor = 5.0f64.sqrt();
    for seed in 0..10 {
        let mut a = SmallRng::seed_from_u64(seed);
        let mut b = a.clone();
        let mean = v(stats.mean_sample(&Floats, &mut a)) - 6.0;
        let next = v(stats.return_sample(&Floats, &mut b)) - 6.0;
        assert!((next - factor * mean).abs() < 1e-9 * next.abs());
    }
}

#[test]
fn the_value_of_a_sample_is_the_expected_gain() {
    let stats = observed_all(&[1.0, 4.0, 6.0, 9.0, 7.0]);
    let (mean, sd) = (v(stats.mean), v(stats.sd(&Floats)));
    let tau = sd / 30.0f64.sqrt();
    let t = StudentsT::new(0.0, 1.0, 4.0).unwrap();
    for c in [mean - 1.5, mean, mean + 0.7] {
        let step = 1e-3;
        let mut expected = 0.0;
        for i in -400_000i64..400_000 {
            let x = (i as f64 + 0.5) * step;
            expected += (mean + tau * x - c).max(0.0) * t.pdf(x) * step;
        }
        let gain = expected - (mean - c).max(0.0);
        assert!((v(exact_voc(&Floats, stats, d(c))) - gain).abs() < 1e-4);
    }
}

#[test]
fn the_order_of_the_samples_does_not_matter() {
    let a = observed_all(&[4.0, -7.0, 2.5, 9.0]);
    let b = observed_all(&[9.0, 2.5, 4.0, -7.0]);
    assert_eq!((a.n, v(a.min), v(a.max)), (b.n, v(b.min), v(b.max)));
    assert!((v(a.mean) - v(b.mean)).abs() < 1e-12);
    assert!((v(a.m2) - v(b.m2)).abs() < 1e-9);
    assert!(v(a.min) <= v(a.mean) && v(a.mean) <= v(a.max));
    let one = observed_all(&[-5.0]);
    assert_eq!((v(one.min), v(one.max), v(one.m2)), (-5.0, -5.0, 0.0));
}

#[test]
fn chosen_moves_do_not_depend_on_the_units() {
    // Powers of two scale without rounding.
    for policy in [Policy::Uct, Policy::Thompson, Policy::ExactVoc] {
        for seed in 0..5 {
            let board = start_board(seed);
            let plain = config(policy, 20);
            let scaled = SearchCfg { reward_transform: transform(4096.0, 0.0), ..plain };
            let mut a = SmallRng::seed_from_u64(seed);
            let mut b = a.clone();
            let first = choose_move(board, 60, &plain, &Floats, &mut a);
            let second = choose_move(board, 60, &scaled, &Floats, &mut b);
            assert_eq!(first, second);
            assert_eq!(a, b);
        }
    }
}

#[test]
fn traces_with_the_same_moves_share_their_tiles() {
    let mut a = TraceRun::start(70);
    let mut b = TraceRun::start(70);
    for _ in 0..12 {
        let mut rng = a.search_rng();
        let Some(first) =
            diagnostic_search(a.board, limited(9), &config(Policy::Uct, 5), &mut rng)
        else {
            break;
        };
        let mut rng = b.search_rng();
        let second =
            diagnostic_search(b.board, limited(30), &config(Policy::McVoc(4), 40), &mut rng);
        let second = SearchOutcome { dir: first.dir, ..second.unwrap() };
        assert!(a.record(first));
        assert!(b.record(second));
    }
    assert!(!a.steps.is_empty());
    for (x, y) in a.steps.iter().zip(&b.steps) {
        assert_eq!(x.board_before, y.board_before);
        assert_eq!((x.reward, x.spawn_index, x.spawn_tile), (y.reward, y.spawn_index, y.spawn_tile));
        assert_eq!(x.board_after, y.board_after);
    }
}

#[test]
fn the_value_with_the_switch_is_the_value_alone() {
    for c in [2.0, 5.0, 6.5] {
        let stats = observed_all(&[3.0, 8.0, 4.0]);
        let (value, _) = one_step_voc_and_switch(&Floats, stats, d(c));
        assert_eq!(value, exact_voc(&Floats, stats, d(c)));
    }
    let few = observed_all(&[3.0, 8.0]);
    let (value, switch) = one_step_voc_and_switch(&Floats, few, d(4.0));
    assert_eq!((v(value), v(switch)), (0.0, 0.0));
}

#[test]
fn the_last_step_at_the_largest_limit_only_stops() {
    let limit = SearchConstraints {
        simulation_limit: SimulationLimit::new(u32::MAX as usize),
        ..SearchConstraints::default()
    };
    let fresh = SmallRng::seed_from_u64(1);
    let mut rng = fresh.clone();
    let mut run = SearchRun::start(start_board(1), limit, None).unwrap();
    run.sims_done = u32::MAX;
    let cfg = config(Policy::Uct, 5);
    let now = Span { nanos: 0 };
    assert_eq!(run.step(now, &cfg, &Floats, &mut rng), Action::Again);
    assert_eq!(run.step(now, &cfg, &Floats, &mut rng), Action::Finish);
    assert_eq!(run.sims_done, u32::MAX);
    assert_eq!(rng, fresh);
}

#[test]
fn first_choices_do_not_depend_on_the_units() {
    for policy in [Policy::Uct, Policy::Thompson, Policy::ExactVoc, Policy::McVoc(8)] {
        for seed in 0..10 {
            let board = start_board(seed);
            let moves = board.legal_moves().len();
            let plain = config(policy, 30);
            let other = SearchCfg { reward_transform: transform(1000.0, 37.0), ..plain };
            let mut a = SmallRng::seed_from_u64(seed + 200);
            let mut b = a.clone();
            let first = choose_move(board, moves, &plain, &Floats, &mut a);
            let second = choose_move(board, moves, &other, &Floats, &mut b);
            assert!(first.is_some());
            assert_eq!(first, second);
            assert_eq!(a, b);
        }
    }
}
