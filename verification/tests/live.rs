//! The live session and its frames.

use bayes_2048::arith::Arithmetic;
use bayes_2048::board::{all_directions, Board, Dir};
use bayes_2048::double::Double;
use bayes_2048::estimate::RewardTransform;
use bayes_2048::frame::{
    compose_frame, dir_label, frame_figures, progress_bar, render_search_frame, tile_symbol,
    write_compact_board, LiveSearch,
};
use bayes_2048::limits::{SearchConstraints, SimulationLimit};
use bayes_2048::live::{next_due, Action, Flow, Phase, SearchRun};
use bayes_2048::policy::Policy;
use bayes_2048::search::SearchCfg;
use bayes_2048::session::{Key, KeyCode, LiveCommand, LiveSession, Settings};
use bayes_2048::snapshot::{RootActionSnapshot, RootSnapshot};
use bayes_2048::span::{Span, MAX_NANOS};
use rand::rngs::SmallRng;
use rand::SeedableRng;
use rand_distr::{Distribution, StudentT};
use statrs::distribution::{Continuous, ContinuousCDF, StudentsT};

struct Shown;

fn num(x: f64) -> Double {
    Double { bits: x.to_bits() }
}

fn real_of(x: Double) -> f64 {
    f64::from_bits(x.bits)
}

impl Arithmetic for Shown {
    fn plus(&self, a: Double, b: Double) -> Double {
        num(real_of(a) + real_of(b))
    }

    fn minus(&self, a: Double, b: Double) -> Double {
        num(real_of(a) - real_of(b))
    }

    fn times(&self, a: Double, b: Double) -> Double {
        num(real_of(a) * real_of(b))
    }

    fn over(&self, a: Double, b: Double) -> Double {
        num(real_of(a) / real_of(b))
    }

    fn root(&self, a: Double) -> Double {
        num(real_of(a).sqrt())
    }

    fn log(&self, a: Double) -> Double {
        num(real_of(a).ln())
    }

    fn of_count(&self, n: u64) -> Double {
        num(n as f64)
    }

    fn of_sum(&self, n: u128) -> Double {
        num(n as f64)
    }

    fn of_span(&self, span: Span) -> Double {
        num(span.nanos as f64 / 1e9)
    }

    fn density(&self, freedom: Double, z: Double) -> Double {
        num(StudentsT::new(0.0, 1.0, real_of(freedom)).unwrap().pdf(real_of(z)))
    }

    fn lower_tail(&self, freedom: Double, z: Double) -> Double {
        num(StudentsT::new(0.0, 1.0, real_of(freedom)).unwrap().cdf(real_of(z)))
    }

    fn upper_tail(&self, freedom: Double, z: Double) -> Double {
        num(StudentsT::new(0.0, 1.0, real_of(freedom)).unwrap().sf(real_of(z)))
    }

    fn draw(&self, freedom: Double, rng: SmallRng) -> (Double, SmallRng) {
        let mut rng = rng;
        let t = StudentT::new(real_of(freedom)).unwrap().sample(&mut rng);
        (num(t), rng)
    }

    fn to_span(&self, seconds: Double) -> Span {
        Span { nanos: std::time::Duration::from_secs_f64(real_of(seconds)).as_nanos() }
    }

    fn to_count(&self, a: Double) -> usize {
        real_of(a).round() as usize
    }

    fn fixed(&self, a: Double, digits: usize) -> String {
        format!("{:.*}", digits, real_of(a))
    }
}

fn key(code: KeyCode) -> Key {
    Key { code, control: false, released: false }
}

fn session_with(constraints: SearchConstraints) -> LiveSession {
    LiveSession {
        interactive: false,
        settings: Settings {
            constraints,
            saved_simulation_limit: constraints.simulation_limit,
            saved_time_limit: constraints.time_limit,
            frame_interval: Span::from_millis(50),
        },
        notice: String::new(),
        revision: 0,
    }
}

fn sims(n: usize) -> SearchConstraints {
    SearchConstraints {
        simulation_limit: SimulationLimit::new(n),
        time_limit: None,
        min_voc: None,
    }
}

#[test]
fn compact_tiles_use_exponents() {
    let board = Board([0, 1, 9, 10, 11, 12, 2, 3, 4, 5, 6, 7, 8, 0, 0, 0]);
    let mut output = String::new();
    write_compact_board(&mut output, board);
    assert_eq!(output, ". 1 9 a\nb c 2 3\n4 5 6 7\n8 . . .\n");
}

#[test]
fn direction_symbols_have_fixed_width_labels() {
    let labels: Vec<String> =
        all_directions().into_iter().map(|dir| format!("  {}|", dir_label(dir))).collect();

    assert_eq!(labels, ["  ↑ |", "  ↓ |", "  ← |", "  → |"]);
    assert!(labels.iter().all(|label| label.chars().count() == 5));
}

#[test]
fn live_resource_constraints_toggle_and_adjust() {
    let initial = SearchConstraints {
        simulation_limit: SimulationLimit::new(512),
        time_limit: Some(Span::from_millis(300)),
        min_voc: Some(num(1.0)),
    };
    let mut session = session_with(initial);

    assert_eq!(session.handle_key(key(KeyCode::Char('i')), &Shown), LiveCommand::Continue);
    assert!(session.settings.constraints.hard_limits_disabled());
    assert_eq!(session.settings.constraints.min_voc, Some(num(1.0)));

    session.handle_key(key(KeyCode::Char('i')), &Shown);
    assert_eq!(session.settings.constraints, initial);
    session.handle_key(key(KeyCode::Char('+')), &Shown);
    assert_eq!(session.settings.constraints.time_limit, Some(Span::from_millis(350)));
    session.handle_key(key(KeyCode::Char('-')), &Shown);
    assert_eq!(session.settings.constraints.time_limit, Some(Span::from_millis(300)));

    session.handle_key(key(KeyCode::Char('[')), &Shown);
    assert_eq!(session.settings.frame_interval, Span::from_millis(40));
    session.handle_key(key(KeyCode::Char(']')), &Shown);
    assert_eq!(session.settings.frame_interval, Span::from_millis(50));
}

#[test]
fn live_action_and_quit_keys_map_to_commands() {
    let mut session = session_with(sims(512));

    assert_eq!(session.handle_key(key(KeyCode::Enter), &Shown), LiveCommand::ActBest);
    assert_eq!(session.handle_key(key(KeyCode::Left), &Shown), LiveCommand::Force(Dir::Left));
    let interrupt = Key { code: KeyCode::Char('c'), control: true, released: false };
    assert_eq!(session.handle_key(interrupt, &Shown), LiveCommand::Quit);
}

#[test]
fn the_other_keys() {
    let mut session = session_with(sims(512));
    for (code, command) in [
        (KeyCode::Char('q'), LiveCommand::Quit),
        (KeyCode::Esc, LiveCommand::Quit),
        (KeyCode::Char(' '), LiveCommand::ActBest),
        (KeyCode::Up, LiveCommand::Force(Dir::Up)),
        (KeyCode::Down, LiveCommand::Force(Dir::Down)),
        (KeyCode::Right, LiveCommand::Force(Dir::Right)),
        (KeyCode::Char('c'), LiveCommand::Continue),
        (KeyCode::Char('x'), LiveCommand::Continue),
        (KeyCode::Other, LiveCommand::Continue),
    ] {
        assert_eq!(session.handle_key(key(code), &Shown), command);
        let released = Key { code, control: false, released: true };
        assert_eq!(session.handle_key(released, &Shown), LiveCommand::Continue);
    }
    assert_eq!(session.notice, "acting now with current best");
    assert_eq!(session.revision, 1);
    assert_eq!(session.settings.constraints, sims(512));
}

#[test]
fn simulation_limits_step_and_stay_positive() {
    let mut session = session_with(sims(200));
    session.handle_key(key(KeyCode::PageUp), &Shown);
    assert_eq!(session.settings.constraints, sims(328));
    assert_eq!(session.notice, "constraints 328 sims");
    session.handle_key(key(KeyCode::Char('=')), &Shown);
    assert_eq!(session.settings.constraints, sims(456));
    for _ in 0..9 {
        session.handle_key(key(KeyCode::PageDown), &Shown);
    }
    assert_eq!(session.settings.constraints, sims(1));
    let mut endless = session_with(sims(usize::MAX - 5));
    endless.handle_key(key(KeyCode::Char('+')), &Shown);
    assert_eq!(endless.settings.constraints, sims(usize::MAX));
    let mut none = session_with(sims(0));
    none.handle_key(key(KeyCode::Char('-')), &Shown);
    assert_eq!(none.settings.constraints, sims(384));
}

#[test]
fn times_and_frames_have_a_floor() {
    let limits = SearchConstraints {
        simulation_limit: None,
        time_limit: Some(Span::from_millis(20)),
        min_voc: None,
    };
    let mut session = session_with(limits);
    session.handle_key(key(KeyCode::Char('-')), &Shown);
    assert_eq!(session.settings.constraints.time_limit, Some(Span::from_millis(10)));
    for _ in 0..9 {
        session.handle_key(key(KeyCode::Char('[')), &Shown);
    }
    assert_eq!(session.settings.frame_interval, Span::from_millis(10));
    assert_eq!(session.notice, "refresh interval 10 ms");
}

#[test]
fn toggling_back_brings_a_default_where_nothing_was_saved() {
    let limits = SearchConstraints {
        simulation_limit: None,
        time_limit: Some(Span::from_millis(20)),
        min_voc: None,
    };
    let mut session = session_with(limits);
    session.handle_key(key(KeyCode::Char('i')), &Shown);
    assert_eq!(
        session.notice,
        "resource caps disabled; other stop constraints remain active"
    );
    session.handle_key(key(KeyCode::Char('i')), &Shown);
    assert_eq!(session.settings.constraints.simulation_limit, SimulationLimit::new(512));
    assert_eq!(session.settings.constraints.time_limit, Some(Span::from_millis(20)));
    assert_eq!(session.notice, "restored 512 sims + 20 ms");
}

#[test]
fn constraints_end_a_search_on_their_own() {
    let limits = SearchConstraints {
        simulation_limit: SimulationLimit::new(10),
        time_limit: Some(Span::from_millis(5)),
        min_voc: None,
    };
    assert!(!limits.simulation_exhausted(9));
    assert!(limits.simulation_exhausted(10));
    assert!(!limits.time_exhausted(Span { nanos: 4_999_999 }));
    assert!(limits.time_exhausted(Span::from_millis(5)));
    assert!(limits.has_stopping_condition());
    let free = sims(0);
    assert!(!free.has_stopping_condition());
    assert!(free.hard_limits_disabled());
    assert!(!free.simulation_exhausted(u32::MAX));
    assert!(!free.time_exhausted(Span { nanos: u128::MAX }));
    assert_eq!(SimulationLimit::new(0), None);
    assert_eq!(SimulationLimit::new(3).unwrap().get(), 3);
}

#[test]
fn constraints_are_described() {
    assert_eq!(sims(0).describe(&Shown), "no automatic stop");
    assert_eq!(sims(64).describe(&Shown), "64 sims");
    let all = SearchConstraints {
        simulation_limit: SimulationLimit::new(64),
        time_limit: Some(Span { nanos: 12_600_000 }),
        min_voc: Some(num(0.25)),
    };
    assert_eq!(all.describe(&Shown), "64 sims + 13 ms + VOC >= 0.2500");
}

#[test]
fn spans_saturate() {
    let a = Span::from_millis(3);
    let b = Span::from_millis(5);
    assert_eq!(b.saturating_sub(a), Span::from_millis(2));
    assert_eq!(a.saturating_sub(b), Span { nanos: 0 });
    assert_eq!(a.saturating_add(b), Span::from_millis(8));
    assert_eq!(a.max(b), b);
    let longest = std::time::Duration::MAX.as_nanos();
    assert_eq!(Span { nanos: longest }.saturating_add(a), Span { nanos: longest });
}

#[test]
fn missed_frames_are_skipped() {
    let step = Span::from_millis(10);
    assert_eq!(next_due(step, step, Span::from_millis(10)), Span::from_millis(20));
    assert_eq!(next_due(step, step, Span::from_millis(47)), Span::from_millis(50));
    assert_eq!(next_due(step, step, Span::from_millis(50)), Span::from_millis(60));
}

fn live_run(limit: usize) -> SearchRun {
    let board = Board([1, 2, 0, 0, 0, 0, 0, 0, 0, 0, 0, 0, 0, 0, 0, 0]);
    let session = LiveSession::new(true, sims(limit), Span::from_millis(50));
    SearchRun::start(board, sims(1), Some(session)).unwrap()
}

fn settings_of(policy: Policy) -> SearchCfg {
    let plain = RewardTransform { scale: num(1.0), shift: num(0.0) };
    SearchCfg { policy, rollout_cap: 3, reward_transform: plain }
}

#[test]
fn a_live_search_takes_commands() {
    let cfg = settings_of(Policy::Uct);
    let mut rng = SmallRng::seed_from_u64(1);
    let mut run = live_run(64);
    assert_eq!(run.session.as_ref().unwrap().notice, "searching");
    assert_eq!(run.active, sims(64));
    let now = Span { nanos: 0 };
    assert_eq!(run.step(now, &cfg, &Shown, &mut rng), Action::PollKeys);
    let old = run.frame_interval().unwrap();
    assert_eq!(run.handle_key(key(KeyCode::Char(']')), &Shown), LiveCommand::Continue);
    let flow = run.take_command(now, old, Span::from_millis(2), LiveCommand::Continue);
    assert_eq!(flow, Flow::Go);
    assert_eq!(run.next_frame, Some(Span::from_millis(60)));
    assert_eq!(run.next_input, Some(Span::from_millis(5)));
    assert_eq!(run.excluded, Span::from_millis(2));
    // Limits and one simulation, then frames, then keys.
    assert_eq!(run.step(now, &cfg, &Shown, &mut rng), Action::Again);
    assert_eq!(run.sims_done, 1);
    assert_eq!(run.step(now, &cfg, &Shown, &mut rng), Action::Again);
    assert_eq!(run.phase, Phase::Keys);
    assert_eq!(run.step(Span::from_millis(6), &cfg, &Shown, &mut rng), Action::Again);
    assert_eq!(run.step(Span::from_millis(6), &cfg, &Shown, &mut rng), Action::Again);
    assert_eq!(run.sims_done, 2);
    assert_eq!(run.step(Span::from_millis(6), &cfg, &Shown, &mut rng), Action::Again);
    let later = Span::from_millis(7);
    assert_eq!(run.step(later, &cfg, &Shown, &mut rng), Action::PollKeys);
    let same = run.frame_interval().unwrap();
    let flow = run.take_command(later, same, now, LiveCommand::Force(Dir::Left));
    assert_eq!(flow, Flow::Go);
    assert_eq!(run.session.as_ref().unwrap().notice, "ignored: ← is illegal");
    assert_eq!(run.next_input, Some(Span::from_millis(10)));
    assert_eq!(run.step(later, &cfg, &Shown, &mut rng), Action::Again);
    assert_eq!(run.step(later, &cfg, &Shown, &mut rng), Action::Again);
    let late = Span::from_millis(20);
    assert_eq!(run.step(late, &cfg, &Shown, &mut rng), Action::PollKeys);
    let flow = run.take_command(late, same, now, LiveCommand::Force(Dir::Down));
    assert_eq!(flow, Flow::Stop);
    assert_eq!(run.selected, Some(Dir::Down));
    assert_eq!(run.session.as_ref().unwrap().notice, "forcing ↓");
    assert!(run.can_move(Dir::Down) && !run.can_move(Dir::Up));
    assert_eq!(run.step(late, &cfg, &Shown, &mut rng), Action::Finish);
    assert!(run.last_frame_due());
    let snapshot = run.snapshot(&Shown);
    let (outcome, session) = run.finish(snapshot, late, now, late, &cfg, &Shown);
    assert_eq!(outcome.dir, Dir::Down);
    assert_eq!(outcome.simulations, 3);
    assert_eq!(outcome.compute_elapsed, Span::from_millis(18));
    assert_eq!(outcome.wall_elapsed, late);
    assert_eq!(outcome.excluded_overhead, Span::from_millis(2));
    assert!(session.is_some());
}

#[test]
fn quitting_and_acting() {
    let now = Span { nanos: 0 };
    let mut run = live_run(64);
    let same = run.frame_interval().unwrap();
    assert_eq!(run.take_command(now, same, now, LiveCommand::Quit), Flow::Quit);
    let mut run = live_run(64);
    assert_eq!(run.take_command(now, same, now, LiveCommand::ActBest), Flow::Stop);
    assert_eq!(run.selected, None);
    assert_eq!(run.phase, Phase::Ended);
}

#[test]
fn frames_are_drawn_when_they_are_due() {
    let cfg = settings_of(Policy::Uct);
    let mut rng = SmallRng::seed_from_u64(1);
    let mut run = live_run(64);
    let now = Span { nanos: 0 };
    let same = run.frame_interval().unwrap();
    run.take_command(now, same, now, LiveCommand::Continue);
    assert_eq!(run.step(now, &cfg, &Shown, &mut rng), Action::Again);
    let late = Span::from_millis(123);
    assert_eq!(run.step(late, &cfg, &Shown, &mut rng), Action::DrawFrame);
    run.frame_drawn(late, Span::from_millis(4));
    assert_eq!(run.next_frame, Some(Span::from_millis(150)));
    assert_eq!(run.excluded, Span::from_millis(4));
    assert_eq!(run.phase, Phase::Keys);
    assert!(!run.last_frame_due());
}

#[test]
fn time_and_value_end_a_search() {
    let cfg = settings_of(Policy::ExactVoc);
    let mut rng = SmallRng::seed_from_u64(1);
    let mut run = live_run(64);
    run.phase = Phase::Limits;
    run.active.time_limit = Some(Span::from_millis(30));
    run.excluded = Span::from_millis(5);
    assert_eq!(run.step(Span::from_millis(35), &cfg, &Shown, &mut rng), Action::Finish);
    assert!(!run.stopped_by_voc);
    let mut run = live_run(64);
    let now = Span { nanos: 0 };
    run.active = SearchConstraints { min_voc: Some(num(1e9)), ..sims(64) };
    run.phase = Phase::Limits;
    while run.step(now, &cfg, &Shown, &mut rng) == Action::Again {
        run.phase = Phase::Limits;
    }
    assert_eq!(run.sims_done as usize, 3 * run.root.edges.len());
    assert!(run.stopped_by_voc);
    let notice = &run.session.as_ref().unwrap().notice;
    assert!(notice.starts_with("VOC stop: max ") && notice.ends_with(" <= min 1000000000.0000"));
}

#[test]
fn symbols_and_bars() {
    let shown: String = (0u8..=37).map(tile_symbol).collect();
    assert_eq!(shown, ".123456789abcdefghijklmnopqrstuvwxyz??");
    assert_eq!(progress_bar(0), "-".repeat(24));
    assert_eq!(progress_bar(6), format!("{}{}", "=".repeat(6), "-".repeat(18)));
    assert_eq!(progress_bar(24), "=".repeat(24));
}

fn a_snapshot() -> RootSnapshot {
    let action = |dir, samples, share, mean, gap| RootActionSnapshot {
        dir,
        moved: Board([2, 0, 0, 0, 0, 0, 0, 0, 0, 0, 0, 0, 0, 0, 0, 0]),
        samples,
        share: num(share),
        mean: num(mean),
        sd: num(2.25),
        gap_to_best: num(gap),
        voc: num(0.125),
        switch_prob: num(0.3),
    };
    RootSnapshot {
        actions: vec![
            action(Dir::Down, 10, 0.25, 90.0, -10.0),
            action(Dir::Left, 30, 0.75, 100.0, 0.0),
        ],
        total_samples: 40,
        best_dir: Dir::Left,
        top_mean_gap: num(10.0),
        allocation_entropy: num(0.8112781),
    }
}

#[test]
fn a_frame_with_limits() {
    let board = Board([1, 1, 0, 0, 0, 0, 0, 0, 0, 0, 0, 0, 0, 0, 0, 0]);
    let c = SearchConstraints {
        simulation_limit: SimulationLimit::new(80),
        time_limit: Some(Span::from_millis(1000)),
        min_voc: Some(num(0.5)),
    };
    let live = LiveSearch { move_index: 4, score: 16 };
    let frame = render_search_frame(
        board,
        &a_snapshot(),
        Policy::ExactVoc,
        live,
        c,
        "searching",
        Span::from_millis(250),
        &Shown,
    );
    let expected = [
        "exact-voc search | move 5 | score 16 | max 1 | empty 14 | legal 2",
        "think    250.0 ms |      40 sims [============------------]  50% |      160 sims/s",
        "limits sims 80 | time 1000.0 ms | min VOC 0.5000",
        "best     ← | top gap      10.0 | best alloc  75.0% | entropy 0.811 | max VOC 0.1250",
        "status searching",
        "",
        "before:",
        "1 1 . .",
        ". . . .",
        ". . . .",
        ". . . .",
        "",
        "after (current best, before spawn):",
        "2 . . .",
        ". . . .",
        ". . . .",
        ". . . .",
        "",
        "root posterior:",
        " dir |      n | alloc |       mean |       sd |       gap |       VOC | switch",
        "-----+--------+-------+------------+----------+-----------+-----------+-------",
        "   ↑ |      - |      - |    illegal |        - |         - |         - |      -",
        "   ↓ |     10 |  25.0% |       90.0 |      2.2 |     -10.0 |    0.1250 |  30.0%",
        " * ← |     30 |  75.0% |      100.0 |      2.2 |       0.0 |    0.1250 |  30.0%",
        "   → |      - |      - |    illegal |        - |         - |         - |      -",
        "",
        "* posterior-mean best | switch = P(one sample flips this arm vs its competitor)",
        "keys: space/enter act | arrows force | +/- resource cap | i toggle resource caps | [/] refresh | q quit",
        "",
    ];
    assert_eq!(frame.split('\n').collect::<Vec<_>>(), expected);
    let figures = frame_figures(&Shown, &a_snapshot(), c, Span::from_millis(250));
    assert_eq!(
        compose_frame(board, &a_snapshot(), Policy::ExactVoc, live, c, "searching", &figures),
        frame
    );
}

#[test]
fn a_frame_without_limits() {
    let frame = render_search_frame(
        Board::empty(),
        &a_snapshot(),
        Policy::McVoc(8),
        LiveSearch { move_index: 0, score: 0 },
        sims(0),
        "x",
        Span { nanos: 0 },
        &Shown,
    );
    let lines: Vec<&str> = frame.lines().collect();
    assert_eq!(lines[0], "mc-voc-8 search | move 1 | score 0 | max . | empty 16 | legal 2");
    assert_eq!(
        lines[1],
        "think      0.0 ms |      40 sims [   no resource cap    ] |        0 sims/s"
    );
    assert_eq!(lines[2], "limits sims off | time off | min VOC off");
    assert_eq!(lines[4], "status x");
}

#[test]
fn an_overrun_limit_fills_the_bar() {
    let c = SearchConstraints {
        simulation_limit: None,
        time_limit: Some(Span::from_millis(100)),
        min_voc: None,
    };
    let figures = frame_figures(&Shown, &a_snapshot(), c, Span::from_millis(250));
    assert_eq!(figures.bar, Some((24, "100".to_string())));
}

#[test]
fn constraints_compare_as_numbers() {
    let with = |x: f64| SearchConstraints { min_voc: Some(num(x)), ..SearchConstraints::default() };
    assert_eq!(with(0.0), with(-0.0));
    assert_eq!(with(0.5), with(0.5));
    assert!(with(0.5) != with(0.25));
    assert!(with(f64::NAN) != with(f64::NAN));
    assert!(with(0.5) != SearchConstraints::default());
    assert!(sims(4) != sims(5));
    assert!(sims(4) != SearchConstraints::default());
    assert!(!SearchConstraints::default().has_stopping_condition());
    assert_eq!(num(0.0), num(-0.0));
    assert!(num(f64::NAN) != num(f64::NAN));
}

#[test]
fn an_unchanged_frame_interval_is_not_added() {
    let mut run = live_run(8);
    let mut session = run.session.take().unwrap();
    session.settings.frame_interval = Span { nanos: MAX_NANOS };
    run.session = Some(session);
    let now = Span { nanos: 1 };
    let same = run.frame_interval().unwrap();
    let due = run.next_frame;
    assert_eq!(run.take_command(now, same, now, LiveCommand::Continue), Flow::Go);
    assert_eq!(run.next_frame, due);
}
