//! The options, the jobs and the summaries of a benchmark.

use bayes_2048::arith::Arithmetic;
use bayes_2048::double::Double;
use bayes_2048::jobs::{
    all_jobs, note_done, order_seed, pending_jobs, played_before, schedule, DoneGame, Job,
};
use bayes_2048::limits::SimulationLimit;
use bayes_2048::options::{Fault, Options, Plan};
use bayes_2048::policy::{parse_policies, Policy};
use bayes_2048::span::Span;
use bayes_2048::summary::{
    checkpoint_line, is_checkpoint, pace, shorten, sort_texts, Aggregates, Pace,
};
use bayes_2048::text::{chars_of, decimal_text, join, parse_usizes, text_of};
use rand::rngs::SmallRng;
use rand::seq::SliceRandom;
use rand::SeedableRng;
use rand_distr::{Distribution, StudentT};
use statrs::distribution::{Continuous, ContinuousCDF, StudentsT};

struct Printed;

fn bits_of(x: f64) -> Double {
    Double { bits: x.to_bits() }
}

fn value(x: Double) -> f64 {
    f64::from_bits(x.bits)
}

impl Arithmetic for Printed {
    fn plus(&self, a: Double, b: Double) -> Double {
        bits_of(value(a) + value(b))
    }

    fn minus(&self, a: Double, b: Double) -> Double {
        bits_of(value(a) - value(b))
    }

    fn times(&self, a: Double, b: Double) -> Double {
        bits_of(value(a) * value(b))
    }

    fn over(&self, a: Double, b: Double) -> Double {
        bits_of(value(a) / value(b))
    }

    fn root(&self, a: Double) -> Double {
        bits_of(value(a).sqrt())
    }

    fn log(&self, a: Double) -> Double {
        bits_of(value(a).ln())
    }

    fn of_count(&self, n: u64) -> Double {
        bits_of(n as f64)
    }

    fn of_sum(&self, n: u128) -> Double {
        bits_of(n as f64)
    }

    fn of_span(&self, span: Span) -> Double {
        bits_of(span.nanos as f64 / 1e9)
    }

    fn density(&self, freedom: Double, z: Double) -> Double {
        bits_of(StudentsT::new(0.0, 1.0, value(freedom)).unwrap().pdf(value(z)))
    }

    fn lower_tail(&self, freedom: Double, z: Double) -> Double {
        bits_of(StudentsT::new(0.0, 1.0, value(freedom)).unwrap().cdf(value(z)))
    }

    fn upper_tail(&self, freedom: Double, z: Double) -> Double {
        bits_of(StudentsT::new(0.0, 1.0, value(freedom)).unwrap().sf(value(z)))
    }

    fn draw(&self, freedom: Double, rng: SmallRng) -> (Double, SmallRng) {
        let mut rng = rng;
        let t = StudentT::new(value(freedom)).unwrap().sample(&mut rng);
        (bits_of(t), rng)
    }

    fn to_span(&self, seconds: Double) -> Span {
        Span { nanos: std::time::Duration::from_secs_f64(value(seconds)).as_nanos() }
    }

    fn to_count(&self, a: Double) -> usize {
        value(a).round() as usize
    }

    fn fixed(&self, a: Double, digits: usize) -> String {
        format!("{:.*}", digits, value(a))
    }
}

fn benchmark() -> Options {
    Options {
        play: false,
        trace: false,
        budgets: None,
        policies: "uct,thompson".to_string(),
        reward_scale: bits_of(1.0),
        reward_shift: bits_of(0.0),
        simulation_limit: None,
        time_ms: None,
        voc_cost: None,
        frame_ms: bits_of(50.0),
    }
}

fn traced() -> Options {
    Options {
        trace: true,
        policies: "exact-voc".to_string(),
        simulation_limit: SimulationLimit::new(64),
        ..benchmark()
    }
}

fn planning_fault(o: &Options) -> (Fault, String) {
    let reading = o.read().unwrap();
    let e = o.plan(&reading.policies, &Printed).unwrap_err();
    (e.fault, e.message)
}

fn done(seed: u64, policy: &str, budget: usize) -> DoneGame {
    DoneGame { seed, policy: policy.to_string(), budget }
}

#[test]
fn policies_read_and_write() {
    for (name, policy) in [
        ("uct", Policy::Uct),
        ("thompson", Policy::Thompson),
        ("exact-voc", Policy::ExactVoc),
        ("mc-voc-32", Policy::McVoc(32)),
    ] {
        assert_eq!(Policy::parse(name), Ok(policy));
        assert_eq!(policy.name(), name);
    }
    assert_eq!(Policy::McVoc(7).mc_samples(), 7);
    assert_eq!(Policy::Uct.mc_samples(), 0);
    assert_eq!(
        Policy::parse("greedy").unwrap_err(),
        "unknown policy greedy; use uct, thompson, exact-voc, mc-voc-N"
    );
    assert_eq!(Policy::parse("mc-voc-x").unwrap_err(), "bad MC sample count in mc-voc-x");
    assert_eq!(Policy::parse("mc-voc-").unwrap_err(), "bad MC sample count in mc-voc-");
    assert_eq!(
        Policy::parse("mc-voc-0").unwrap_err(),
        "MC sample count must be positive in mc-voc-0"
    );
    assert_eq!(Policy::parse("mc-voc-+4"), Ok(Policy::McVoc(4)));
}

#[test]
fn lists_of_policies() {
    assert_eq!(
        parse_policies(" uct , mc-voc-8").unwrap(),
        [Policy::Uct, Policy::McVoc(8)]
    );
    assert_eq!(
        parse_policies("uct,,thompson").unwrap_err(),
        "unknown policy ; use uct, thompson, exact-voc, mc-voc-N"
    );
}

#[test]
fn lists_of_numbers() {
    assert_eq!(parse_usizes("8, 16,\t32").unwrap(), [8, 16, 32]);
    assert_eq!(parse_usizes("+7").unwrap(), [7]);
    assert_eq!(parse_usizes("18446744073709551615").unwrap(), [usize::MAX]);
    assert_eq!(parse_usizes("8, x ,y").unwrap_err(), "bad integer:  x ");
    assert_eq!(parse_usizes("").unwrap_err(), "bad integer: ");
    assert_eq!(parse_usizes("-1").unwrap_err(), "bad integer: -1");
    assert_eq!(parse_usizes("+").unwrap_err(), "bad integer: +");
    assert_eq!(
        parse_usizes("18446744073709551616").unwrap_err(),
        "bad integer: 18446744073709551616"
    );
}

#[test]
fn numbers_in_decimal() {
    for n in [0u64, 7, 10, 99, 100, 131_072, u64::MAX] {
        assert_eq!(decimal_text(n), n.to_string());
    }
    assert_eq!(join(&vec!["a".to_string(), "b".to_string()], " + "), "a + b");
    assert_eq!(join(&vec![], " + "), "");
    assert_eq!(text_of(&chars_of("↑ x")), "↑ x");
}

#[test]
fn a_benchmark_is_read() {
    let reading = benchmark().read().unwrap();
    assert_eq!(reading.budgets, [8, 16, 32, 64, 128]);
    assert_eq!(reading.policies, [Policy::Uct, Policy::Thompson]);
    let plan = benchmark().plan(&reading.policies, &Printed).unwrap();
    assert!(matches!(plan, Plan::Benchmark));
    let chosen = Options { budgets: Some("4,2".to_string()), ..benchmark() };
    assert_eq!(chosen.read().unwrap().budgets, [4, 2]);
    assert!(traced().read().unwrap().budgets.is_empty());
}

#[test]
fn faults_in_what_is_read() {
    let o = Options { budgets: Some("4,q".to_string()), ..benchmark() };
    let e = o.read().unwrap_err();
    assert_eq!((e.fault, e.message.as_str()), (Fault::Budget, "bad integer: q"));
    let o = Options { policies: "mc-voc-0".to_string(), ..benchmark() };
    let e = o.read().unwrap_err();
    assert_eq!(
        (e.fault, e.message.as_str()),
        (Fault::Policy, "MC sample count must be positive in mc-voc-0")
    );
    for bad in [0.0, -1.0, f64::NAN, f64::INFINITY] {
        let o = Options { reward_scale: bits_of(bad), ..benchmark() };
        let e = o.read().unwrap_err();
        assert_eq!(
            (e.fault, e.message.as_str()),
            (Fault::RewardScale, "--reward-scale must be finite and positive")
        );
    }
    let o = Options { reward_shift: bits_of(f64::NAN), ..benchmark() };
    let e = o.read().unwrap_err();
    assert_eq!(
        (e.fault, e.message.as_str()),
        (Fault::RewardShift, "--reward-shift must be finite")
    );
}

#[test]
fn faults_of_a_benchmark() {
    let o = Options { simulation_limit: SimulationLimit::new(3), ..benchmark() };
    assert_eq!(
        planning_fault(&o),
        (
            Fault::LimitNeedsGame,
            "--simulation-limit requires --play or --trace-json".to_string()
        )
    );
    let o = Options { time_ms: Some(bits_of(3.0)), ..benchmark() };
    assert_eq!(
        planning_fault(&o),
        (Fault::TimeNeedsGame, "--time-ms requires --play or --trace-json".to_string())
    );
    for bad in [-1.0, f64::NAN, f64::INFINITY] {
        let o = Options { voc_cost: Some(bits_of(bad)), ..benchmark() };
        assert_eq!(
            planning_fault(&o),
            (Fault::VocCost, "--voc-cost must be finite and nonnegative".to_string())
        );
    }
    let o = Options { voc_cost: Some(bits_of(1.0)), ..benchmark() };
    assert_eq!(
        planning_fault(&o),
        (
            Fault::VocNeedsGame,
            "--voc-cost currently requires --play or --trace-json".to_string()
        )
    );
}

#[test]
fn faults_of_a_single_game() {
    let o = Options {
        voc_cost: Some(bits_of(1.0)),
        policies: "uct".to_string(),
        ..traced()
    };
    assert_eq!(
        planning_fault(&o),
        (
            Fault::VocNeedsExact,
            "--voc-cost currently requires --policies exact-voc".to_string()
        )
    );
    let o = Options { policies: "uct,uct".to_string(), ..traced() };
    assert_eq!(
        planning_fault(&o),
        (
            Fault::OnePolicy,
            "--play/--trace-json requires exactly one --policies entry".to_string()
        )
    );
    let o = Options { frame_ms: bits_of(0.0), ..traced() };
    assert_eq!(
        planning_fault(&o),
        (Fault::FrameMs, "--frame-ms must be finite and positive".to_string())
    );
    let o = Options { budgets: Some("8".to_string()), ..traced() };
    assert_eq!(
        planning_fault(&o),
        (
            Fault::TwoLimits,
            "use either --simulation-limit or --budgets in single-game mode, not both".to_string()
        )
    );
    let o = Options { budgets: Some("b".to_string()), simulation_limit: None, ..traced() };
    assert_eq!(planning_fault(&o), (Fault::Budget, "bad integer: b".to_string()));
    let o = Options { budgets: Some("8,9".to_string()), simulation_limit: None, ..traced() };
    assert_eq!(
        planning_fault(&o),
        (
            Fault::OneBudget,
            "single-game --budgets accepts exactly one value; prefer --simulation-limit"
                .to_string()
        )
    );
    let o = Options { budgets: Some("0".to_string()), simulation_limit: None, ..traced() };
    assert_eq!(
        planning_fault(&o),
        (Fault::ZeroLimit, "simulation limit must be positive".to_string())
    );
    let o = Options { time_ms: Some(bits_of(0.0)), ..traced() };
    assert_eq!(
        planning_fault(&o),
        (Fault::TimeMs, "--time-ms must be finite and positive".to_string())
    );
    let o = Options { simulation_limit: None, ..traced() };
    assert_eq!(
        planning_fault(&o),
        (
            Fault::NoStop,
            "non-interactive trace search needs at least one stopping constraint".to_string()
        )
    );
    for zero in [0.0, -0.0] {
        let o = Options { simulation_limit: None, voc_cost: Some(bits_of(zero)), ..traced() };
        assert_eq!(
            planning_fault(&o),
            (
                Fault::EndlessVoc,
                "--voc-cost 0 without a resource limit may not terminate".to_string()
            )
        );
    }
}

#[test]
fn plans_of_a_single_game() {
    let o = Options {
        time_ms: Some(bits_of(2.5)),
        voc_cost: Some(bits_of(0.0)),
        ..traced()
    };
    let policies = o.read().unwrap().policies;
    let Plan::Single { policy, constraints, frame_interval } = o.plan(&policies, &Printed).unwrap()
    else {
        panic!("one game was asked for");
    };
    assert_eq!(policy, Policy::ExactVoc);
    assert_eq!(constraints.simulation_limit, SimulationLimit::new(64));
    assert_eq!(constraints.time_limit, Some(Span { nanos: 2_500_000 }));
    assert_eq!(constraints.min_voc, Some(bits_of(0.0)));
    assert_eq!(frame_interval, None);
    let o = Options {
        play: true,
        trace: false,
        budgets: Some(" 12 ".to_string()),
        simulation_limit: None,
        ..traced()
    };
    let Plan::Single { constraints, frame_interval, .. } = o.plan(&policies, &Printed).unwrap()
    else {
        panic!("one game was asked for");
    };
    assert_eq!(constraints.simulation_limit, SimulationLimit::new(12));
    assert_eq!(frame_interval, Some(Span { nanos: 50_000_000 }));
    // Someone who watches can stop a search without limits.
    let o = Options { play: true, simulation_limit: None, ..traced() };
    assert!(o.plan(&policies, &Printed).is_ok());
}

#[test]
fn jobs_go_by_budget_policy_and_seed() {
    let jobs = all_jobs(&vec![8, 16], &vec![Policy::Uct, Policy::ExactVoc], u64::MAX, 2);
    let expected: Vec<Job> = [8, 16]
        .into_iter()
        .flat_map(|budget| {
            [Policy::Uct, Policy::ExactVoc].into_iter().flat_map(move |policy| {
                [u64::MAX, 0].into_iter().map(move |seed| Job { seed, policy, budget })
            })
        })
        .collect();
    assert_eq!(jobs, expected);
    assert!(all_jobs(&vec![], &vec![Policy::Uct], 1, 3).is_empty());
}

#[test]
fn played_games_are_left_out() {
    let jobs = all_jobs(&vec![8], &vec![Policy::Uct, Policy::McVoc(4)], 1, 3);
    let played = vec![done(2, "uct", 8), done(1, "mc-voc-4", 8), done(1, "uct", 16)];
    let left = pending_jobs(&jobs, &played);
    let kept: Vec<Job> = jobs
        .iter()
        .copied()
        .filter(|j| {
            !((j.seed == 2 && j.policy == Policy::Uct)
                || (j.seed == 1 && j.policy == Policy::McVoc(4)))
        })
        .collect();
    assert_eq!(left, kept);
    assert!(played_before(&played, Job { seed: 2, policy: Policy::Uct, budget: 8 }));
    assert!(!played_before(&played, Job { seed: 2, policy: Policy::Uct, budget: 16 }));
}

#[test]
fn schedules_hold_what_is_missing_in_another_order() {
    let budgets = vec![8, 16, 32];
    let policies = vec![Policy::Uct, Policy::Thompson];
    let plan = schedule(&budgets, &policies, 5, 10, &vec![done(6, "uct", 16)]);
    assert_eq!((plan.total, plan.already_done, plan.jobs.len()), (60, 1, 59));
    let in_order = pending_jobs(
        &all_jobs(&budgets, &policies, 5, 10),
        &vec![done(6, "uct", 16)],
    );
    assert!(plan.jobs != in_order);
    for job in &in_order {
        assert_eq!(plan.jobs.iter().filter(|j| *j == job).count(), 1);
    }
    let again = schedule(&budgets, &policies, 5, 10, &vec![done(6, "uct", 16)]);
    assert_eq!(again.jobs, plan.jobs);
    assert_eq!(order_seed(5), 5 ^ 0xA076_1D64_78BD_642F);
    let finished: Vec<DoneGame> = all_jobs(&budgets, &policies, 5, 10)
        .iter()
        .map(|j| done(j.seed, &j.policy.name(), j.budget))
        .collect();
    assert!(schedule(&budgets, &policies, 5, 10, &finished).jobs.is_empty());
}

#[test]
fn games_are_noted_once() {
    let mut list = vec![];
    note_done(&mut list, done(1, "uct", 8));
    note_done(&mut list, done(1, "uct", 8));
    note_done(&mut list, done(1, "uct", 16));
    note_done(&mut list, done(2, "uct", 8));
    note_done(&mut list, done(1, "thompson", 8));
    assert_eq!(list.len(), 4);
}

#[test]
fn totals_by_budget_and_policy() {
    let mut a = Aggregates::new();
    assert_eq!(a.summary(&Printed), "");
    a.record(16, "uct", 1000, 128);
    a.record(8, "thompson", 500, 64);
    a.record(16, "uct", 2001, 256);
    a.record(8, "uct", u64::MAX, 4);
    assert_eq!(a.entries.len(), 3);
    assert_eq!(
        (a.entries[0].count, a.entries[0].score_sum, a.entries[0].tile_sum),
        (2, 3001, 384)
    );
    a.entries[2].score_sum = 7;
    assert_eq!(a.summary(&Printed), "thompson@8: 500 | uct@16: 1500 | uct@8: 7");
}

#[test]
fn long_summaries_are_cut() {
    let exact = "x".repeat(260);
    assert_eq!(shorten(&exact), exact);
    let long = "y".repeat(261);
    assert_eq!(shorten(&long), format!("{}...", "y".repeat(257)));
    let mut a = Aggregates::new();
    for budget in 0..40 {
        a.record(budget, "thompson", 1, 2);
    }
    let summary = a.summary(&Printed);
    assert_eq!(summary.len(), 260);
    assert!(summary.ends_with("..."));
}

#[test]
fn texts_are_sorted_as_strings() {
    let words = ["b", "", "ab", "a", "ab", "Z", "é", "mc-voc-8@16: 3", "mc-voc-8@8: 3"];
    let sorted: Vec<String> = sort_texts(words.iter().map(|w| chars_of(w)).collect())
        .iter()
        .map(|cs| text_of(cs))
        .collect();
    let mut expected: Vec<String> = words.iter().map(|w| w.to_string()).collect();
    expected.sort();
    assert_eq!(sorted, expected);
}

#[test]
fn checkpoints_come_every_so_often_and_at_the_end() {
    assert!(is_checkpoint(50, 50, 120));
    assert!(!is_checkpoint(51, 50, 120));
    assert!(is_checkpoint(120, 50, 120));
    assert!(is_checkpoint(3, 0, 120));
}

#[test]
fn the_pace_of_a_run() {
    let p = pace(&Printed, 30, 10, 90, Span { nanos: 120_000_000_000 });
    assert_eq!(value(p.rate), 20.0 / 120.0);
    assert_eq!(value(p.elapsed_minutes), 2.0);
    assert!((value(p.left_minutes) - 6.0).abs() < 1e-9);
    assert_eq!(
        checkpoint_line(&Printed, 30, 90, p, "uct@8: 7"),
        "checkpoint 30/90 (33.3%) | elapsed 2.0m | ETA 6.0m | 0.17 games/s | uct@8: 7"
    );
    let still = pace(&Printed, 10, 10, 90, Span { nanos: 0 });
    assert_eq!(value(still.rate), 0.0);
    assert_eq!(value(still.left_minutes), f64::INFINITY);
    let past = Pace { ..pace(&Printed, 5, 10, 3, Span { nanos: 1 }) };
    assert_eq!(value(past.rate), 0.0);
}

#[test]
fn the_order_is_a_shuffle_from_its_own_seed() {
    let budgets = vec![8, 16];
    let policies = vec![Policy::Uct, Policy::ExactVoc];
    let plan = schedule(&budgets, &policies, 11, 6, &Vec::new());
    let mut jobs = all_jobs(&budgets, &policies, 11, 6);
    let mut rng = SmallRng::seed_from_u64(order_seed(11));
    jobs.shuffle(&mut rng);
    assert_eq!(plan.jobs, jobs);
}
