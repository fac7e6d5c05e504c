//! The games of a benchmark: which there are, which have been played before, and in what
//! order the rest is played.

use crate::policy::Policy;
use crate::random::{draw_order, draws_order, generator, is_seeded};
use crate::text::{chars_of, spells};
use rand::rngs::SmallRng;
use vstd::prelude::*;

verus! {

/// What tells the seed of the order of the games from that of the games.
pub const ORDER_SALT: u64 = 0xA076_1D64_78BD_642F;

/// One game to be played.
#[derive(Clone, Copy, Debug, PartialEq, Eq, Structural)]
pub struct Job {
    pub seed: u64,
    pub policy: Policy,
    pub budget: usize,
}

/// A game that was played before, as it was written down.
#[derive(Debug)]
pub struct DoneGame {
    pub seed: u64,
    pub policy: String,
    pub budget: usize,
}

/// The games that are still to be played.
#[derive(Debug)]
pub struct Schedule {
    pub jobs: Vec<Job>,
    pub total: usize,
    pub already_done: usize,
}

/// The seed of game number `g`.
pub open spec fn game_seed(base: u64, g: int) -> u64 {
    base.wrapping_add(g as u64)
}

/// The games of a policy with a budget, one for each seed.
pub open spec fn policy_jobs(budget: usize, policy: Policy, base: u64, games: nat) -> Seq<Job> {
    Seq::new(games, |g: int| Job { seed: game_seed(base, g), policy, budget })
}

/// The games of the policies with a budget, policy by policy.
pub open spec fn budget_jobs(budget: usize, policies: Seq<Policy>, base: u64, games: nat) -> Seq<Job>
    decreases policies.len(),
{
    if policies.len() == 0 {
        seq![]
    } else {
        budget_jobs(budget, policies.drop_last(), base, games) + policy_jobs(
            budget,
            policies.last(),
            base,
            games,
        )
    }
}

/// All games, budget by budget.
pub open spec fn benchmark_jobs(budgets: Seq<usize>, policies: Seq<Policy>, base: u64, games: nat) -> Seq<Job>
    decreases budgets.len(),
{
    if budgets.len() == 0 {
        seq![]
    } else {
        benchmark_jobs(budgets.drop_last(), policies, base, games) + budget_jobs(
            budgets.last(),
            policies,
            base,
            games,
        )
    }
}

/// The game is among those that were played before.
pub open spec fn was_played(done: Seq<DoneGame>, job: Job) -> bool {
    exists|i: int|
        {
            &&& 0 <= i < done.len()
            &&& (#[trigger] done[i]).seed == job.seed
            &&& done[i].policy@ == job.policy.title()
            &&& done[i].budget == job.budget
        }
}

/// The games that were not played before, in order.
pub open spec fn unplayed(jobs: Seq<Job>, done: Seq<DoneGame>) -> Seq<Job> {
    jobs.filter(|job: Job| !was_played(done, job))
}

/// All games, budget by budget, policy by policy and seed by seed.
pub fn all_jobs(budgets: &Vec<usize>, policies: &Vec<Policy>, base: u64, games: usize) -> (r: Vec<Job>)
    ensures
        r@ == benchmark_jobs(budgets@, policies@, base, games as nat),
{
    let mut out: Vec<Job> = Vec::new();
    assert(budgets@.take(0) =~= Seq::<usize>::empty());
    for b in 0..budgets.len()
        invariant
            out@ == benchmark_jobs(budgets@.take(b as int), policies@, base, games as nat),
    {
        let budget = budgets[b];
        let ghost before = out@;
        assert(policies@.take(0) =~= Seq::<Policy>::empty());
        assert(out@ =~= before + budget_jobs(budget, policies@.take(0), base, games as nat));
        for p in 0..policies.len()
            invariant
                out@ == before + budget_jobs(budget, policies@.take(p as int), base, games as nat),
        {
            let policy = policies[p];
            let ghost middle = out@;
            assert(out@ =~= middle + policy_jobs(budget, policy, base, 0));
            for g in 0..games
                invariant
                    out@ == middle + policy_jobs(budget, policy, base, g as nat),
            {
                out.push(Job { seed: base.wrapping_add(g as u64), policy, budget });
                assert(out@ =~= middle + policy_jobs(budget, policy, base, (g + 1) as nat));
            }
            assert(policies@.take(p + 1).drop_last() =~= policies@.take(p as int));
            assert(out@ =~= before + budget_jobs(
                budget,
                policies@.take(p + 1),
                base,
                games as nat,
            ));
        }
        assert(policies@.take(policies@.len() as int) =~= policies@);
        assert(budgets@.take(b + 1).drop_last() =~= budgets@.take(b as int));
    }
    assert(budgets@.take(budgets@.len() as int) =~= budgets@);
    out
}

/// Whether a game was played before.
pub fn played_before(done: &Vec<DoneGame>, job: Job) -> (r: bool)
    ensures
        r == was_played(done@, job),
{
    let name = chars_of(job.policy.name().as_str());
    for i in 0..done.len()
        invariant
            name@ == job.policy.title(),
            forall|j: int|
                0 <= j < i ==> !((#[trigger] done@[j]).seed == job.seed && done@[j].policy@
                    == job.policy.title() && done@[j].budget == job.budget),
    {
        let d = &done[i];
        if d.seed == job.seed && d.budget == job.budget && spells(&name, d.policy.as_str()) {
            assert(done@[i as int].seed == job.seed);
            return true;
        }
    }
    false
}

/// The games that were not played before, in order.
pub fn pending_jobs(jobs: &Vec<Job>, done: &Vec<DoneGame>) -> (r: Vec<Job>)
    ensures
        r@ == unplayed(jobs@, done@),
{
    let mut out: Vec<Job> = Vec::new();
    let ghost keep = |job: Job| !was_played(done@, job);
    reveal(Seq::filter);
    for i in 0..jobs.len()
        invariant
            keep == (|job: Job| !was_played(done@, job)),
            out@ == jobs@.take(i as int).filter(keep),
    {
        reveal(Seq::filter);
        assert(jobs@.take(i + 1).drop_last() =~= jobs@.take(i as int));
        assert(jobs@.take(i + 1).last() == jobs@[i as int]);
        if !played_before(done, jobs[i]) {
            out.push(jobs[i]);
        }
    }
    assert(jobs@.take(jobs@.len() as int) =~= jobs@);
    out
}

/// The seed of the order in which the games are played.
#[verifier::allow_in_spec]
pub fn order_seed(seed: u64) -> (r: u64)
    returns
        seed ^ ORDER_SALT,
{
    seed ^ ORDER_SALT
}

/// The games that are still to be played, shuffled so that cheap and costly ones mix.
pub fn schedule(
    budgets: &Vec<usize>,
    policies: &Vec<Policy>,
    base: u64,
    games: usize,
    done: &Vec<DoneGame>,
) -> (r: Schedule)
    ensures
        r.total == policies@.len() * budgets@.len() * games,
        r.already_done == r.total - r.jobs@.len(),
        r.jobs@.to_multiset() == unplayed(
            benchmark_jobs(budgets@, policies@, base, games as nat),
            done@,
        ).to_multiset(),
        exists|start: SmallRng, end: SmallRng|
            is_seeded(order_seed(base), start) && #[trigger] draws_order(
                start,
                unplayed(benchmark_jobs(budgets@, policies@, base, games as nat), done@),
                r.jobs@,
                end,
            ),
{
    let all = all_jobs(budgets, policies, base, games);
    let pending = pending_jobs(&all, done);
    let ghost in_order = pending@;
    let mut rng = generator(order_seed(base));
    let ghost start = rng;
    let jobs = draw_order(pending, &mut rng);
    proof {
        broadcast use vstd::seq_lib::group_to_multiset_ensures;
        broadcast use vstd::seq_lib::group_filter_ensures;

        lemma_count(budgets@, policies@, base, games as nat);
        assert(jobs@.len() == jobs@.to_multiset().len());
        assert(in_order.len() == in_order.to_multiset().len());
        assert(in_order == unplayed(
            benchmark_jobs(budgets@, policies@, base, games as nat),
            done@,
        ));
        assert(draws_order(start, in_order, jobs@, rng));
        assert(is_seeded(order_seed(base), start));
    }
    let total = all.len();
    let already_done = total - jobs.len();
    Schedule { jobs, total, already_done }
}

/// Adds a game to those that were played before, once.
pub fn note_done(done: &mut Vec<DoneGame>, game: DoneGame)
    requires
        all_different(old(done)@),
    ensures
        all_different(final(done)@),
        final(done)@ == (if is_noted(old(done)@, game) {
            old(done)@
        } else {
            old(done)@.push(game)
        }),
{
    let name = chars_of(game.policy.as_str());
    for i in 0..done.len()
        invariant
            done@ == old(done)@,
            all_different(done@),
            name@ == game.policy@,
            forall|j: int| 0 <= j < i ==> !same_game(#[trigger] done@[j], game),
    {
        if done[i].seed == game.seed && done[i].budget == game.budget && spells(
            &name,
            done[i].policy.as_str(),
        ) {
            assert(same_game(done@[i as int], game));
            return;
        }
    }
    done.push(game);
}

/// The records are of the same game.
pub open spec fn same_game(a: DoneGame, b: DoneGame) -> bool {
    a.seed == b.seed && a.policy@ == b.policy@ && a.budget == b.budget
}

/// The game is among the records.
pub open spec fn is_noted(done: Seq<DoneGame>, game: DoneGame) -> bool {
    exists|i: int| 0 <= i < done.len() && same_game(#[trigger] done[i], game)
}

/// No two records are of the same game.
pub open spec fn all_different(done: Seq<DoneGame>) -> bool {
    forall|i: int, j: int|
        0 <= i < j < done.len() ==> !same_game(#[trigger] done[i], #[trigger] done[j])
}

proof fn lemma_budget_count(budget: usize, policies: Seq<Policy>, base: u64, games: nat)
    ensures
        budget_jobs(budget, policies, base, games).len() == policies.len() * games,
    decreases policies.len(),
{
    if policies.len() > 0 {
        lemma_budget_count(budget, policies.drop_last(), base, games);
        assert(policies.len() * games == (policies.len() - 1) * games + games) by (nonlinear_arith)
            requires
                policies.len() > 0,
        ;
    }
}

proof fn lemma_count(budgets: Seq<usize>, policies: Seq<Policy>, base: u64, games: nat)
    ensures
        benchmark_jobs(budgets, policies, base, games).len() == policies.len() * budgets.len() * games,
    decreases budgets.len(),
{
    let p = policies.len() as int;
    let b = budgets.len() as int;
    if b > 0 {
        lemma_count(budgets.drop_last(), policies, base, games);
        lemma_budget_count(budgets.last(), policies, base, games);
        assert(p * b * games == p * (b - 1) * games + p * games) by (nonlinear_arith);
    } else {
        assert(p * b * games == 0) by (nonlinear_arith)
            requires
                b == 0,
        ;
    }
}

proof fn lemma_in_budget(budget: usize, policies: Seq<Policy>, base: u64, games: nat, p: int, g: int)
    requires
        0 <= p < policies.len(),
        0 <= g < games,
    ensures
        budget_jobs(budget, policies, base, games).contains(
            Job { seed: game_seed(base, g), policy: policies[p], budget },
        ),
    decreases policies.len(),
{
    let front = budget_jobs(budget, policies.drop_last(), base, games);
    let back = policy_jobs(budget, policies.last(), base, games);
    let job = Job { seed: game_seed(base, g), policy: policies[p], budget };
    if p == policies.len() - 1 {
        assert(back[g] == job);
        assert((front + back)[front.len() + g] == job);
    } else {
        lemma_in_budget(budget, policies.drop_last(), base, games, p, g);
        let i = choose|i: int| 0 <= i < front.len() && front[i] == job;
        assert((front + back)[i] == job);
    }
}

/// Every policy meets every budget on every seed.
pub proof fn law_every_combination_is_played(
    budgets: Seq<usize>,
    policies: Seq<Policy>,
    base: u64,
    games: nat,
    b: int,
    p: int,
    g: int,
)
    requires
        0 <= b < budgets.len(),
        0 <= p < policies.len(),
        0 <= g < games,
    ensures
        benchmark_jobs(budgets, policies, base, games).contains(
            Job { seed: game_seed(base, g), policy: policies[p], budget: budgets[b] },
        ),
    decreases budgets.len(),
{
    let front = benchmark_jobs(budgets.drop_last(), policies, base, games);
    let back = budget_jobs(budgets.last(), policies, base, games);
    let job = Job { seed: game_seed(base, g), policy: policies[p], budget: budgets[b] };
    if b == budgets.len() - 1 {
        lemma_in_budget(budgets.last(), policies, base, games, p, g);
        let i = choose|i: int| 0 <= i < back.len() && back[i] == job;
        assert((front + back)[front.len() + i] == job);
    } else {
        law_every_combination_is_played(budgets.drop_last(), policies, base, games, b, p, g);
        let i = choose|i: int| 0 <= i < front.len() && front[i] == job;
        assert((front + back)[i] == job);
    }
}

/// A benchmark that is taken up again plays the games that are missing, and no other.
pub proof fn law_resume_plays_what_is_missing(jobs: Seq<Job>, done: Seq<DoneGame>, job: Job)
    requires
        jobs.contains(job),
    ensures
        unplayed(jobs, done).contains(job) <==> !was_played(done, job),
{
    let keep = |j: Job| !was_played(done, j);
    broadcast use vstd::seq_lib::group_filter_ensures;

    let i = choose|i: int| 0 <= i < jobs.len() && jobs[i] == job;
    assert(keep(jobs[i]) ==> jobs.filter(keep).contains(jobs[i]));
    if unplayed(jobs, done).contains(job) {
        let n = choose|n: int| 0 <= n < unplayed(jobs, done).len() && unplayed(jobs, done)[n] == job;
        assert(keep(jobs.filter(keep)[n]));
    }
}

/// Where everything was played, nothing is left.
pub proof fn law_finished_benchmarks_have_no_jobs(jobs: Seq<Job>, done: Seq<DoneGame>)
    requires
        forall|i: int| 0 <= i < jobs.len() ==> was_played(done, #[trigger] jobs[i]),
    ensures
        unplayed(jobs, done).len() == 0,
    decreases jobs.len(),
{
    reveal(Seq::filter);
    if jobs.len() > 0 {
        let front = jobs.drop_last();
        assert forall|i: int| 0 <= i < front.len() implies was_played(done, #[trigger] front[i]) by {
            assert(front[i] == jobs[i]);
        }
        law_finished_benchmarks_have_no_jobs(front, done);
        assert(was_played(done, jobs[jobs.len() - 1]));
    }
}

} // verus!
