//! Which options make a plan and which do not, and what the plan is then.

use crate::arith::{evaluates, num, Arithmetic};
use crate::double::Double;
use crate::exact::{lemma_quotient, Exact};
use crate::figures::span_of_millis;
use crate::options::{Fault, OptionError, Options, Plan, Reading};
use crate::policy::{policy_named, Policy};
use crate::span::Span;
use crate::text::{lists_numbers, number_in, pieces, trimmed};
use crate::units::exact_at;
use vstd::prelude::*;

verus! {

/// The options ask for one game: to be shown, or to be recorded.
pub open spec fn for_one_game(o: Options) -> bool {
    o.play || o.trace
}

/// A number above zero that is finite.
pub open spec fn usable(x: Double) -> bool {
    x.finite() && Double::zero().below(x)
}

/// A cost is a finite number that is not negative, and goes with the exact value alone.
pub open spec fn good_cost(o: Options, policies: Seq<Policy>) -> bool {
    o.voc_cost matches Some(c) ==> c.finite() && !c.below(Double::zero()) && policies.len() == 1
        && policies[0] == Policy::ExactVoc
}

/// A budget of a game is one number that is not zero, and takes the place of a limit.
pub open spec fn good_budget(o: Options) -> bool {
    o.budgets matches Some(s) ==> {
        &&& o.simulation_limit is None
        &&& pieces(s@).len() == 1
        &&& number_in(trimmed(pieces(s@)[0])) is Some
        &&& number_in(trimmed(pieces(s@)[0])) != Some(0usize)
    }
}

/// A game that nobody watches has something that ends it.
pub open spec fn can_end(o: Options) -> bool {
    ||| o.play
    ||| o.simulation_limit is Some
    ||| o.budgets is Some
    ||| o.time_ms is Some
    ||| o.voc_cost matches Some(c) && !c.equals(Double::zero())
}

/// The options go together.
pub open spec fn go_together(o: Options, policies: Seq<Policy>) -> bool {
    if for_one_game(o) {
        &&& policies.len() == 1
        &&& usable(o.frame_ms)
        &&& good_cost(o, policies)
        &&& good_budget(o)
        &&& o.time_ms matches Some(ms) ==> usable(ms)
        &&& can_end(o)
    } else {
        o.simulation_limit is None && o.time_ms is None && o.voc_cost is None
    }
}

/// There is a plan exactly where the options go together. It is a benchmark where no single game is
/// asked for, and else a game with the one policy, under the limits that were given and no others,
/// with frames where it is played before the eyes.
pub proof fn law_plans_follow_the_options<K: Arithmetic>(
    o: Options,
    policies: Vec<Policy>,
    k: &K,
    r: Result<Plan, OptionError>,
)
    requires
        call_ensures(Options::plan::<K>, (&o, &policies, k), r),
    ensures
        r is Ok <==> go_together(o, policies@),
        r matches Ok(Plan::Benchmark) ==> !for_one_game(o),
        r matches Ok(Plan::Single { policy, constraints, frame_interval }) ==> {
            &&& for_one_game(o)
            &&& policy == policies@[0]
            &&& constraints.min_voc == o.voc_cost
            &&& constraints.time_limit is Some <==> o.time_ms is Some
            &&& frame_interval is Some <==> o.play
            &&& o.simulation_limit is Some ==> constraints.simulation_limit == o.simulation_limit
            &&& o.simulation_limit is None ==> (o.budgets matches Some(s) ==> (
            constraints.simulation_limit matches Some(l) && number_in(trimmed(pieces(s@)[0])) == Some(
                l.size(),
            )))
            &&& o.simulation_limit is None && o.budgets is None ==> constraints.simulation_limit is None
        },
{
    if let Some(s) = o.budgets {
        if pieces(s@).len() == 1 {
            let piece = pieces(s@)[0];
            assert(lists_numbers(s@) <==> number_in(trimmed(piece)) is Some) by {
                if number_in(trimmed(piece)) is Some {
                    assert forall|i: int| 0 <= i < pieces(s@).len() implies number_in(
                        trimmed(#[trigger] pieces(s@)[i]),
                    ) is Some by {}
                }
            }
        }
    }
}

/// A scale must be positive and finite and a shift finite, or the options are not read.
pub proof fn law_transforms_are_usable(o: Options, r: Result<Reading, OptionError>)
    requires
        call_ensures(Options::read, (&o,), r),
    ensures
        r is Ok ==> usable(o.reward_scale) && o.reward_shift.finite(),
        r matches Err(e) ==> (e.fault == Fault::RewardScale ==> !usable(o.reward_scale)) && (e.fault
            == Fault::RewardShift ==> !o.reward_shift.finite()),
        r matches Ok(reading) ==> reading.policies@.len() == pieces(o.policies@).len() && forall|i: int|
            0 <= i < reading.policies@.len() ==> policy_named(
                trimmed(#[trigger] pieces(o.policies@)[i]),
            ) == Ok::<Policy, Seq<char>>(reading.policies@[i]),
{
}

/// The span of so many milliseconds is that of a thousandth as many seconds.
pub proof fn law_milliseconds_make_spans<K: Arithmetic>(m: Exact, k: &K, ms: Double, span: Span)
    requires
        m.at(Double::thousand()) == 1000 as real,
        exact_at(k, m, num(ms).over(num(Double::thousand()))),
        call_ensures(span_of_millis::<K>, (k, ms), span),
    ensures
        exists|seconds: Double|
            {
                &&& m.at(seconds) * (1000 as real) == m.at(ms)
                &&& #[trigger] call_ensures(K::to_span, (k, seconds), span)
            },
{
    let seconds = choose|seconds: Double|
        evaluates(k, num(ms).over(num(Double::thousand())), seconds) && #[trigger] call_ensures(
            K::to_span,
            (k, seconds),
            span,
        );
    assert(m.at(seconds) == m.at(ms) / (1000 as real)) by {
        reveal_with_fuel(Exact::of, 2);
    }
    lemma_quotient(m.at(ms), 1000 as real, m.at(seconds));
}

/// A name stands for one policy: its own, or the drawn estimate with a positive number of draws
/// after its name.
pub proof fn law_names_stand_for_policies(s: Seq<char>)
    ensures
        policy_named(s) == Ok::<Policy, Seq<char>>(Policy::Uct) <==> s == "uct"@,
        policy_named(s) == Ok::<Policy, Seq<char>>(Policy::Thompson) <==> s == "thompson"@,
        policy_named(s) == Ok::<Policy, Seq<char>>(Policy::ExactVoc) <==> s == "exact-voc"@,
        policy_named(s) matches Ok(Policy::McVoc(n)) ==> n > 0 && "mc-voc-"@.is_prefix_of(s) && number_in(
            s.skip(7),
        ) == Some(n),
        "mc-voc-"@.is_prefix_of(s) && number_in(s.skip(7)) is Some && number_in(s.skip(7)) != Some(0usize)
            ==> policy_named(s) is Ok,
{
    reveal_strlit("uct");
    reveal_strlit("thompson");
    reveal_strlit("exact-voc");
    reveal_strlit("mc-voc-");
    assert("uct"@.len() == 3 && "thompson"@.len() == 8 && "exact-voc"@.len() == 9);
}

} // verus!
