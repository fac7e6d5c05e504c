//! What the program is asked to do: the options, what is wrong with them, and the plan
//! that follows from them.

use crate::arith::Arithmetic;
use crate::double::Double;
use crate::figures::{is_span_of_millis, span_of_millis};
use crate::limits::{SearchConstraints, SimulationLimit};
use crate::policy::{lists_policies, names_bad_policy, parse_policies, policies_listed, Policy};
use crate::span::Span;
use crate::text::{
    lists_numbers, names_bad_number, number_in, numbers_listed, parse_usizes, pieces, trimmed,
};
use vstd::prelude::*;

verus! {

/// The options, as they were given.
#[derive(Debug)]
pub struct Options {
    pub play: bool,
    pub trace: bool,
    pub budgets: Option<String>,
    pub policies: String,
    pub reward_scale: Double,
    pub reward_shift: Double,
    pub simulation_limit: Option<SimulationLimit>,
    pub time_ms: Option<Double>,
    pub voc_cost: Option<Double>,
    pub frame_ms: Double,
}

/// What can be wrong with the options.
#[derive(Clone, Copy, Debug, PartialEq, Eq, Structural)]
pub enum Fault {
    Budget,
    Policy,
    RewardScale,
    RewardShift,
    LimitNeedsGame,
    TimeNeedsGame,
    VocCost,
    VocNeedsGame,
    VocNeedsExact,
    OnePolicy,
    FrameMs,
    TwoLimits,
    OneBudget,
    ZeroLimit,
    TimeMs,
    NoStop,
    EndlessVoc,
}

/// A fault with the message that says so.
#[derive(Debug)]
pub struct OptionError {
    pub fault: Fault,
    pub message: String,
}

/// What the budgets and policies of the options say. A single game has no budgets.
#[derive(Debug)]
pub struct Reading {
    pub budgets: Vec<usize>,
    pub policies: Vec<Policy>,
}

/// What is to be done.
#[derive(Clone, Copy, Debug)]
pub enum Plan {
    /// Games with fixed numbers of simulations.
    Benchmark,
    /// One game, shown where there is an interval between frames.
    Single { policy: Policy, constraints: SearchConstraints, frame_interval: Option<Span> },
}

impl Fault {
    /// The message of a fault. A piece of a list that cannot be read has a message of its
    /// own.
    pub open spec fn text(self) -> Seq<char> {
        match self {
            Fault::Budget | Fault::Policy => ""@,
            Fault::RewardScale => "--reward-scale must be finite and positive"@,
            Fault::RewardShift => "--reward-shift must be finite"@,
            Fault::LimitNeedsGame => "--simulation-limit requires --play or --trace-json"@,
            Fault::TimeNeedsGame => "--time-ms requires --play or --trace-json"@,
            Fault::VocCost => "--voc-cost must be finite and nonnegative"@,
            Fault::VocNeedsGame => "--voc-cost currently requires --play or --trace-json"@,
            Fault::VocNeedsExact => "--voc-cost currently requires --policies exact-voc"@,
            Fault::OnePolicy => "--play/--trace-json requires exactly one --policies entry"@,
            Fault::FrameMs => "--frame-ms must be finite and positive"@,
            Fault::TwoLimits => "use either --simulation-limit or --budgets in single-game mode, not both"@,
            Fault::OneBudget => "single-game --budgets accepts exactly one value; prefer --simulation-limit"@,
            Fault::ZeroLimit => "simulation limit must be positive"@,
            Fault::TimeMs => "--time-ms must be finite and positive"@,
            Fault::NoStop => "non-interactive trace search needs at least one stopping constraint"@,
            Fault::EndlessVoc => "--voc-cost 0 without a resource limit may not terminate"@,
        }
    }

    /// The error of a fault whose message is fixed.
    fn error(self) -> (r: OptionError)
        ensures
            r.fault == self,
            r.message@ == self.text(),
    {
        let message = match self {
            Fault::Budget | Fault::Policy => "",
            Fault::RewardScale => "--reward-scale must be finite and positive",
            Fault::RewardShift => "--reward-shift must be finite",
            Fault::LimitNeedsGame => "--simulation-limit requires --play or --trace-json",
            Fault::TimeNeedsGame => "--time-ms requires --play or --trace-json",
            Fault::VocCost => "--voc-cost must be finite and nonnegative",
            Fault::VocNeedsGame => "--voc-cost currently requires --play or --trace-json",
            Fault::VocNeedsExact => "--voc-cost currently requires --policies exact-voc",
            Fault::OnePolicy => "--play/--trace-json requires exactly one --policies entry",
            Fault::FrameMs => "--frame-ms must be finite and positive",
            Fault::TwoLimits => "use either --simulation-limit or --budgets in single-game mode, not both",
            Fault::OneBudget => "single-game --budgets accepts exactly one value; prefer --simulation-limit",
            Fault::ZeroLimit => "simulation limit must be positive",
            Fault::TimeMs => "--time-ms must be finite and positive",
            Fault::NoStop => "non-interactive trace search needs at least one stopping constraint",
            Fault::EndlessVoc => "--voc-cost 0 without a resource limit may not terminate",
        };
        OptionError { fault: self, message: String::from_str(message) }
    }
}

/// Finite and positive.
pub open spec fn is_positive(x: Double) -> bool {
    x.finite() && Double::zero().below(x)
}

/// Whether a number is finite and positive.
fn positive(x: Double) -> (r: bool)
    ensures
        r == is_positive(x),
{
    x.is_finite() && Double::zero().lt(x)
}

impl Options {
    /// One game is asked for, to be shown or to be recorded.
    pub open spec fn wants_one_game(self) -> bool {
        self.play || self.trace
    }

    /// Whether one game is asked for.
    pub fn single_game(&self) -> (r: bool)
        ensures
            r == self.wants_one_game(),
    {
        self.play || self.trace
    }

    /// The budgets of a benchmark: those given, or the usual ones.
    pub open spec fn budget_list(self) -> Seq<char> {
        match self.budgets {
            Some(s) => s@,
            None => "8,16,32,64,128"@,
        }
    }

    /// The first fault in the budgets, the policies and the transform of the rewards.
    pub open spec fn reading_fault(self) -> Option<Fault> {
        if !self.wants_one_game() && !lists_numbers(self.budget_list()) {
            Some(Fault::Budget)
        } else if !lists_policies(self.policies@) {
            Some(Fault::Policy)
        } else if !is_positive(self.reward_scale) {
            Some(Fault::RewardScale)
        } else if !self.reward_shift.finite() {
            Some(Fault::RewardShift)
        } else {
            None
        }
    }

    /// Reads the budgets and the policies, and looks at the transform of the rewards.
    pub fn read(&self) -> (r: Result<Reading, OptionError>)
        ensures
            match r {
                Ok(reading) => {
                    &&& self.reading_fault() is None
                    &&& policies_listed(self.policies@, reading.policies@)
                    &&& if self.wants_one_game() {
                        reading.budgets@.len() == 0
                    } else {
                        numbers_listed(self.budget_list(), reading.budgets@)
                    }
                },
                Err(e) => self.reading_fault() == Some(e.fault) && match e.fault {
                    Fault::Budget => names_bad_number(self.budget_list(), e.message@),
                    Fault::Policy => names_bad_policy(self.policies@, e.message@),
                    _ => e.message@ == e.fault.text(),
                },
            },
    {
        let mut budgets: Vec<usize> = Vec::new();
        if !self.single_game() {
            let list = match &self.budgets {
                Some(s) => s.as_str(),
                None => "8,16,32,64,128",
            };
            match parse_usizes(list) {
                Ok(v) => {
                    budgets = v;
                },
                Err(message) => {
                    return Err(OptionError { fault: Fault::Budget, message });
                },
            }
        }
        let policies = match parse_policies(self.policies.as_str()) {
            Ok(v) => v,
            Err(message) => {
                return Err(OptionError { fault: Fault::Policy, message });
            },
        };
        if !positive(self.reward_scale) {
            return Err(Fault::RewardScale.error());
        }
        if !self.reward_shift.is_finite() {
            return Err(Fault::RewardShift.error());
        }
        Ok(Reading { budgets, policies })
    }

    /// The first fault in the cost of a sample.
    pub open spec fn cost_fault(self, policies: Seq<Policy>) -> Option<Fault> {
        match self.voc_cost {
            Some(cost) => if !cost.finite() || cost.below(Double::zero()) {
                Some(Fault::VocCost)
            } else if !self.wants_one_game() {
                Some(Fault::VocNeedsGame)
            } else if policies.len() != 1 || policies[0] != Policy::ExactVoc {
                Some(Fault::VocNeedsExact)
            } else {
                None
            },
            None => None,
        }
    }

    /// The first fault in a number of simulations that is given as a budget.
    pub open spec fn budget_fault(self) -> Option<Fault> {
        match self.budgets {
            Some(s) => if self.simulation_limit is Some {
                Some(Fault::TwoLimits)
            } else if !lists_numbers(s@) {
                Some(Fault::Budget)
            } else if pieces(s@).len() != 1 {
                Some(Fault::OneBudget)
            } else if number_in(trimmed(pieces(s@)[0])) == Some(0usize) {
                Some(Fault::ZeroLimit)
            } else {
                None
            },
            None => None,
        }
    }

    /// Neither simulations nor time are limited.
    pub open spec fn no_resource_limit(self) -> bool {
        self.simulation_limit is None && self.budgets is None && self.time_ms is None
    }

    /// The first fault in what is asked of one game.
    pub open spec fn game_fault(self, policies: Seq<Policy>) -> Option<Fault> {
        if policies.len() != 1 {
            Some(Fault::OnePolicy)
        } else if !is_positive(self.frame_ms) {
            Some(Fault::FrameMs)
        } else if self.budget_fault() is Some {
            self.budget_fault()
        } else if self.time_ms matches Some(ms) && !is_positive(ms) {
            Some(Fault::TimeMs)
        } else if self.no_resource_limit() && self.voc_cost is None && !self.play {
            Some(Fault::NoStop)
        } else if self.no_resource_limit() && !self.play && (self.voc_cost matches Some(cost)
            && !cost.nan() && cost.rank() == 0) {
            Some(Fault::EndlessVoc)
        } else {
            None
        }
    }

    /// The first fault in the options, once they have been read.
    pub open spec fn plan_fault(self, policies: Seq<Policy>) -> Option<Fault> {
        if self.simulation_limit is Some && !self.wants_one_game() {
            Some(Fault::LimitNeedsGame)
        } else if self.time_ms is Some && !self.wants_one_game() {
            Some(Fault::TimeNeedsGame)
        } else if self.cost_fault(policies) is Some {
            self.cost_fault(policies)
        } else if self.wants_one_game() {
            self.game_fault(policies)
        } else {
            None
        }
    }

    /// The constraints that the options ask for.
    pub open spec fn asks_for<K: Arithmetic>(self, k: &K, c: SearchConstraints) -> bool {
        &&& match (self.simulation_limit, self.budgets, c.simulation_limit) {
            (Some(a), _, Some(b)) => a == b,
            (None, Some(s), Some(b)) => number_in(trimmed(pieces(s@)[0])) == Some(b.size()),
            (None, None, None) => true,
            _ => false,
        }
        &&& match (self.time_ms, c.time_limit) {
            (Some(ms), Some(t)) => is_span_of_millis(k, ms, t),
            (None, None) => true,
            _ => false,
        }
        &&& c.min_voc == self.voc_cost
    }

    /// The plan that the options make.
    pub open spec fn makes<K: Arithmetic>(self, k: &K, policies: Seq<Policy>, plan: Plan) -> bool {
        match plan {
            Plan::Benchmark => !self.wants_one_game(),
            Plan::Single { policy, constraints, frame_interval } => {
                &&& self.wants_one_game()
                &&& policy == policies[0]
                &&& self.asks_for(k, constraints)
                &&& match frame_interval {
                    Some(t) => self.play && is_span_of_millis(k, self.frame_ms, t),
                    None => !self.play,
                }
            },
        }
    }

    fn check_cost(&self, policies: &Vec<Policy>) -> (r: Result<(), OptionError>)
        ensures
            match r {
                Ok(_) => self.cost_fault(policies@) is None,
                Err(e) => self.cost_fault(policies@) == Some(e.fault) && e.fault != Fault::Budget
                    && e.message@ == e.fault.text(),
            },
    {
        if let Some(cost) = self.voc_cost {
            if !cost.is_finite() || cost.lt(Double::zero()) {
                return Err(Fault::VocCost.error());
            }
            if !self.single_game() {
                return Err(Fault::VocNeedsGame.error());
            }
            if policies.len() != 1 || policies[0] != Policy::ExactVoc {
                return Err(Fault::VocNeedsExact.error());
            }
        }
        Ok(())
    }

    fn limit(&self) -> (r: Result<Option<SimulationLimit>, OptionError>)
        ensures
            match r {
                Ok(limit) => {
                    &&& self.budget_fault() is None
                    &&& match (self.simulation_limit, self.budgets, limit) {
                        (Some(a), _, Some(b)) => a == b,
                        (None, Some(s), Some(b)) => number_in(trimmed(pieces(s@)[0])) == Some(b.size()),
                        (None, None, None) => true,
                        _ => false,
                    }
                },
                Err(e) => self.budget_fault() == Some(e.fault) && match e.fault {
                    Fault::Budget => self.budgets matches Some(s) && names_bad_number(s@, e.message@),
                    _ => e.message@ == e.fault.text(),
                },
            },
    {
        match &self.budgets {
            Some(list) => {
                if self.simulation_limit.is_some() {
                    return Err(Fault::TwoLimits.error());
                }
                let parsed = match parse_usizes(list.as_str()) {
                    Ok(v) => v,
                    Err(message) => {
                        return Err(OptionError { fault: Fault::Budget, message });
                    },
                };
                if parsed.len() != 1 {
                    return Err(Fault::OneBudget.error());
                }
                assert(number_in(trimmed(pieces(list@)[0])) == Some(parsed@[0]));
                match SimulationLimit::new(parsed[0]) {
                    Some(limit) => Ok(Some(limit)),
                    None => Err(Fault::ZeroLimit.error()),
                }
            },
            None => Ok(self.simulation_limit),
        }
    }

    /// Makes the plan, or says what is wrong with the options.
    pub fn plan<K: Arithmetic>(&self, policies: &Vec<Policy>, k: &K) -> (r: Result<Plan, OptionError>)
        ensures
            match r {
                Ok(plan) => self.plan_fault(policies@) is None && self.makes(k, policies@, plan),
                Err(e) => self.plan_fault(policies@) == Some(e.fault) && match e.fault {
                    Fault::Budget => self.budgets matches Some(s) && names_bad_number(s@, e.message@),
                    _ => e.message@ == e.fault.text(),
                },
            },
    {
        let single = self.single_game();
        if self.simulation_limit.is_some() && !single {
            return Err(Fault::LimitNeedsGame.error());
        }
        if self.time_ms.is_some() && !single {
            return Err(Fault::TimeNeedsGame.error());
        }
        match self.check_cost(policies) {
            Ok(_) => {},
            Err(e) => {
                return Err(e);
            },
        }
        if !single {
            return Ok(Plan::Benchmark);
        }
        if policies.len() != 1 {
            return Err(Fault::OnePolicy.error());
        }
        if !positive(self.frame_ms) {
            return Err(Fault::FrameMs.error());
        }
        let simulation_limit = match self.limit() {
            Ok(limit) => limit,
            Err(e) => {
                return Err(e);
            },
        };
        let time_limit = match self.time_ms {
            Some(ms) => {
                if !positive(ms) {
                    return Err(Fault::TimeMs.error());
                }
                Some(span_of_millis(k, ms))
            },
            None => None,
        };
        let constraints = SearchConstraints { simulation_limit, time_limit, min_voc: self.voc_cost };
        if !constraints.has_stopping_condition() && !self.play {
            return Err(Fault::NoStop.error());
        }
        if let Some(cost) = constraints.min_voc {
            if cost.same(Double::zero()) && constraints.hard_limits_disabled() && !self.play {
                return Err(Fault::EndlessVoc.error());
            }
        }
        let frame_interval = if self.play {
            Some(span_of_millis(k, self.frame_ms))
        } else {
            None
        };
        Ok(Plan::Single { policy: policies[0], constraints, frame_interval })
    }
}

/// A game that nobody watches has a constraint that can end each search: simulations or
/// time are limited, or another sample has a cost above zero.
pub proof fn law_unwatched_games_can_stop<K: Arithmetic>(o: Options, k: &K, policies: Seq<Policy>, plan: Plan)
    requires
        o.plan_fault(policies) is None,
        o.makes(k, policies, plan),
        !o.play,
    ensures
        plan matches Plan::Single { constraints, .. } ==> {
            ||| constraints.simulation_limit is Some
            ||| constraints.time_limit is Some
            ||| constraints.min_voc matches Some(cost) && Double::zero().below(cost)
        },
{
}

/// Only the analytic value of a sample can be held against a cost.
pub proof fn law_costs_need_exact_voc<K: Arithmetic>(o: Options, k: &K, policies: Seq<Policy>, plan: Plan)
    requires
        o.plan_fault(policies) is None,
        o.makes(k, policies, plan),
        o.voc_cost is Some,
    ensures
        plan matches Plan::Single { policy, constraints, .. } && policy == Policy::ExactVoc
            && constraints.min_voc == o.voc_cost,
{
}

} // verus!
