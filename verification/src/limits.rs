//! The constraints that end a search.

use crate::arith::Arithmetic;
use crate::double::Double;
use crate::figures::{fixed_text, is_fixed, millis, millis_text, shows};
use crate::span::Span;
use crate::text::{decimal, join, joined, push_decimal, texts};
use vstd::prelude::*;

verus! {

/// A number of simulations that is not zero.
#[derive(Clone, Copy, Debug, PartialEq, Eq, Structural)]
pub struct SimulationLimit {
    count: usize,
}

impl SimulationLimit {
    #[verifier::type_invariant]
    spec fn positive(self) -> bool {
        self.count > 0
    }

    /// The number of simulations.
    pub closed spec fn size(self) -> usize {
        self.count
    }

    /// A limit of `count` simulations, if that is not zero.
    pub fn new(count: usize) -> (r: Option<SimulationLimit>)
        ensures
            match r {
                Some(limit) => count > 0 && limit.size() == count,
                None => count == 0,
            },
    {
        if count > 0 {
            Some(SimulationLimit { count })
        } else {
            None
        }
    }

    /// The number of simulations.
    pub fn get(self) -> (r: usize)
        ensures
            r == self.size(),
            r > 0,
    {
        proof {
            use_type_invariant(&self);
        }
        self.count
    }
}

/// The constraints of a search. Each one that is present ends it on its own: so many
/// simulations, so much time, or too little value in another sample, which is measured
/// in score units.
#[derive(Clone, Copy, Debug)]
pub struct SearchConstraints {
    pub simulation_limit: Option<SimulationLimit>,
    pub time_limit: Option<Span>,
    pub min_voc: Option<Double>,
}

impl PartialEq for SearchConstraints {
    fn eq(&self, other: &SearchConstraints) -> (r: bool) {
        let same_simulations = match (self.simulation_limit, other.simulation_limit) {
            (Some(a), Some(b)) => a == b,
            (None, None) => true,
            _ => false,
        };
        let same_time = match (self.time_limit, other.time_limit) {
            (Some(a), Some(b)) => a == b,
            (None, None) => true,
            _ => false,
        };
        let same_voc = match (self.min_voc, other.min_voc) {
            (Some(a), Some(b)) => a == b,
            (None, None) => true,
            _ => false,
        };
        same_simulations && same_time && same_voc
    }
}

impl vstd::std_specs::cmp::PartialEqSpecImpl for SearchConstraints {
    open spec fn obeys_eq_spec() -> bool {
        true
    }

    open spec fn eq_spec(&self, other: &SearchConstraints) -> bool {
        &&& self.simulation_limit == other.simulation_limit
        &&& self.time_limit == other.time_limit
        &&& match (self.min_voc, other.min_voc) {
            (Some(a), Some(b)) => a.equals(b),
            (None, None) => true,
            _ => false,
        }
    }
}

impl Default for SearchConstraints {
    /// No constraint at all.
    fn default() -> (r: SearchConstraints)
        ensures
            r == (SearchConstraints { simulation_limit: None, time_limit: None, min_voc: None }),
    {
        SearchConstraints { simulation_limit: None, time_limit: None, min_voc: None }
    }
}

impl SearchConstraints {
    /// Whether anything ends the search.
    pub fn has_stopping_condition(self) -> (r: bool)
        ensures
            r == (self.simulation_limit is Some || self.time_limit is Some || self.min_voc is Some),
    {
        self.simulation_limit.is_some() || self.time_limit.is_some() || self.min_voc.is_some()
    }

    /// The simulations are used up.
    pub open spec fn out_of_simulations(self, simulations: u32) -> bool {
        self.simulation_limit matches Some(limit) && limit.size() <= simulations
    }

    /// The time is used up.
    pub open spec fn out_of_time(self, elapsed: Span) -> bool {
        self.time_limit matches Some(limit) && limit.nanos <= elapsed.nanos
    }

    /// Neither the simulations nor the time are limited.
    pub open spec fn uncapped(self) -> bool {
        self.simulation_limit is None && self.time_limit is None
    }

    /// Whether the simulations are used up.
    pub fn simulation_exhausted(self, simulations: u32) -> (r: bool)
        ensures
            r == self.out_of_simulations(simulations),
    {
        match self.simulation_limit {
            Some(limit) => limit.get() <= simulations as usize,
            None => false,
        }
    }

    /// Whether the time is used up.
    pub fn time_exhausted(self, elapsed: Span) -> (r: bool)
        ensures
            r == self.out_of_time(elapsed),
    {
        match self.time_limit {
            Some(limit) => limit.nanos <= elapsed.nanos,
            None => false,
        }
    }

    /// Whether neither the simulations nor the time are limited.
    pub fn hard_limits_disabled(self) -> (r: bool)
        ensures
            r == self.uncapped(),
    {
        self.simulation_limit.is_none() && self.time_limit.is_none()
    }

    /// The parts of the description, from the texts of the time and of the value.
    pub open spec fn parts(self, time: Seq<char>, voc: Seq<char>) -> Seq<Seq<char>> {
        let sims = match self.simulation_limit {
            Some(limit) => seq![decimal(limit.size() as nat) + " sims"@],
            None => seq![],
        };
        let times = match self.time_limit {
            Some(_) => seq![time + " ms"@],
            None => seq![],
        };
        let vocs = match self.min_voc {
            Some(_) => seq!["VOC >= "@ + voc],
            None => seq![],
        };
        sims + times + vocs
    }

    /// `t` describes the constraints: those that are present, or that there are none.
    pub open spec fn is_description<K: Arithmetic>(self, k: &K, t: Seq<char>) -> bool {
        exists|time: Seq<char>, voc: Seq<char>| #![trigger self.parts(time, voc)]
            {
                &&& self.time_limit matches Some(limit) ==> shows(k, millis(limit), 0, time)
                &&& self.min_voc matches Some(v) ==> is_fixed(k, v, 4, voc)
                &&& t == (if self.parts(time, voc).len() == 0 {
                    "no automatic stop"@
                } else {
                    joined(self.parts(time, voc), " + "@)
                })
            }
    }

    /// Describes the constraints in words.
    pub fn describe<K: Arithmetic>(self, k: &K) -> (r: String)
        ensures
            self.is_description(k, r@),
    {
        let mut parts: Vec<String> = Vec::new();
        let ghost mut time: Seq<char> = seq![];
        let ghost mut voc: Seq<char> = seq![];
        match self.simulation_limit {
            Some(limit) => {
                let mut s = String::new();
                push_decimal(&mut s, limit.get() as u64);
                s.append(" sims");
                assert(s@ =~= decimal(limit.size() as nat) + " sims"@);
                parts.push(s);
            },
            None => {},
        }
        match self.time_limit {
            Some(limit) => {
                let mut s = millis_text(k, limit, 0);
                proof {
                    time = s@;
                }
                s.append(" ms");
                parts.push(s);
            },
            None => {},
        }
        match self.min_voc {
            Some(v) => {
                let t = fixed_text(k, v, 4);
                proof {
                    voc = t@;
                }
                let mut s = String::from_str("VOC >= ");
                s.append(t.as_str());
                parts.push(s);
            },
            None => {},
        }
        assert(texts(parts@) =~= self.parts(time, voc));
        if parts.len() == 0 {
            String::from_str("no automatic stop")
        } else {
            join(&parts, " + ")
        }
    }
}

/// A constraint that is used up stays used up as the search goes on.
pub proof fn law_exhaustion_is_final(c: SearchConstraints, s: u32, t: u32, a: Span, b: Span)
    requires
        s <= t,
        a.nanos <= b.nanos,
    ensures
        c.out_of_simulations(s) ==> c.out_of_simulations(t),
        c.out_of_time(a) ==> c.out_of_time(b),
{
}

/// Without limits on simulations and time neither is ever used up.
pub proof fn law_uncapped_never_exhausted(c: SearchConstraints, s: u32, a: Span)
    requires
        c.uncapped(),
    ensures
        !c.out_of_simulations(s),
        !c.out_of_time(a),
{
}

} // verus!
