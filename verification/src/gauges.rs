//! The gauges and keys of a live search: what its bar shows, by how much a key moves a limit, and
//! when the next frame is due.

use crate::arith::{count, evaluates, num, Arithmetic};
use crate::double::Double;
use crate::exact::{lemma_quotient, Exact};
use crate::figures::{is_fixed, percent};
use crate::frame::{is_bar, is_steps, is_used_part, of_limit, of_time, BAR_WIDTH};
use crate::limits::SearchConstraints;
use crate::live::{due_after, is_next_due};
use crate::session::{command_of, effect_of, Key, KeyCode, KeyEffect, LiveCommand, Settings};
use crate::span::{Span, MAX_NANOS};
use crate::units::{exact_at, lemma_against_zero, plain};
use vstd::prelude::*;

verus! {

/// `u` is the part of the limits that is used up: so much of the simulations and so much of the
/// time at most, and just so much of one of them.
pub open spec fn is_used(m: Exact, c: SearchConstraints, simulations: u32, elapsed: Span, u: real) -> bool {
    &&& c.simulation_limit matches Some(l) ==> u * (l.size() as real) >= simulations as real
    &&& c.time_limit matches Some(t) ==> u * (m.seconds)(t) >= (m.seconds)(elapsed)
    &&& (c.simulation_limit matches Some(l) && u * (l.size() as real) == simulations as real) || (
    c.time_limit matches Some(t) && u * (m.seconds)(t) == (m.seconds)(elapsed))
}

/// The nearest number of the unit interval.
pub open spec fn unit(u: real) -> real {
    if u < 0 as real {
        0 as real
    } else if u > 1 as real {
        1 as real
    } else {
        u
    }
}

/// Nothing rounds in the bar.
pub open spec fn exact_bar<K: Arithmetic>(
    k: &K,
    m: Exact,
    c: SearchConstraints,
    simulations: u32,
    elapsed: Span,
) -> bool {
    &&& c.simulation_limit matches Some(l) ==> exact_at(k, m, of_limit(simulations, l.size()))
    &&& c.time_limit matches Some(t) ==> exact_at(k, m, of_time(elapsed, t))
    &&& forall|x: Double| #[trigger]
        is_used_part(k, c, simulations, elapsed, Some(x)) ==> {
            &&& exact_at(k, m, num(x.clamped()).times(count(BAR_WIDTH as u64)))
            &&& exact_at(k, m, percent(x.clamped()))
        }
}

proof fn lemma_more_is_used(u: real, v: real, limit: real, used: real)
    requires
        u >= v,
        limit > 0 as real,
        v * limit == used,
    ensures
        u * limit >= used,
{
    assert(u * limit >= v * limit) by (nonlinear_arith)
        requires
            u >= v,
            limit > 0 as real,
    ;
}

proof fn lemma_of_limit(m: Exact, simulations: u32, limit: usize, a: Double)
    requires
        limit > 0,
        m.at(a) == m.of(of_limit(simulations, limit)),
    ensures
        m.at(a) * (limit as real) == simulations as real,
{
    assert(simulations as u64 as real == simulations as real && limit as u64 as real == limit as real);
    assert(m.at(a) == simulations as real / limit as real) by {
        reveal_with_fuel(Exact::of, 2);
    }
    lemma_quotient(simulations as real, limit as real, m.at(a));
}

proof fn lemma_of_time(m: Exact, elapsed: Span, limit: Span, a: Double)
    requires
        (m.seconds)(limit) > 0 as real,
        m.at(a) == m.of(of_time(elapsed, limit)),
    ensures
        m.at(a) * (m.seconds)(limit) == (m.seconds)(elapsed),
{
    assert(m.at(a) == (m.seconds)(elapsed) / (m.seconds)(limit)) by {
        reveal_with_fuel(Exact::of, 2);
    }
    lemma_quotient((m.seconds)(elapsed), (m.seconds)(limit), m.at(a));
}

/// What is used up of the limits.
proof fn lemma_used<K: Arithmetic>(
    k: &K,
    m: Exact,
    c: SearchConstraints,
    simulations: u32,
    elapsed: Span,
    x: Double,
)
    requires
        m.ordered(),
        c.simulation_limit matches Some(l) ==> l.size() > 0,
        c.time_limit matches Some(t) ==> (m.seconds)(t) > 0 as real,
        exact_bar(k, m, c, simulations, elapsed),
        is_used_part(k, c, simulations, elapsed, Some(x)),
    ensures
        is_used(m, c, simulations, elapsed, m.at(x)),
        plain(x),
{
    match (c.simulation_limit, c.time_limit) {
        (Some(l), None) => {
            lemma_of_limit(m, simulations, l.size(), x);
        },
        (None, Some(t)) => {
            lemma_of_time(m, elapsed, t, x);
        },
        (Some(l), Some(t)) => {
            let (a, b) = choose|a: Double, b: Double|
                {
                    &&& #[trigger] evaluates(k, of_limit(simulations, l.size()), a)
                    &&& #[trigger] evaluates(k, of_time(elapsed, t), b)
                    &&& Some(x) == Some(a.larger(b))
                };
            lemma_of_limit(m, simulations, l.size(), a);
            lemma_of_time(m, elapsed, t, b);
            assert(a.below(b) <==> m.at(a) < m.at(b));
            lemma_more_is_used(m.at(x), m.at(a), l.size() as real, simulations as real);
            lemma_more_is_used(m.at(x), m.at(b), (m.seconds)(t), (m.seconds)(elapsed));
        },
        (None, None) => {},
    }
}

proof fn lemma_unit(m: Exact, x: Double)
    requires
        m.sound(),
        m.ordered(),
        plain(x),
    ensures
        m.at(x.clamped()) == unit(m.at(x)),
{
    lemma_against_zero(m, x);
    assert(Double::one().finite());
    assert(Double::one().below(x) <==> m.at(Double::one()) < m.at(x));
}

/// In exact arithmetic the bar shows how much of the limits is used up, the limit that is closer
/// to its end: the steps that are filled are what twenty-four times that part is nearest to, and
/// the percentage is a hundred times it, both for the part within the unit interval. There is a
/// bar exactly where simulations or time are limited.
pub proof fn law_bar_shows_what_is_used_up<K: Arithmetic>(
    k: &K,
    m: Exact,
    c: SearchConstraints,
    simulations: u32,
    elapsed: Span,
    part: Option<Double>,
    shown: Option<(usize, String)>,
)
    requires
        m.sound(),
        m.ordered(),
        m.at(Double::hundred()) == 100 as real,
        c.simulation_limit matches Some(l) ==> l.size() > 0,
        c.time_limit matches Some(t) ==> (m.seconds)(t) > 0 as real,
        exact_bar(k, m, c, simulations, elapsed),
        is_used_part(k, c, simulations, elapsed, part),
        is_bar(k, part, shown),
    ensures
        shown is Some <==> c.simulation_limit is Some || c.time_limit is Some,
        shown matches Some((filled, text)) ==> exists|u: real, steps: Double, hundredths: Double|
            {
                &&& #[trigger] is_used(m, c, simulations, elapsed, u)
                &&& m.at(steps) == (24 as real) * unit(u)
                &&& #[trigger] call_ensures(K::to_count, (k, steps), filled)
                &&& m.at(hundredths) == (100 as real) * unit(u)
                &&& #[trigger] is_fixed(k, hundredths, 0, text@)
            },
{
    if let Some(x) = part {
        lemma_used(k, m, c, simulations, elapsed, x);
        lemma_unit(m, x);
        if let Some((filled, text)) = shown {
            let u = m.at(x);
            let y = x.clamped();
            assert(is_steps(k, y, filled));
            let steps = choose|steps: Double|
                evaluates(k, num(y).times(count(BAR_WIDTH as u64)), steps) && #[trigger] call_ensures(
                    K::to_count,
                    (k, steps),
                    filled,
                );
            let hundredths = choose|h: Double| #[trigger] evaluates(k, percent(y), h) && is_fixed(
                k,
                h,
                0,
                text@,
            );
            assert(exact_at(k, m, num(y).times(count(BAR_WIDTH as u64))));
            assert(exact_at(k, m, percent(y)));
            assert(m.at(steps) == m.at(y) * (24 as real)) by {
                reveal_with_fuel(Exact::of, 2);
            }
            assert(m.at(hundredths) == (100 as real) * m.at(y)) by {
                reveal_with_fuel(Exact::of, 2);
            }
            let v = m.at(y);
            assert(v * (24 as real) == (24 as real) * v) by (nonlinear_arith);
            assert(is_used(m, c, simulations, elapsed, u));
            assert(call_ensures(K::to_count, (k, steps), filled));
            assert(is_fixed(k, hundredths, 0, text@));
        }
    }
}

/// A key for the limits moves one of them: the time by fifty milliseconds, not below ten, and where
/// the time is not limited the simulations by 128, not below one and from 512 where they are not
/// limited. The limit is kept for later, and nothing else changes.
pub proof fn law_limit_keys_move_one_limit(s: Settings, t: Settings, increase: bool)
    requires
        s.adjusted(increase, t),
    ensures
        t.frame_interval == s.frame_interval,
        t.constraints.min_voc == s.constraints.min_voc,
        s.constraints.time_limit matches Some(l) ==> {
            &&& t.constraints.time_limit matches Some(r) && if increase {
                r.nanos == l.nanos + 50_000_000 || (r.nanos == MAX_NANOS && l.nanos + 50_000_000
                    > MAX_NANOS)
            } else {
                (r.nanos == l.nanos - 50_000_000 && r.nanos >= 10_000_000) || (r.nanos == 10_000_000
                    && l.nanos < 60_000_000)
            }
            &&& t.saved_time_limit == t.constraints.time_limit
            &&& t.constraints.simulation_limit == s.constraints.simulation_limit
            &&& t.saved_simulation_limit == s.saved_simulation_limit
        },
        s.constraints.time_limit is None ==> {
            let from: int = match s.constraints.simulation_limit {
                Some(l) => l.size() as int,
                None => 512,
            };
            &&& t.constraints.simulation_limit matches Some(r) && if increase {
                r.size() == from + 128 || (r.size() == usize::MAX && from + 128 > usize::MAX)
            } else {
                (r.size() == from - 128 && r.size() >= 1) || (r.size() == 1 && from <= 128)
            }
            &&& t.saved_simulation_limit == t.constraints.simulation_limit
            &&& t.constraints.time_limit is None
            &&& t.saved_time_limit == s.saved_time_limit
        },
{
}

/// A key for the frames moves the time between them by ten milliseconds, not below ten, and
/// nothing else.
pub proof fn law_frame_keys_move_the_frames(s: Settings, t: Settings, increase: bool)
    requires
        s.paced(increase, t),
    ensures
        t.constraints == s.constraints,
        t.saved_simulation_limit == s.saved_simulation_limit,
        t.saved_time_limit == s.saved_time_limit,
        increase ==> t.frame_interval.nanos == s.frame_interval.nanos + 10_000_000 || (
        t.frame_interval.nanos == MAX_NANOS && s.frame_interval.nanos + 10_000_000 > MAX_NANOS),
        !increase ==> (t.frame_interval.nanos == s.frame_interval.nanos - 10_000_000
            && t.frame_interval.nanos >= 10_000_000) || (t.frame_interval.nanos == 10_000_000
            && s.frame_interval.nanos < 20_000_000),
{
}

/// Switching the limits off takes both of them away and keeps them for later; switching them on
/// brings back those that were kept, with 512 simulations where none were. The cost of a sample
/// and the frames stay as they are.
pub proof fn law_toggling_keeps_the_limits(s: Settings, t: Settings)
    requires
        s.toggled(t),
    ensures
        t.frame_interval == s.frame_interval,
        t.constraints.min_voc == s.constraints.min_voc,
        s.constraints.simulation_limit is Some || s.constraints.time_limit is Some ==> {
            &&& t.constraints.simulation_limit is None
            &&& t.constraints.time_limit is None
            &&& t.saved_simulation_limit == s.constraints.simulation_limit
            &&& t.saved_time_limit == s.constraints.time_limit
        },
        s.constraints.simulation_limit is None && s.constraints.time_limit is None ==> {
            &&& s.saved_simulation_limit is Some ==> t.constraints.simulation_limit
                == s.saved_simulation_limit
            &&& s.saved_simulation_limit is None ==> (t.constraints.simulation_limit matches Some(l)
                && l.size() == 512)
            &&& t.constraints.time_limit == s.saved_time_limit
        },
{
}

/// What a key asks: releasing it asks nothing; `q`, escape and control with `c` quit; blank and
/// enter act; an arrow forces its direction; no other key asks for anything. A key that changes a
/// setting asks for nothing else.
pub proof fn law_keys_ask_for_one_thing(key: Key)
    ensures
        key.released ==> command_of(key) == LiveCommand::Continue && effect_of(key)
            == KeyEffect::Nothing,
        !key.released ==> (command_of(key) == LiveCommand::Quit <==> key.code == KeyCode::Char('q')
            || key.code == KeyCode::Esc || (key.code == KeyCode::Char('c') && key.control)),
        !key.released ==> (command_of(key) == LiveCommand::ActBest <==> key.code == KeyCode::Char(' ')
            || key.code == KeyCode::Enter),
        effect_of(key) == KeyEffect::ActNow <==> command_of(key) == LiveCommand::ActBest,
        effect_of(key) != KeyEffect::Nothing && effect_of(key) != KeyEffect::ActNow ==> command_of(key)
            == LiveCommand::Continue,
        command_of(key) is Force ==> effect_of(key) == KeyEffect::Nothing && (key.code == KeyCode::Up
            || key.code == KeyCode::Down || key.code == KeyCode::Left || key.code == KeyCode::Right),
{
}

/// What happens at an interval keeps its beat: the next time is a whole number of intervals after
/// the last, it lies after now, and no earlier such time does.
pub proof fn law_next_due_keeps_the_beat(due: Span, interval: Span, now: Span, r: Span)
    requires
        interval.nanos > 0,
        is_next_due(due, interval, now, r),
    ensures
        (r.nanos - due.nanos) % (interval.nanos as int) == 0,
        r.nanos > due.nanos,
        r.nanos > now.nanos,
        r.nanos - interval.nanos <= now.nanos || r.nanos - interval.nanos == due.nanos,
{
    let n = choose|n: nat| #[trigger] due_after(due, interval, n) == r.nanos && n >= 1 && now.nanos < r.nanos
        && (n == 1 || r.nanos - interval.nanos <= now.nanos);
    let i = interval.nanos as int;
    let c = n as int;
    assert(r.nanos - due.nanos == c * i);
    assert(c * i >= i) by (nonlinear_arith)
        requires
            c >= 1,
            i > 0,
    ;
    vstd::arithmetic::div_mod::lemma_mod_multiples_basic(c, i);
    if n == 1 {
        assert(c * i == i) by (nonlinear_arith)
            requires
                c == 1,
        ;
    }
}

} // verus!
