//! A live session: the constraints in force, and the keys that change them.

use crate::arith::Arithmetic;
use crate::board::Dir;
use crate::figures::{millis, millis_text, shows};
use crate::limits::{SearchConstraints, SimulationLimit};
use crate::span::{Span, MAX_NANOS};
use vstd::prelude::*;

verus! {

/// The limit in force where none was ever set.
pub const DEFAULT_SIMULATIONS: usize = 512;

/// By how much a key changes the limit on simulations.
pub const SIMULATION_STEP: usize = 128;

/// By how many milliseconds a key changes the limit on time.
pub const TIME_STEP_MS: u64 = 50;

/// The smallest limit on time, in milliseconds.
pub const MIN_TIME_MS: u64 = 10;

/// By how many milliseconds a key changes the time between frames.
pub const FRAME_STEP_MS: u64 = 10;

/// The smallest time between frames, in milliseconds.
pub const MIN_FRAME_MS: u64 = 10;

/// A key of the keyboard.
#[derive(Clone, Copy, Debug, PartialEq, Eq, Structural)]
pub enum KeyCode {
    Char(char),
    Enter,
    Esc,
    Up,
    Down,
    Left,
    Right,
    PageUp,
    PageDown,
    Other,
}

/// A key that was pressed or released, with the control key held or not.
#[derive(Clone, Copy, Debug, PartialEq, Eq, Structural)]
pub struct Key {
    pub code: KeyCode,
    pub control: bool,
    pub released: bool,
}

/// What a key asks of the search.
#[derive(Clone, Copy, Debug, PartialEq, Eq, Structural)]
pub enum LiveCommand {
    Continue,
    ActBest,
    Force(Dir),
    Quit,
}

/// What a key does to the session.
#[derive(Clone, Copy, Debug, PartialEq, Eq, Structural)]
pub enum KeyEffect {
    Nothing,
    ActNow,
    ToggleLimits,
    RaiseLimit,
    LowerLimit,
    SlowFrames,
    FastFrames,
}

/// The command of a key. Releasing a key asks nothing; control and `c` quit.
pub open spec fn command_of(key: Key) -> LiveCommand {
    if key.released {
        LiveCommand::Continue
    } else if key.code == KeyCode::Char('c') && key.control {
        LiveCommand::Quit
    } else {
        match key.code {
            KeyCode::Char('q') | KeyCode::Esc => LiveCommand::Quit,
            KeyCode::Char(' ') | KeyCode::Enter => LiveCommand::ActBest,
            KeyCode::Up => LiveCommand::Force(Dir::Up),
            KeyCode::Down => LiveCommand::Force(Dir::Down),
            KeyCode::Left => LiveCommand::Force(Dir::Left),
            KeyCode::Right => LiveCommand::Force(Dir::Right),
            _ => LiveCommand::Continue,
        }
    }
}

/// What a key does to the session besides its command.
pub open spec fn effect_of(key: Key) -> KeyEffect {
    if key.released || (key.code == KeyCode::Char('c') && key.control) {
        KeyEffect::Nothing
    } else {
        match key.code {
            KeyCode::Char(' ') | KeyCode::Enter => KeyEffect::ActNow,
            KeyCode::Char('i') => KeyEffect::ToggleLimits,
            KeyCode::Char('+') | KeyCode::Char('=') | KeyCode::PageUp => KeyEffect::RaiseLimit,
            KeyCode::Char('-') | KeyCode::PageDown => KeyEffect::LowerLimit,
            KeyCode::Char('[') => KeyEffect::FastFrames,
            KeyCode::Char(']') => KeyEffect::SlowFrames,
            _ => KeyEffect::Nothing,
        }
    }
}

/// The command of a key.
pub fn key_command(key: Key) -> (r: LiveCommand)
    ensures
        r == command_of(key),
{
    if key.released {
        return LiveCommand::Continue;
    }
    if key.control && key.code == KeyCode::Char('c') {
        return LiveCommand::Quit;
    }
    match key.code {
        KeyCode::Char(c) => {
            if c == 'q' {
                LiveCommand::Quit
            } else if c == ' ' {
                LiveCommand::ActBest
            } else {
                LiveCommand::Continue
            }
        },
        KeyCode::Esc => LiveCommand::Quit,
        KeyCode::Enter => LiveCommand::ActBest,
        KeyCode::Up => LiveCommand::Force(Dir::Up),
        KeyCode::Down => LiveCommand::Force(Dir::Down),
        KeyCode::Left => LiveCommand::Force(Dir::Left),
        KeyCode::Right => LiveCommand::Force(Dir::Right),
        _ => LiveCommand::Continue,
    }
}

/// What a key does to the session.
pub fn key_effect(key: Key) -> (r: KeyEffect)
    ensures
        r == effect_of(key),
{
    if key.released || (key.control && key.code == KeyCode::Char('c')) {
        return KeyEffect::Nothing;
    }
    match key.code {
        KeyCode::Char(c) => {
            if c == ' ' {
                KeyEffect::ActNow
            } else if c == 'i' {
                KeyEffect::ToggleLimits
            } else if c == '+' || c == '=' {
                KeyEffect::RaiseLimit
            } else if c == '-' {
                KeyEffect::LowerLimit
            } else if c == '[' {
                KeyEffect::FastFrames
            } else if c == ']' {
                KeyEffect::SlowFrames
            } else {
                KeyEffect::Nothing
            }
        },
        KeyCode::Enter => KeyEffect::ActNow,
        KeyCode::PageUp => KeyEffect::RaiseLimit,
        KeyCode::PageDown => KeyEffect::LowerLimit,
        _ => KeyEffect::Nothing,
    }
}

/// What a session holds besides its notice: the constraints in force, the limits to
/// come back to, and the time between frames.
#[derive(Clone, Copy, Debug)]
pub struct Settings {
    pub constraints: SearchConstraints,
    pub saved_simulation_limit: Option<SimulationLimit>,
    pub saved_time_limit: Option<Span>,
    pub frame_interval: Span,
}

/// A live session. The revision counts the notices.
#[derive(Debug)]
pub struct LiveSession {
    pub interactive: bool,
    pub settings: Settings,
    pub notice: String,
    pub revision: u64,
}

/// `limit` is a limit of `count` simulations.
pub open spec fn is_limit(limit: Option<SimulationLimit>, count: int) -> bool {
    limit matches Some(l) && l.size() == count
}

/// The limit on simulations, one step up or down from the one in force, or from the
/// default where there is none. It does not fall below one.
pub open spec fn stepped_simulations(limit: Option<SimulationLimit>, increase: bool) -> int {
    let current: int = match limit {
        Some(l) => l.size() as int,
        None => DEFAULT_SIMULATIONS as int,
    };
    if increase {
        if current + SIMULATION_STEP <= usize::MAX {
            current + SIMULATION_STEP
        } else {
            usize::MAX as int
        }
    } else if current > SIMULATION_STEP {
        current - SIMULATION_STEP
    } else {
        1
    }
}

/// The limit on time, one step up or down. It does not fall below the smallest one.
pub open spec fn stepped_time(limit: Span, increase: bool) -> Span {
    if increase {
        limit.plus(Span::from_millis(TIME_STEP_MS))
    } else {
        limit.minus(Span::from_millis(TIME_STEP_MS)).longer(Span::from_millis(MIN_TIME_MS))
    }
}

/// The time between frames, one step up or down. It does not fall below the smallest
/// one.
pub open spec fn stepped_frame(interval: Span, increase: bool) -> Span {
    if increase {
        interval.plus(Span::from_millis(FRAME_STEP_MS))
    } else {
        interval.minus(Span::from_millis(FRAME_STEP_MS)).longer(Span::from_millis(MIN_FRAME_MS))
    }
}

impl Settings {
    /// The settings at the start of a session.
    pub open spec fn at_start(constraints: SearchConstraints, frame_interval: Span) -> Settings {
        Settings {
            constraints,
            saved_simulation_limit: constraints.simulation_limit,
            saved_time_limit: constraints.time_limit,
            frame_interval,
        }
    }

    /// The limits are off after they were on, and were saved.
    pub open spec fn switched_off(self, after: Settings) -> bool {
        &&& after.constraints == (SearchConstraints {
            simulation_limit: None,
            time_limit: None,
            min_voc: self.constraints.min_voc,
        })
        &&& after.saved_simulation_limit == self.constraints.simulation_limit
        &&& after.saved_time_limit == self.constraints.time_limit
        &&& after.frame_interval == self.frame_interval
    }

    /// The limits are those that were saved. Where no limit on simulations was saved,
    /// the default comes into force.
    pub open spec fn switched_on(self, after: Settings) -> bool {
        &&& match self.saved_simulation_limit {
            Some(limit) => after.constraints.simulation_limit == Some(limit),
            None => is_limit(after.constraints.simulation_limit, DEFAULT_SIMULATIONS as int),
        }
        &&& after.constraints.time_limit == self.saved_time_limit
        &&& after.constraints.min_voc == self.constraints.min_voc
        &&& after.saved_simulation_limit == self.saved_simulation_limit
        &&& after.saved_time_limit == self.saved_time_limit
        &&& after.frame_interval == self.frame_interval
    }

    /// The limits were switched off, or on again where they were off.
    pub open spec fn toggled(self, after: Settings) -> bool {
        if self.constraints.uncapped() {
            self.switched_on(after)
        } else {
            self.switched_off(after)
        }
    }

    /// The limit on time, or else the one on simulations, was moved by one step, and was
    /// saved.
    pub open spec fn adjusted(self, increase: bool, after: Settings) -> bool {
        &&& after.constraints.min_voc == self.constraints.min_voc
        &&& after.frame_interval == self.frame_interval
        &&& match self.constraints.time_limit {
            Some(limit) => {
                &&& after.constraints.time_limit == Some(stepped_time(limit, increase))
                &&& after.saved_time_limit == after.constraints.time_limit
                &&& after.constraints.simulation_limit == self.constraints.simulation_limit
                &&& after.saved_simulation_limit == self.saved_simulation_limit
            },
            None => {
                &&& is_limit(
                    after.constraints.simulation_limit,
                    stepped_simulations(self.constraints.simulation_limit, increase),
                )
                &&& after.saved_simulation_limit == after.constraints.simulation_limit
                &&& after.constraints.time_limit == self.constraints.time_limit
                &&& after.saved_time_limit == self.saved_time_limit
            },
        }
    }

    /// The time between frames was moved by one step.
    pub open spec fn paced(self, increase: bool, after: Settings) -> bool {
        after == (Settings {
            frame_interval: stepped_frame(self.frame_interval, increase),
            ..self
        })
    }
}

impl LiveSession {
    /// The session shows a new notice; its settings are as before.
    pub open spec fn noted(self, notice: Seq<char>, after: LiveSession) -> bool {
        &&& after.notice@ == notice
        &&& after.revision == (if self.revision == u64::MAX { 0 } else { self.revision + 1 })
        &&& after.interactive == self.interactive
    }

    /// What a key made of the session.
    pub open spec fn after_effect<K: Arithmetic>(self, k: &K, effect: KeyEffect, after: LiveSession) -> bool {
        let s = self.settings;
        let t = after.settings;
        match effect {
            KeyEffect::Nothing => after == self,
            KeyEffect::ActNow => t == s && self.noted("acting now with current best"@, after),
            KeyEffect::ToggleLimits => s.toggled(t) && if s.constraints.uncapped() {
                exists|d: Seq<char>| #[trigger]
                    t.constraints.is_description(k, d) && self.noted("restored "@ + d, after)
            } else {
                self.noted("resource caps disabled; other stop constraints remain active"@, after)
            },
            KeyEffect::RaiseLimit | KeyEffect::LowerLimit => s.adjusted(
                effect == KeyEffect::RaiseLimit,
                t,
            ) && exists|d: Seq<char>| #[trigger]
                t.constraints.is_description(k, d) && self.noted("constraints "@ + d, after),
            KeyEffect::SlowFrames | KeyEffect::FastFrames => s.paced(
                effect == KeyEffect::SlowFrames,
                t,
            ) && exists|d: Seq<char>| #[trigger]
                shows(k, millis(t.frame_interval), 0, d) && self.noted(
                    "refresh interval "@ + d + " ms"@,
                    after,
                ),
        }
    }

    /// A session at its start.
    pub fn new(interactive: bool, constraints: SearchConstraints, frame_interval: Span) -> (r: LiveSession)
        ensures
            r.interactive == interactive,
            r.settings == Settings::at_start(constraints, frame_interval),
            r.notice@ == "searching"@,
            r.revision == 0,
    {
        LiveSession {
            interactive,
            settings: Settings {
                constraints,
                saved_simulation_limit: constraints.simulation_limit,
                saved_time_limit: constraints.time_limit,
                frame_interval,
            },
            notice: String::from_str("searching"),
            revision: 0,
        }
    }

    /// Shows a notice.
    pub fn set_notice(&mut self, notice: String)
        ensures
            old(self).noted(notice@, *final(self)),
            final(self).settings == old(self).settings,
    {
        self.notice = notice;
        self.revision = self.revision.wrapping_add(1);
    }

    /// Switches the limits on simulations and time off, or on again.
    pub fn toggle_resource_limits<K: Arithmetic>(&mut self, k: &K)
        ensures
            old(self).after_effect(k, KeyEffect::ToggleLimits, *final(self)),
    {
        if self.settings.constraints.hard_limits_disabled() {
            self.settings.constraints.simulation_limit = match self.settings.saved_simulation_limit {
                Some(limit) => Some(limit),
                None => SimulationLimit::new(DEFAULT_SIMULATIONS),
            };
            self.settings.constraints.time_limit = self.settings.saved_time_limit;
            let d = self.settings.constraints.describe(k);
            let mut notice = String::from_str("restored ");
            notice.append(d.as_str());
            assert(self.settings.constraints.is_description(k, d@));
            self.set_notice(notice);
        } else {
            self.settings.saved_simulation_limit = self.settings.constraints.simulation_limit;
            self.settings.saved_time_limit = self.settings.constraints.time_limit;
            self.settings.constraints.simulation_limit = None;
            self.settings.constraints.time_limit = None;
            self.set_notice(
                String::from_str("resource caps disabled; other stop constraints remain active"),
            );
        }
    }

    /// Moves the limit on time, or else the one on simulations, by one step.
    pub fn adjust_resource_limit<K: Arithmetic>(&mut self, increase: bool, k: &K)
        ensures
            old(self).after_effect(
                k,
                if increase {
                    KeyEffect::RaiseLimit
                } else {
                    KeyEffect::LowerLimit
                },
                *final(self),
            ),
    {
        match self.settings.constraints.time_limit {
            Some(limit) => {
                let adjusted = if increase {
                    limit.saturating_add(Span::from_millis(TIME_STEP_MS))
                } else {
                    limit.saturating_sub(Span::from_millis(TIME_STEP_MS)).max(
                        Span::from_millis(MIN_TIME_MS),
                    )
                };
                self.settings.constraints.time_limit = Some(adjusted);
                self.settings.saved_time_limit = Some(adjusted);
            },
            None => {
                let current: usize = match self.settings.constraints.simulation_limit {
                    Some(limit) => limit.get(),
                    None => DEFAULT_SIMULATIONS,
                };
                let adjusted: usize = if increase {
                    current.saturating_add(SIMULATION_STEP)
                } else if current > SIMULATION_STEP {
                    current - SIMULATION_STEP
                } else {
                    1
                };
                self.settings.constraints.simulation_limit = SimulationLimit::new(adjusted);
                self.settings.saved_simulation_limit = self.settings.constraints.simulation_limit;
            },
        }
        let d = self.settings.constraints.describe(k);
        let mut notice = String::from_str("constraints ");
        notice.append(d.as_str());
        assert(self.settings.constraints.is_description(k, d@));
        self.set_notice(notice);
    }

    /// Moves the time between frames by one step.
    pub fn adjust_frame_interval<K: Arithmetic>(&mut self, increase: bool, k: &K)
        ensures
            old(self).after_effect(
                k,
                if increase {
                    KeyEffect::SlowFrames
                } else {
                    KeyEffect::FastFrames
                },
                *final(self),
            ),
    {
        self.settings.frame_interval = if increase {
            self.settings.frame_interval.saturating_add(Span::from_millis(FRAME_STEP_MS))
        } else {
            self.settings.frame_interval.saturating_sub(Span::from_millis(FRAME_STEP_MS)).max(
                Span::from_millis(MIN_FRAME_MS),
            )
        };
        let d = millis_text(k, self.settings.frame_interval, 0);
        let mut notice = String::from_str("refresh interval ");
        notice.append(d.as_str());
        notice.append(" ms");
        assert(shows(k, millis(self.settings.frame_interval), 0, d@));
        self.set_notice(notice);
    }

    /// Takes in a key and returns what it asks of the search.
    pub fn handle_key<K: Arithmetic>(&mut self, key: Key, k: &K) -> (r: LiveCommand)
        ensures
            r == command_of(key),
            old(self).after_effect(k, effect_of(key), *final(self)),
    {
        match key_effect(key) {
            KeyEffect::Nothing => {},
            KeyEffect::ActNow => {
                self.set_notice(String::from_str("acting now with current best"));
            },
            KeyEffect::ToggleLimits => {
                self.toggle_resource_limits(k);
            },
            KeyEffect::RaiseLimit => {
                self.adjust_resource_limit(true, k);
            },
            KeyEffect::LowerLimit => {
                self.adjust_resource_limit(false, k);
            },
            KeyEffect::SlowFrames => {
                self.adjust_frame_interval(true, k);
            },
            KeyEffect::FastFrames => {
                self.adjust_frame_interval(false, k);
            },
        }
        key_command(key)
    }
}

/// No key touches the least value of a sample, and none lets the limits or the time
/// between frames fall below their smallest values once they are above them.
pub proof fn law_keys_keep_bounds<K: Arithmetic>(k: &K, before: LiveSession, key: Key, after: LiveSession)
    requires
        before.after_effect(k, effect_of(key), after),
    ensures
        after.settings.constraints.min_voc == before.settings.constraints.min_voc,
        after.interactive == before.interactive,
        before.settings.frame_interval.nanos >= 10_000_000
            ==> after.settings.frame_interval.nanos >= 10_000_000,
        (before.settings.constraints.time_limit matches Some(t) ==> t.nanos >= 10_000_000) && (
        before.settings.saved_time_limit matches Some(t) ==> t.nanos >= 10_000_000) ==> (
        after.settings.constraints.time_limit matches Some(t) ==> t.nanos >= 10_000_000),
{
}

/// Switching the limits off and on again brings them back, where the simulations were
/// limited.
pub proof fn law_toggle_twice_restores(a: Settings, b: Settings, c: Settings)
    requires
        a.constraints.simulation_limit is Some,
        a.toggled(b),
        b.toggled(c),
    ensures
        b.constraints.uncapped(),
        c.constraints == a.constraints,
        c.frame_interval == a.frame_interval,
{
}

/// Raising the limit on time and lowering it again brings it back, where the limit is
/// not below the smallest one and the raised one is not longer than the longest span.
pub proof fn law_raise_then_lower_restores(a: Settings, b: Settings, c: Settings, limit: Span)
    requires
        a.constraints.time_limit == Some(limit),
        10_000_000 <= limit.nanos,
        limit.nanos + 50_000_000 <= MAX_NANOS,
        a.adjusted(true, b),
        b.adjusted(false, c),
    ensures
        b.constraints.time_limit == Some(Span { nanos: (limit.nanos + 50_000_000) as u128 }),
        c.constraints == a.constraints,
{
}

/// Without a limit on time, raising the limit on simulations and lowering it again brings
/// it back, where the raised one fits.
pub proof fn law_more_then_fewer_restores(a: Settings, b: Settings, c: Settings, limit: SimulationLimit)
    requires
        a.constraints.time_limit is None,
        a.constraints.simulation_limit == Some(limit),
        limit.size() > 0,
        limit.size() + SIMULATION_STEP <= usize::MAX,
        a.adjusted(true, b),
        b.adjusted(false, c),
    ensures
        is_limit(b.constraints.simulation_limit, limit.size() + SIMULATION_STEP),
        is_limit(c.constraints.simulation_limit, limit.size() as int),
        c.constraints.time_limit is None,
{
}

/// Lowering the time between frames and raising it again brings it back, where it stays
/// above the smallest one.
pub proof fn law_faster_then_slower_restores(a: Settings, b: Settings, c: Settings)
    requires
        20_000_000 <= a.frame_interval.nanos <= MAX_NANOS,
        a.paced(false, b),
        b.paced(true, c),
    ensures
        c == a,
{
}

/// A key with a command of its own leaves the settings as they are.
pub proof fn law_commands_keep_settings<K: Arithmetic>(k: &K, before: LiveSession, key: Key, after: LiveSession)
    requires
        before.after_effect(k, effect_of(key), after),
        command_of(key) != LiveCommand::Continue,
    ensures
        after.settings == before.settings,
{
}

} // verus!
