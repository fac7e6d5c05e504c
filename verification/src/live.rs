//! One search for a move, step by step. A caller with a clock, a keyboard and a screen
//! drives it: it asks what is due, does that, and hands back what came of it.

use crate::arith::{evaluates, Arithmetic};
use crate::board::{Board, Dir};
use crate::double::{last_greatest, Double};
use crate::estimate::RewardTransform;
use crate::figures::{fixed_text, is_fixed, shows};
use crate::limits::SearchConstraints;
use crate::search::{
    is_best_move, lemma_searched_one_more, searched, simulate, simulated, SearchCfg,
};
use crate::select::all_sampled;
use crate::session::{command_of, effect_of, Key, LiveCommand, LiveSession};
use crate::snapshot::{is_max_voc, is_snapshot, max_exact_voc, snapshot_root, RootSnapshot};
use crate::span::{Span, MAX_NANOS};
use crate::tree::{edge_fits, is_fresh, lemma_fresh_is_wf, means, sampled_at_least, Node};
use crate::turns::{law_playable_scores_fit, lemma_stuck_iff_none_listed};
use rand::rngs::SmallRng;
use vstd::prelude::*;

verus! {

/// The time between two looks at the keyboard, in milliseconds of search.
pub const INPUT_POLL_MS: u64 = 5;

/// `r` is the first of the times `due + interval`, `due + 2 * interval`, and so on, that
/// lies after `now`.
pub open spec fn is_next_due(due: Span, interval: Span, now: Span, r: Span) -> bool {
    exists|m: nat| #[trigger] due_after(due, interval, m) == r.nanos && m >= 1 && now.nanos < r.nanos && (m
        == 1 || r.nanos - interval.nanos <= now.nanos)
}

/// The time `m` intervals after `due`.
pub open spec fn due_after(due: Span, interval: Span, m: nat) -> int {
    due.nanos + m * interval.nanos
}

/// The next time at which something is due that happens at an interval; times that were
/// missed are skipped.
pub fn next_due(due: Span, interval: Span, now: Span) -> (r: Span)
    requires
        interval.nanos > 0,
        due.nanos + interval.nanos <= MAX_NANOS,
        now.nanos + interval.nanos <= MAX_NANOS,
    ensures
        is_next_due(due, interval, now, r),
        r.nanos <= MAX_NANOS,
{
    let mut following = Span { nanos: due.nanos + interval.nanos };
    let ghost mut m: nat = 1;
    assert(due_after(due, interval, 1) == following.nanos) by (nonlinear_arith)
        requires
            following.nanos == due.nanos + interval.nanos,
            due_after(due, interval, 1) == due.nanos + 1nat * interval.nanos,
    ;
    while following.nanos <= now.nanos
        invariant
            interval.nanos > 0,
            due.nanos + interval.nanos <= MAX_NANOS,
            now.nanos + interval.nanos <= MAX_NANOS,
            m >= 1,
            due_after(due, interval, m) == following.nanos,
            following.nanos <= MAX_NANOS,
            m == 1 || following.nanos - interval.nanos <= now.nanos,
        decreases MAX_NANOS - following.nanos,
    {
        let ghost before = following;
        following = Span { nanos: following.nanos + interval.nanos };
        proof {
            let i = interval.nanos as int;
            let k = m as int;
            assert((k + 1) * i == k * i + i) by (nonlinear_arith);
            m = m + 1;
        }
    }
    following
}

/// What a search does next after a look at the keyboard.
#[derive(Clone, Copy, Debug, PartialEq, Eq, Structural)]
pub enum Flow {
    /// The search goes on.
    Go,
    /// The search ends and its move is played.
    Stop,
    /// The game ends.
    Quit,
}

/// Where a search stands between two looks at the clock.
#[derive(Clone, Copy, Debug, PartialEq, Eq, Structural)]
pub enum Phase {
    /// It looks at the keyboard next, if that is due.
    Keys,
    /// It looks at its limits next, and simulates once where none is reached.
    Limits,
    /// It draws a frame next, if one is due.
    Frames,
    /// It has ended.
    Ended,
}

/// What a search asks of its caller.
#[derive(Clone, Copy, Debug, PartialEq, Eq, Structural)]
pub enum Action {
    /// To look at the clock and take the next step.
    Again,
    /// To hand over the keys that were pressed.
    PollKeys,
    /// To draw a frame.
    DrawFrame,
    /// To end it.
    Finish,
}

/// A search in progress. Times count from its start; `excluded` is the time that went
/// to the keyboard and the screen, and what is left of the elapsed time is the time of
/// the search. In a live search the session holds the constraints.
pub struct SearchRun {
    pub phase: Phase,
    pub root: Node,
    pub active: SearchConstraints,
    pub excluded: Span,
    pub sims_done: u32,
    pub next_frame: Option<Span>,
    pub next_input: Option<Span>,
    pub last_rendered: Option<(u32, u64)>,
    pub selected: Option<Dir>,
    pub stopped_by_voc: bool,
    pub session: Option<LiveSession>,
}

/// What a search came to.
pub struct SearchOutcome {
    pub dir: Dir,
    pub root: RootSnapshot,
    pub constraints: SearchConstraints,
    pub simulations: u32,
    pub compute_elapsed: Span,
    pub wall_elapsed: Span,
    pub excluded_overhead: Span,
    pub stopped_by_voc: bool,
    pub max_voc: Double,
}

/// Enough is known of the moves to value another sample: there is one at most, or all
/// have three samples.
pub open spec fn bootstrapped(root: Node) -> bool {
    root.edges@.len() <= 1 || sampled_at_least(root.edges@, 3)
}

/// The notice of a session in a search: unchanged where there is none.
pub open spec fn session_noted(
    before: Option<LiveSession>,
    notice: Seq<char>,
    after: Option<LiveSession>,
) -> bool {
    match (before, after) {
        (Some(s), Some(t)) => s.noted(notice, t) && t.settings == s.settings,
        (None, None) => true,
        _ => false,
    }
}

impl SearchRun {
    /// The time of the search, out of the elapsed time.
    pub open spec fn compute_time(self, wall: Span) -> Span {
        wall.minus(self.excluded)
    }

    /// The state of a search is in order: its tree is, has a move, and has one sample for
    /// each simulation; frames are due in a live search only, and keys where there is a
    /// keyboard.
    pub open spec fn wf(self) -> bool {
        &&& self.root.wf()
        &&& self.root.edges@.len() > 0
        &&& self.root.visits == self.sims_done
        &&& self.next_frame is Some <==> self.session is Some
        &&& self.next_input is Some ==> (self.session matches Some(s) && s.interactive)
        &&& self.session matches Some(s) ==> s.settings.frame_interval.nanos > 0
        &&& self.selected matches Some(d) ==> self.root.board.legal(d)
    }

    /// The tree is what the simulations so far made of the board, with the generator
    /// `origin`, which is `now` after them.
    pub open spec fn on_course<K: Arithmetic>(
        self,
        k: &K,
        cfg: SearchCfg,
        origin: SmallRng,
        now: SmallRng,
    ) -> bool {
        searched(k, cfg, self.root.board, self.sims_done as nat, self.root, origin, now)
    }

    /// Everything but the session, the keyboard and the clock is as before.
    pub open spec fn same_search(self, other: SearchRun) -> bool {
        &&& self.root == other.root
        &&& self.sims_done == other.sims_done
        &&& self.last_rendered == other.last_rendered
        &&& self.stopped_by_voc == other.stopped_by_voc
    }

    /// Starts the search of a board, if it has a legal move. A live search goes by the
    /// constraints of its session.
    pub fn start(
        board: Board,
        constraints: SearchConstraints,
        session: Option<LiveSession>,
    ) -> (r: Option<SearchRun>)
        requires
            board.playable(),
            session matches Some(s) ==> s.settings.frame_interval.nanos > 0,
        ensures
            match r {
                None => board.stuck(),
                Some(run) => {
                    &&& !board.stuck()
                    &&& run.wf()
                    &&& run.phase == Phase::Keys
                    &&& is_fresh(run.root, board)
                    &&& run.excluded == (Span { nanos: 0 })
                    &&& run.sims_done == 0
                    &&& run.last_rendered is None
                    &&& run.selected is None
                    &&& !run.stopped_by_voc
                    &&& session_noted(session, "searching"@, run.session)
                    &&& match session {
                        Some(s) => {
                            &&& run.active == s.settings.constraints
                            &&& run.next_frame == Some(s.settings.frame_interval)
                            &&& run.next_input == (if s.interactive {
                                Some(Span { nanos: 0 })
                            } else {
                                None
                            })
                        },
                        None => run.active == constraints && run.next_frame is None && run.next_input is None,
                    }
                },
            },
    {
        proof {
            law_playable_scores_fit(board);
            lemma_stuck_iff_none_listed(board);
        }
        let root = Node::new(board);
        if root.terminal() {
            return None;
        }
        proof {
            lemma_fresh_is_wf(root, board);
        }
        let zero = Span { nanos: 0 };
        match session {
            Some(s) => {
                let mut noted = s;
                noted.set_notice(String::from_str("searching"));
                let settings = noted.settings;
                let interactive = noted.interactive;
                Some(
                    SearchRun {
                        phase: Phase::Keys,
                        root,
                        active: settings.constraints,
                        excluded: zero,
                        sims_done: 0,
                        next_frame: Some(settings.frame_interval),
                        next_input: if interactive {
                            Some(zero)
                        } else {
                            None
                        },
                        last_rendered: None,
                        selected: None,
                        stopped_by_voc: false,
                        session: Some(noted),
                    },
                )
            },
            None => Some(
                SearchRun {
                    phase: Phase::Keys,
                    root,
                    active: constraints,
                    excluded: zero,
                    sims_done: 0,
                    next_frame: None,
                    next_input: None,
                    last_rendered: None,
                    selected: None,
                    stopped_by_voc: false,
                    session: None,
                },
            ),
        }
    }

    /// A look at the keyboard is due.
    pub open spec fn input_is_due(self, wall: Span) -> bool {
        self.next_input matches Some(due) && due.nanos <= self.compute_time(wall).nanos
    }

    /// A frame is due.
    pub open spec fn frame_is_due(self, wall: Span) -> bool {
        self.next_frame matches Some(due) && due.nanos <= self.compute_time(wall).nanos
    }

    /// Whether a look at the keyboard is due.
    fn input_due(&self, wall: Span) -> (r: bool)
        ensures
            r == self.input_is_due(wall),
    {
        match self.next_input {
            Some(due) => due.nanos <= wall.saturating_sub(self.excluded).nanos,
            None => false,
        }
    }

    /// Whether a frame is due.
    fn frame_due(&self, wall: Span) -> (r: bool)
        ensures
            r == self.frame_is_due(wall),
    {
        match self.next_frame {
            Some(due) => due.nanos <= wall.saturating_sub(self.excluded).nanos,
            None => false,
        }
    }

    /// Whether a direction is a move of the root.
    pub fn can_move(&self, dir: Dir) -> (r: bool)
        requires
            self.wf(),
        ensures
            r == self.root.board.legal(dir),
    {
        proof {
            lemma_stuck_iff_none_listed(self.root.board);
        }
        for i in 0..self.root.edges.len()
            invariant
                self.wf(),
                forall|j: int| 0 <= j < i ==> (#[trigger] self.root.edges@[j]).dir != dir,
        {
            assert(edge_fits(
                self.root.edges@[i as int],
                self.root.board,
                self.root.board.legal_dirs()[i as int],
            ));
            if self.root.edges[i].dir == dir {
                return true;
            }
        }
        proof {
            if self.root.board.legal(dir) {
                let dirs = self.root.board.legal_dirs();
                let j = choose|j: int| 0 <= j < dirs.len() && dirs[j] == dir;
                assert(edge_fits(self.root.edges@[j], self.root.board, dirs[j]));
                assert(self.root.edges@[j].dir == dir);
            }
        }
        false
    }

    /// The time between the frames of a live search.
    pub fn frame_interval(&self) -> (r: Option<Span>)
        ensures
            r == (match self.session {
                Some(s) => Some(s.settings.frame_interval),
                None => None,
            }),
    {
        match &self.session {
            Some(s) => Some(s.settings.frame_interval),
            None => None,
        }
    }

    /// Hands a key to the session of a live search, and returns what it asks.
    pub fn handle_key<K: Arithmetic>(&mut self, key: Key, k: &K) -> (r: LiveCommand)
        requires
            old(self).wf(),
            old(self).session is Some,
        ensures
            final(self).wf(),
            r == command_of(key),
            *final(self) == (SearchRun { session: final(self).session, ..*old(self) }),
            final(self).session is Some,
            old(self).session->0.after_effect(k, effect_of(key), final(self).session->0),
    {
        let mut taken: Option<LiveSession> = None;
        std::mem::swap(&mut taken, &mut self.session);
        match taken {
            Some(s) => {
                let mut t = s;
                let command = t.handle_key(key, k);
                self.session = Some(t);
                command
            },
            None => LiveCommand::Continue,
        }
    }

    /// What the search does after a command.
    pub open spec fn flow_of(self, command: LiveCommand) -> Flow {
        match command {
            LiveCommand::Continue => Flow::Go,
            LiveCommand::ActBest => Flow::Stop,
            LiveCommand::Force(dir) => if self.root.board.legal(dir) {
                Flow::Stop
            } else {
                Flow::Go
            },
            LiveCommand::Quit => Flow::Quit,
        }
    }

    /// Takes in the command of a look at the keyboard that began at `wall` and took
    /// `overhead`. The keys have gone to the session before; `old_frame` is the time
    /// between frames before them.
    pub fn take_command(
        &mut self,
        wall: Span,
        old_frame: Span,
        overhead: Span,
        command: LiveCommand,
    ) -> (r: Flow)
        requires
            old(self).wf(),
            old(self).phase == Phase::Keys,
            old(self).input_is_due(wall),
            old(self).excluded.nanos + overhead.nanos <= MAX_NANOS,
            old(self).compute_time(wall).nanos + INPUT_POLL_MS * 1_000_000 <= MAX_NANOS,
            old(self).session matches Some(s) ==> old_frame != s.settings.frame_interval
                ==> old(self).compute_time(wall).nanos + s.settings.frame_interval.nanos <= MAX_NANOS,
        ensures
            final(self).wf(),
            final(self).same_search(*old(self)),
            r == old(self).flow_of(command),
            final(self).phase == (if r == Flow::Go {
                Phase::Limits
            } else {
                Phase::Ended
            }),
            old(self).session matches Some(s) && {
                &&& final(self).active == s.settings.constraints
                &&& final(self).next_frame == (if old_frame != s.settings.frame_interval {
                    Some(
                        Span {
                            nanos: (old(self).compute_time(wall).nanos
                                + s.settings.frame_interval.nanos) as u128,
                        },
                    )
                } else {
                    old(self).next_frame
                })
            },
            final(self).excluded.nanos == old(self).excluded.nanos + overhead.nanos,
            final(self).next_input is Some,
            is_next_due(
                old(self).next_input->0,
                Span::from_millis(INPUT_POLL_MS),
                old(self).compute_time(wall),
                final(self).next_input->0,
            ),
            final(self).selected == (match command {
                LiveCommand::Force(dir) if old(self).root.board.legal(dir) => Some(dir),
                _ => old(self).selected,
            }),
            match command {
                LiveCommand::Force(dir) => if old(self).root.board.legal(dir) {
                    session_noted(
                        old(self).session,
                        "forcing "@.push(dir.arrow()),
                        final(self).session,
                    )
                } else {
                    session_noted(
                        old(self).session,
                        "ignored: "@.push(dir.arrow()) + " is illegal"@,
                        final(self).session,
                    )
                },
                _ => final(self).session == old(self).session,
            },
    {
        let now = wall.saturating_sub(self.excluded);
        let due = match self.next_input {
            Some(d) => d,
            None => now,
        };
        match &self.session {
            Some(s) => {
                self.active = s.settings.constraints;
                if old_frame != s.settings.frame_interval {
                    self.next_frame = Some(
                        Span { nanos: now.nanos + s.settings.frame_interval.nanos },
                    );
                }
            },
            None => {},
        }
        self.excluded = Span { nanos: self.excluded.nanos + overhead.nanos };
        self.next_input = Some(next_due(due, Span::from_millis(INPUT_POLL_MS), now));
        self.phase = Phase::Ended;
        match command {
            LiveCommand::Continue => {
                self.phase = Phase::Limits;
                Flow::Go
            },
            LiveCommand::ActBest => Flow::Stop,
            LiveCommand::Force(dir) => {
                if self.can_move(dir) {
                    let mut notice = String::from_str("forcing ");
                    notice.push(dir.symbol());
                    self.note(notice);
                    self.selected = Some(dir);
                    Flow::Stop
                } else {
                    let mut notice = String::from_str("ignored: ");
                    notice.push(dir.symbol());
                    notice.append(" is illegal");
                    self.note(notice);
                    self.phase = Phase::Limits;
                    Flow::Go
                }
            },
            LiveCommand::Quit => Flow::Quit,
        }
    }

    /// Shows a notice, where there is a session to show it.
    fn note(&mut self, notice: String)
        ensures
            session_noted(old(self).session, notice@, final(self).session),
            *final(self) == (SearchRun { session: final(self).session, ..*old(self) }),
    {
        let mut taken: Option<LiveSession> = None;
        std::mem::swap(&mut taken, &mut self.session);
        match taken {
            Some(s) => {
                let mut t = s;
                t.set_notice(notice);
                self.session = Some(t);
            },
            None => {},
        }
    }

    /// The search ends because its simulations or its time are used up.
    pub open spec fn exhausted(self, wall: Span) -> bool {
        self.active.out_of_simulations(self.sims_done) || self.active.out_of_time(
            self.compute_time(wall),
        )
    }

    /// The number of simulations can grow in a step that may simulate.
    pub open spec fn can_step(self, wall: Span) -> bool {
        self.phase == Phase::Limits ==> self.sims_done < u32::MAX || self.exhausted(wall)
    }

    /// `max` is the greatest value of another sample, and `min` the least value that is
    /// worth one, in the units of the returns.
    pub open spec fn voc_against<K: Arithmetic>(
        self,
        k: &K,
        cfg: SearchCfg,
        max: Double,
        min: Double,
    ) -> bool {
        &&& is_max_voc(k, self.root, max)
        &&& self.active.min_voc matches Some(m) && evaluates(
            k,
            cfg.reward_transform.observed_units(m),
            min,
        )
    }

    /// `stop` is whether the search ends before its next simulation, and `after` is the
    /// search then: each constraint in force ends it on its own, and the value of another
    /// sample counts from three samples of each move on.
    pub open spec fn decides<K: Arithmetic>(
        self,
        k: &K,
        cfg: SearchCfg,
        wall: Span,
        stop: bool,
        after: SearchRun,
    ) -> bool {
        if self.exhausted(wall) {
            stop && after == self
        } else if self.active.min_voc is None || !bootstrapped(self.root) {
            !stop && after == self
        } else {
            exists|max: Double, min: Double|
                {
                    &&& #[trigger] self.voc_against(k, cfg, max, min)
                    &&& stop == max.at_most(min)
                    &&& !stop ==> after == self
                    &&& stop ==> after == (SearchRun {
                        stopped_by_voc: true,
                        session: after.session,
                        ..self
                    }) && exists|text: Seq<char>| #[trigger]
                        is_voc_notice(k, cfg.reward_transform, max, self.active.min_voc->0, text)
                            && session_noted(self.session, text, after.session)
                }
        }
    }

    fn should_stop<K: Arithmetic>(&mut self, wall: Span, cfg: &SearchCfg, k: &K) -> (r: bool)
        requires
            old(self).wf(),
        ensures
            final(self).wf(),
            old(self).decides(k, *cfg, wall, r, *final(self)),
    {
        let now = wall.saturating_sub(self.excluded);
        if self.active.simulation_exhausted(self.sims_done) || self.active.time_exhausted(now) {
            return true;
        }
        match self.active.min_voc {
            Some(min_voc) => {
                if self.root.edges.len() <= 1 || all_sampled(&self.root.edges, 3) {
                    let max = max_exact_voc(&self.root, k);
                    let min = cfg.reward_transform.to_observed_units(k, min_voc);
                    assert(self.voc_against(k, *cfg, max, min));
                    if max.le(min) {
                        self.stopped_by_voc = true;
                        let text = voc_notice(k, cfg.reward_transform, max, min_voc);
                        self.note(text);
                        return true;
                    }
                }
                false
            },
            None => false,
        }
    }

    fn simulate_once<K: Arithmetic>(&mut self, cfg: &SearchCfg, k: &K, rng: &mut SmallRng)
        requires
            old(self).wf(),
            old(self).sims_done < u32::MAX,
        ensures
            final(self).wf(),
            final(self).sims_done == old(self).sims_done + 1,
            exists|total: u64| #[trigger]
                simulated(
                    k,
                    *cfg,
                    old(self).root,
                    final(self).root,
                    total,
                    *old(rng),
                    *final(rng),
                ),
            *final(self) == (SearchRun {
                root: final(self).root,
                sims_done: final(self).sims_done,
                ..*old(self)
            }),
            forall|origin: SmallRng| #[trigger]
                old(self).on_course(k, *cfg, origin, *old(rng)) ==> final(self).on_course(
                    k,
                    *cfg,
                    origin,
                    *final(rng),
                ),
    {
        let ghost before = self.root;
        let ghost done = self.sims_done;
        let ghost middle = *rng;
        let total = simulate(&mut self.root, cfg, k, rng);
        self.sims_done = self.sims_done + 1;
        proof {
            assert(simulated(k, *cfg, before, self.root, total, middle, *rng));
            assert forall|origin: SmallRng|
                searched(k, *cfg, before.board, done as nat, before, origin, middle) implies searched(
                k,
                *cfg,
                before.board,
                done as nat + 1,
                self.root,
                origin,
                *rng,
            ) by {
                lemma_searched_one_more(
                    k,
                    *cfg,
                    before.board,
                    done as nat,
                    before,
                    self.root,
                    total,
                    origin,
                    middle,
                    *rng,
                );
            }
        }
    }

    /// One step of the search at a time, with the generator `start`, which is `end` then:
    /// it asks for keys or for a frame where they are due, and otherwise goes on to the
    /// next thing it does; between two frames it looks at its limits and simulates once,
    /// or ends. Only a simulation draws from the generator.
    pub open spec fn stepped<K: Arithmetic>(
        self,
        k: &K,
        cfg: SearchCfg,
        wall: Span,
        action: Action,
        after: SearchRun,
        start: SmallRng,
        end: SmallRng,
    ) -> bool {
        match self.phase {
            Phase::Keys => end == start && if self.input_is_due(wall) {
                action == Action::PollKeys && after == self
            } else {
                action == Action::Again && after == (SearchRun { phase: Phase::Limits, ..self })
            },
            Phase::Limits => exists|stop: bool, mid: SearchRun|
                {
                    &&& #[trigger] self.decides(k, cfg, wall, stop, mid)
                    &&& if stop {
                        &&& action == Action::Finish
                        &&& after == (SearchRun { phase: Phase::Ended, ..mid })
                        &&& end == start
                    } else {
                        &&& action == Action::Again
                        &&& after == (SearchRun {
                            phase: Phase::Frames,
                            root: after.root,
                            sims_done: (self.sims_done + 1) as u32,
                            ..self
                        })
                        &&& exists|total: u64| #[trigger]
                            simulated(k, cfg, self.root, after.root, total, start, end)
                    }
                },
            Phase::Frames => end == start && if self.frame_is_due(wall) {
                action == Action::DrawFrame && after == self
            } else {
                action == Action::Again && after == (SearchRun { phase: Phase::Keys, ..self })
            },
            Phase::Ended => action == Action::Finish && after == self && end == start,
        }
    }

    /// Takes one step of the search at a time.
    pub fn step<K: Arithmetic>(
        &mut self,
        wall: Span,
        cfg: &SearchCfg,
        k: &K,
        rng: &mut SmallRng,
    ) -> (r: Action)
        requires
            old(self).wf(),
            old(self).can_step(wall),
        ensures
            final(self).wf(),
            old(self).stepped(k, *cfg, wall, r, *final(self), *old(rng), *final(rng)),
            final(self).sims_done == old(self).sims_done ==> *final(rng) == *old(rng),
            forall|origin: SmallRng| #[trigger]
                old(self).on_course(k, *cfg, origin, *old(rng)) ==> final(self).on_course(
                    k,
                    *cfg,
                    origin,
                    *final(rng),
                ),
    {
        let ghost first = *self;
        match self.phase {
            Phase::Keys => {
                if self.input_due(wall) {
                    return Action::PollKeys;
                }
                self.phase = Phase::Limits;
                Action::Again
            },
            Phase::Limits => {
                let stop = self.should_stop(wall, cfg, k);
                let ghost mid = *self;
                assert(first.decides(k, *cfg, wall, stop, mid));
                if stop {
                    self.phase = Phase::Ended;
                    return Action::Finish;
                }
                self.simulate_once(cfg, k, rng);
                self.phase = Phase::Frames;
                Action::Again
            },
            Phase::Frames => {
                if self.frame_due(wall) {
                    return Action::DrawFrame;
                }
                self.phase = Phase::Keys;
                Action::Again
            },
            Phase::Ended => Action::Finish,
        }
    }

    /// The state of the root.
    pub fn snapshot<K: Arithmetic>(&self, k: &K) -> (r: RootSnapshot)
        requires
            self.wf(),
        ensures
            is_snapshot(k, self.root, r),
    {
        snapshot_root(&self.root, k)
    }

    /// Takes in that a frame that was due at `wall` was drawn, which took `overhead`.
    pub fn frame_drawn(&mut self, wall: Span, overhead: Span)
        requires
            old(self).wf(),
            old(self).phase == Phase::Frames,
            old(self).frame_is_due(wall),
            old(self).excluded.nanos + overhead.nanos <= MAX_NANOS,
            old(self).session matches Some(s) ==> old(self).compute_time(wall).nanos
                + s.settings.frame_interval.nanos <= MAX_NANOS,
        ensures
            final(self).wf(),
            old(self).session matches Some(s) && final(self).last_rendered == Some(
                (old(self).sims_done, s.revision),
            ) && final(self).next_frame is Some && is_next_due(
                old(self).next_frame->0,
                s.settings.frame_interval,
                old(self).compute_time(wall),
                final(self).next_frame->0,
            ),
            final(self).excluded.nanos == old(self).excluded.nanos + overhead.nanos,
            *final(self) == (SearchRun {
                phase: Phase::Keys,
                excluded: final(self).excluded,
                last_rendered: final(self).last_rendered,
                next_frame: final(self).next_frame,
                ..*old(self)
            }),
    {
        let now = wall.saturating_sub(self.excluded);
        match &self.session {
            Some(s) => {
                let due = match self.next_frame {
                    Some(d) => d,
                    None => now,
                };
                self.last_rendered = Some((self.sims_done, s.revision));
                self.next_frame = Some(next_due(due, s.settings.frame_interval, now));
            },
            None => {},
        }
        self.excluded = Span { nanos: self.excluded.nanos + overhead.nanos };
        self.phase = Phase::Keys;
    }

    /// A last frame is due: the one shown is not of the last simulation and notice.
    pub open spec fn last_frame_is_due(self) -> bool {
        self.session matches Some(s) && self.last_rendered != Some((self.sims_done, s.revision))
    }

    /// Whether a last frame is due.
    pub fn last_frame_due(&self) -> (r: bool)
        ensures
            r == self.last_frame_is_due(),
    {
        match &self.session {
            Some(s) => match self.last_rendered {
                Some((sims, revision)) => sims != self.sims_done || revision != s.revision,
                None => true,
            },
            None => false,
        }
    }

    /// Ends the search: `wall` is when it stopped, `end` is now, and `overhead` is what the
    /// last frame took.
    pub fn finish<K: Arithmetic>(
        self,
        snapshot: RootSnapshot,
        wall: Span,
        overhead: Span,
        end: Span,
        cfg: &SearchCfg,
        k: &K,
    ) -> (r: (SearchOutcome, Option<LiveSession>))
        requires
            self.wf(),
            is_snapshot(k, self.root, snapshot),
            self.excluded.nanos + overhead.nanos <= MAX_NANOS,
        ensures
            r.0.dir == (match self.selected {
                Some(dir) => dir,
                None => snapshot.best_dir,
            }),
            self.root.board.legal(r.0.dir),
            r.0.root == snapshot,
            r.0.root.total_samples == r.0.simulations,
            r.0.constraints == self.active,
            r.0.simulations == self.sims_done,
            r.0.compute_elapsed == self.compute_time(wall),
            r.0.wall_elapsed == end,
            r.0.excluded_overhead.nanos == self.excluded.nanos + overhead.nanos,
            r.0.stopped_by_voc == self.stopped_by_voc,
            exists|max: Double| #[trigger]
                is_max_voc(k, self.root, max) && evaluates(
                    k,
                    cfg.reward_transform.score_units(max),
                    r.0.max_voc,
                ),
            r.1 == self.session,
    {
        let max = max_exact_voc(&self.root, k);
        let max_voc = cfg.reward_transform.to_score_units(k, max);
        let dir = match self.selected {
            Some(d) => d,
            None => snapshot.best_dir,
        };
        proof {
            let i = choose|i: int|
                #[trigger] last_greatest(means(self.root.edges@), i) && self.root.edges@[i].dir
                    == snapshot.best_dir;
            assert(edge_fits(
                self.root.edges@[i],
                self.root.board,
                self.root.board.legal_dirs()[i],
            ));
        }
        (
            SearchOutcome {
                dir,
                root: snapshot,
                constraints: self.active,
                simulations: self.sims_done,
                compute_elapsed: wall.saturating_sub(self.excluded),
                wall_elapsed: end,
                excluded_overhead: Span { nanos: self.excluded.nanos + overhead.nanos },
                stopped_by_voc: self.stopped_by_voc,
                max_voc,
            },
            self.session,
        )
    }
}

/// `text` says that the search ended for want of value, both figures in score units.
pub open spec fn is_voc_notice<K: Arithmetic>(
    k: &K,
    transform: RewardTransform,
    max: Double,
    min_voc: Double,
    text: Seq<char>,
) -> bool {
    exists|a: Seq<char>, b: Seq<char>|
        {
            &&& #[trigger] shows(k, transform.score_units(max), 4, a)
            &&& #[trigger] is_fixed(k, min_voc, 4, b)
            &&& text == "VOC stop: max "@ + a + " <= min "@ + b
        }
}

fn voc_notice<K: Arithmetic>(k: &K, transform: RewardTransform, max: Double, min_voc: Double) -> (r: String)
    ensures
        is_voc_notice(k, transform, max, min_voc, r@),
{
    let shown = transform.to_score_units(k, max);
    let a = fixed_text(k, shown, 4);
    let b = fixed_text(k, min_voc, 4);
    assert(shows(k, transform.score_units(max), 4, a@));
    let mut text = String::from_str("VOC stop: max ");
    text.append(a.as_str());
    text.append(" <= min ");
    text.append(b.as_str());
    text
}

/// A search limited in its simulations alone spends them all and no more, however long it
/// takes.
pub proof fn law_fixed_budget_is_spent<K: Arithmetic>(
    k: &K,
    cfg: SearchCfg,
    before: SearchRun,
    wall: Span,
    action: Action,
    after: SearchRun,
    start: SmallRng,
    end: SmallRng,
)
    requires
        before.active.simulation_limit is Some,
        before.active.time_limit is None,
        before.active.min_voc is None,
        before.phase == Phase::Limits,
        before.can_step(wall),
        before.sims_done <= before.active.simulation_limit->0.size(),
        before.stepped(k, cfg, wall, action, after, start, end),
    ensures
        action == Action::Finish <==> before.sims_done == before.active.simulation_limit->0.size(),
        after.sims_done <= before.active.simulation_limit->0.size(),
{
}

/// A search step by step does what [`crate::search::choose_move`] does with as many
/// simulations and the same generator: it comes to a move that this can choose, unless a
/// key forced another, and leaves the generator where this can leave it.
pub proof fn law_steps_match_choose_move<K: Arithmetic>(
    k: &K,
    cfg: SearchCfg,
    run: SearchRun,
    snapshot: RootSnapshot,
    origin: SmallRng,
    now: SmallRng,
)
    requires
        run.on_course(k, cfg, origin, now),
        is_snapshot(k, run.root, snapshot),
    ensures
        exists|root: Node| #[trigger]
            searched(k, cfg, run.root.board, run.sims_done as nat, root, origin, now)
                && is_best_move(root, snapshot.best_dir),
{
    assert(searched(k, cfg, run.root.board, run.sims_done as nat, run.root, origin, now));
}

/// How many more steps a search with a limit on its simulations can ask for before it
/// ends, keys and frames aside.
pub open spec fn steps_left(run: SearchRun, limit: usize) -> int {
    let laps = if run.sims_done < limit {
        limit - run.sims_done
    } else {
        0
    };
    3 * laps + match run.phase {
        Phase::Frames => 2int,
        Phase::Keys => 1,
        _ => 0,
    }
}

/// A search with a limit on its simulations ends: every step that asks to be called again
/// leaves fewer steps to go.
pub proof fn law_limited_search_ends<K: Arithmetic>(
    k: &K,
    cfg: SearchCfg,
    before: SearchRun,
    wall: Span,
    action: Action,
    after: SearchRun,
    start: SmallRng,
    end: SmallRng,
)
    requires
        before.active.simulation_limit is Some,
        before.can_step(wall),
        before.stepped(k, cfg, wall, action, after, start, end),
    ensures
        after.active == before.active,
        action == Action::Again ==> 0 <= steps_left(after, before.active.simulation_limit->0.size())
            < steps_left(before, before.active.simulation_limit->0.size()),
        action == Action::Finish ==> after.phase == Phase::Ended,
{
    let limit = before.active.simulation_limit->0.size();
    if before.phase == Phase::Limits && action == Action::Again {
        assert(!before.exhausted(wall));
    }
}

/// A search without a session asks for neither keys nor frames.
pub proof fn law_unwatched_search_asks_for_nothing<K: Arithmetic>(
    k: &K,
    cfg: SearchCfg,
    before: SearchRun,
    wall: Span,
    action: Action,
    after: SearchRun,
    start: SmallRng,
    end: SmallRng,
)
    requires
        before.wf(),
        before.session is None,
        before.stepped(k, cfg, wall, action, after, start, end),
    ensures
        action == Action::Again || action == Action::Finish,
        after.session is None,
{
}

/// A fresh search is on course.
pub proof fn law_start_is_on_course<K: Arithmetic>(
    k: &K,
    cfg: SearchCfg,
    run: SearchRun,
    origin: SmallRng,
)
    requires
        is_fresh(run.root, run.root.board),
        run.sims_done == 0,
    ensures
        run.on_course(k, cfg, origin, origin),
{
}

/// Frames and looks at the keyboard that were missed are skipped: the next one lies
/// after now, and by no more than its interval where now was past the last one.
pub proof fn law_next_due_is_near(due: Span, interval: Span, now: Span, r: Span)
    requires
        is_next_due(due, interval, now, r),
        due.nanos <= now.nanos,
    ensures
        now.nanos < r.nanos <= now.nanos + interval.nanos,
{
    let m = choose|m: nat| #[trigger] due_after(due, interval, m) == r.nanos && m >= 1 && now.nanos < r.nanos
        && (m == 1 || r.nanos - interval.nanos <= now.nanos);
    if m == 1 {
        assert(due_after(due, interval, 1) == due.nanos + interval.nanos) by (nonlinear_arith)
            requires
                due_after(due, interval, 1) == due.nanos + 1nat * interval.nanos,
        ;
    }
}

/// A search of a lone move that has to be worth a cost does nothing: at its first look at
/// its limits it ends, without a simulation and without a draw.
pub proof fn law_lone_move_is_not_searched<K: Arithmetic>(
    k: &K,
    cfg: SearchCfg,
    before: SearchRun,
    wall: Span,
    action: Action,
    after: SearchRun,
    start: SmallRng,
    end: SmallRng,
)
    requires
        before.phase == Phase::Limits,
        before.root.edges@.len() == 1,
        before.active.min_voc is Some,
        forall|min: Double| #[trigger]
            evaluates(k, cfg.reward_transform.observed_units(before.active.min_voc->0), min)
                ==> Double::zero().at_most(min),
        before.stepped(k, cfg, wall, action, after, start, end),
    ensures
        action == Action::Finish,
        after.sims_done == before.sims_done,
        after.root == before.root,
        before.exhausted(wall) || after.stopped_by_voc,
        end == start,
{
    let (stop, mid) = choose|stop: bool, mid: SearchRun|
        {
            &&& #[trigger] before.decides(k, cfg, wall, stop, mid)
            &&& if stop {
                &&& action == Action::Finish
                &&& after == (SearchRun { phase: Phase::Ended, ..mid })
                &&& end == start
            } else {
                &&& action == Action::Again
                &&& after == (SearchRun {
                    phase: Phase::Frames,
                    root: after.root,
                    sims_done: (before.sims_done + 1) as u32,
                    ..before
                })
                &&& exists|total: u64| #[trigger]
                    simulated(k, cfg, before.root, after.root, total, start, end)
            }
        };
    if !before.exhausted(wall) {
        let (max, min) = choose|max: Double, min: Double|
            {
                &&& #[trigger] before.voc_against(k, cfg, max, min)
                &&& stop == max.at_most(min)
                &&& !stop ==> mid == before
                &&& stop ==> mid == (SearchRun {
                    stopped_by_voc: true,
                    session: mid.session,
                    ..before
                }) && exists|text: Seq<char>| #[trigger]
                    is_voc_notice(k, cfg.reward_transform, max, before.active.min_voc->0, text)
                        && session_noted(before.session, text, mid.session)
            };
        assert(before.voc_against(k, cfg, max, min));
    }
}

} // verus!
