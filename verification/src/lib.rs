//! 2048 played by tree search, and the rules by which a search spends its simulations.
//!
//! - The game: [`line`], [`board`], [`growth`] (what every move keeps), [`turns`].
//! - Numbers: [`double`], [`arith`] (formulas and their operations), [`exact`] (the
//!   formulas in exact arithmetic), [`figures`], [`span`], [`text`].
//! - The search: [`estimate`], [`policy`], [`tree`], [`select`], [`search`], [`snapshot`],
//!   with [`random`] for its generator.
//! - A live search: [`limits`], [`session`], [`live`], [`frame`].
//! - Whole games and benchmarks: [`game`], [`options`], [`jobs`], [`summary`].
//! - What can be repeated: [`steady`] (estimates and choices), [`repeat`] (searches and
//!   games).
//! - Exact arithmetic: [`samples`] (statistics), [`gain`] (the value of a sample), and what
//!   other units of the returns change: [`units`] (estimates), [`rescale`] (choices),
//!   [`invariance`] (searches). What numbers stand for: [`binary`].
//! - What a search does, told without its formulas: [`course`] (positions and random play),
//!   [`credit`] (returns), [`bounds`], [`posterior`], [`outlook`], [`worth`] and [`preference`]
//!   (how moves are chosen), [`verdict`] (when it ends), [`readout`] (what it shows);
//!   [`operations`] has the order in which things are computed.
//! - What is around it: [`slides`] (the board), [`gauges`] (a live search), [`accounts`] (games
//!   and benchmarks), [`acceptance`] (options), [`wording`] (texts).
//! - What callers can rely on: [`promises`] (of the search), [`dealings`] (of the rest).

pub mod acceptance;
pub mod accounts;
pub mod arith;
pub mod binary;
pub mod board;
pub mod bounds;
pub mod course;
pub mod credit;
pub mod dealings;
pub mod double;
pub mod estimate;
pub mod exact;
pub mod figures;
pub mod frame;
pub mod gain;
pub mod game;
pub mod gauges;
pub mod growth;
pub mod invariance;
pub mod jobs;
pub mod limits;
pub mod line;
pub mod live;
pub mod operations;
pub mod options;
pub mod outlook;
pub mod policy;
pub mod posterior;
pub mod preference;
pub mod promises;
pub mod random;
pub mod readout;
pub mod repeat;
pub mod rescale;
pub mod samples;
pub mod search;
pub mod select;
pub mod session;
pub mod slides;
pub mod snapshot;
pub mod span;
pub mod steady;
pub mod summary;
pub mod text;
pub mod tree;
pub mod turns;
pub mod units;
pub mod verdict;
pub mod wording;
pub mod worth;
