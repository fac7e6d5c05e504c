//! The frames of a live search: boards and figures laid out as text.

use crate::arith::{count, evaluates, num, Arithmetic, Formula, Term};
use crate::board::{Board, Dir};
use crate::double::{greatest_above, Double};
use crate::figures::{
    fixed_text, is_fixed, is_rate, millis, millis_text, percent, percent_text, rate_of, shows,
};
use crate::limits::SearchConstraints;
use crate::policy::Policy;
use crate::snapshot::{RootActionSnapshot, RootSnapshot};
use crate::span::Span;
use crate::text::{
    decimal, decimal_text, padded_left, padded_right, push_padded_left, push_repeated, repeated,
};
use vstd::prelude::*;

verus! {

/// The width of the progress bar.
pub const BAR_WIDTH: usize = 24;

/// The character of a tile: a dot for an empty cell, then the exponent as a digit or a
/// letter.
pub open spec fn symbol_of(exp: u8) -> char {
    if exp == 0 {
        '.'
    } else if exp <= 9 {
        (48 + exp) as char
    } else if exp <= 35 {
        (97 + exp - 10) as char
    } else {
        '?'
    }
}

/// The character of a tile.
pub fn tile_symbol(exp: u8) -> (r: char)
    ensures
        r == symbol_of(exp),
{
    if exp == 0 {
        '.'
    } else if exp <= 9 {
        (48 + exp) as char
    } else if exp <= 35 {
        (97 + (exp - 10)) as char
    } else {
        '?'
    }
}

/// A row of the board, its tiles apart by a blank.
pub open spec fn compact_row(b: Board, row: int) -> Seq<char> {
    seq![
        symbol_of(b@[4 * row]),
        ' ',
        symbol_of(b@[4 * row + 1]),
        ' ',
        symbol_of(b@[4 * row + 2]),
        ' ',
        symbol_of(b@[4 * row + 3]),
        '\n',
    ]
}

/// The board, a line for each row.
pub open spec fn compact(b: Board) -> Seq<char> {
    compact_row(b, 0) + compact_row(b, 1) + compact_row(b, 2) + compact_row(b, 3)
}

/// Appends the board, a line for each row.
pub fn write_compact_board(output: &mut String, board: Board)
    ensures
        final(output)@ == old(output)@ + compact(board),
{
    let ghost start = output@;
    let ghost mut done: Seq<char> = seq![];
    assert(start + done =~= start);
    for row in 0..4usize
        invariant
            output@ == start + done,
            row == 0 ==> done == Seq::<char>::empty(),
            row == 1 ==> done == compact_row(board, 0),
            row == 2 ==> done == compact_row(board, 0) + compact_row(board, 1),
            row == 3 ==> done == compact_row(board, 0) + compact_row(board, 1) + compact_row(board, 2),
            row == 4 ==> done == compact(board),
    {
        output.push(tile_symbol(board.0[4 * row]));
        output.push(' ');
        output.push(tile_symbol(board.0[4 * row + 1]));
        output.push(' ');
        output.push(tile_symbol(board.0[4 * row + 2]));
        output.push(' ');
        output.push(tile_symbol(board.0[4 * row + 3]));
        output.push('\n');
        proof {
            let before = done;
            done = done + compact_row(board, row as int);
            assert(output@ =~= start + done);
            if row == 0 {
                assert(done =~= compact_row(board, 0));
            }
        }
    }
}

/// The board, a line for each row.
pub fn compact_text(board: Board) -> (r: String)
    ensures
        r@ == compact(board),
{
    let mut out = String::new();
    write_compact_board(&mut out, board);
    assert(out@ =~= compact(board));
    out
}

/// A bar of which so many steps are filled.
pub open spec fn bar(filled: int) -> Seq<char> {
    let n = if filled > BAR_WIDTH {
        BAR_WIDTH as int
    } else {
        filled
    };
    repeated('=', n) + repeated('-', BAR_WIDTH - n)
}

/// A bar of which so many steps are filled.
pub fn progress_bar(filled: usize) -> (r: String)
    ensures
        r@ == bar(filled as int),
{
    let n: usize = if filled > BAR_WIDTH {
        BAR_WIDTH
    } else {
        filled
    };
    let mut out = String::new();
    push_repeated(&mut out, '=', n);
    push_repeated(&mut out, '-', BAR_WIDTH - n);
    assert(out@ =~= bar(filled as int));
    out
}

/// The label of a direction in the table: its arrow, two characters wide.
pub open spec fn label(dir: Dir) -> Seq<char> {
    padded_right(seq![dir.arrow()], 2)
}

/// The label of a direction in the table: its arrow, two characters wide.
pub fn dir_label(dir: Dir) -> (r: String)
    ensures
        r@ == label(dir),
        r@ == seq![dir.arrow(), ' '],
{
    let mut out = String::new();
    out.push(dir.symbol());
    out.push(' ');
    assert(out@ =~= seq![dir.arrow(), ' ']);
    assert(label(dir) =~= seq![dir.arrow(), ' ']);
    out
}

fn left(s: &str, width: usize) -> (r: String)
    ensures
        r@ == padded_left(s@, width as int),
{
    let mut out = String::new();
    push_padded_left(&mut out, s, width);
    assert(out@ =~= padded_left(s@, width as int));
    out
}

/// The figures of one action, as text.
#[derive(Debug)]
pub struct RowFigures {
    pub share: String,
    pub mean: String,
    pub sd: String,
    pub gap: String,
    pub voc: String,
    pub switch: String,
}

/// The figures of a frame, as text. The bar is there where simulations or time are
/// limited: how many of its steps are filled, and the part in percent.
#[derive(Debug)]
pub struct FrameFigures {
    pub think: String,
    pub bar: Option<(usize, String)>,
    pub rate: String,
    pub time_limit: Option<String>,
    pub voc_limit: Option<String>,
    pub top_gap: String,
    pub best_share: String,
    pub entropy: String,
    pub max_voc: String,
    pub rows: Vec<RowFigures>,
}

/// So many simulations out of a limit.
pub open spec fn of_limit(simulations: u32, limit: usize) -> Formula {
    count(simulations as u64).over(count(limit as u64))
}

/// So much time out of a limit.
pub open spec fn of_time(elapsed: Span, limit: Span) -> Formula {
    Formula::Seconds(elapsed).over(Formula::Seconds(limit))
}

/// `steps` is a part of the bar in steps: `part * width`, rounded.
pub open spec fn is_steps<K: Arithmetic>(k: &K, part: Double, steps: usize) -> bool {
    exists|x: Double|
        evaluates(k, num(part).times(count(BAR_WIDTH as u64)), x) && #[trigger] call_ensures(
            K::to_count,
            (k, x),
            steps,
        )
}

/// `part` is how much of the limits on simulations and time is used up, whichever is
/// more, and nothing where neither is limited.
pub open spec fn is_used_part<K: Arithmetic>(
    k: &K,
    c: SearchConstraints,
    simulations: u32,
    elapsed: Span,
    part: Option<Double>,
) -> bool {
    match (c.simulation_limit, c.time_limit) {
        (None, None) => part is None,
        (Some(l), None) => part matches Some(a) && evaluates(k, of_limit(simulations, l.size()), a),
        (None, Some(t)) => part matches Some(b) && evaluates(k, of_time(elapsed, t), b),
        (Some(l), Some(t)) => exists|a: Double, b: Double|
            {
                &&& #[trigger] evaluates(k, of_limit(simulations, l.size()), a)
                &&& #[trigger] evaluates(k, of_time(elapsed, t), b)
                &&& part == Some(a.larger(b))
            },
    }
}

/// The bar shows the part that is used up, within the unit interval.
pub open spec fn is_bar<K: Arithmetic>(k: &K, part: Option<Double>, shown: Option<(usize, String)>) -> bool {
    match (part, shown) {
        (Some(x), Some((filled, shown))) => is_steps(k, x.clamped(), filled) && shows(
            k,
            percent(x.clamped()),
            0,
            shown@,
        ),
        (None, None) => true,
        _ => false,
    }
}

/// `r` are the figures of an action.
pub open spec fn is_row<K: Arithmetic>(k: &K, a: RootActionSnapshot, r: RowFigures) -> bool {
    &&& shows(k, percent(a.share), 1, r.share@)
    &&& is_fixed(k, a.mean, 1, r.mean@)
    &&& is_fixed(k, a.sd, 1, r.sd@)
    &&& is_fixed(k, a.gap_to_best, 1, r.gap@)
    &&& is_fixed(k, a.voc, 4, r.voc@)
    &&& shows(k, percent(a.switch_prob), 1, r.switch@)
}

/// `g` are the figures of a frame.
pub open spec fn are_figures<K: Arithmetic>(
    k: &K,
    s: RootSnapshot,
    c: SearchConstraints,
    elapsed: Span,
    g: FrameFigures,
) -> bool {
    &&& shows(k, millis(elapsed), 1, g.think@)
    &&& exists|part: Option<Double>|
        #[trigger] is_used_part(k, c, s.total_samples, elapsed, part) && is_bar(k, part, g.bar)
    &&& exists|seconds: Double, rate: Double|
        #[trigger] evaluates(k, Formula::Seconds(elapsed), seconds) && #[trigger] is_rate(
            k,
            s.total_samples as usize,
            seconds,
            rate,
        ) && is_fixed(k, rate, 0, g.rate@)
    &&& match (c.time_limit, g.time_limit) {
        (Some(t), Some(text)) => shows(k, millis(t), 1, text@),
        (None, None) => true,
        _ => false,
    }
    &&& match (c.min_voc, g.voc_limit) {
        (Some(v), Some(text)) => is_fixed(k, v, 4, text@),
        (None, None) => true,
        _ => false,
    }
    &&& is_fixed(k, s.top_mean_gap, 1, g.top_gap@)
    &&& shows(k, percent(s.actions@[s.place(s.best_dir)].share), 1, g.best_share@)
    &&& is_fixed(k, s.allocation_entropy, 3, g.entropy@)
    &&& is_fixed(
        k,
        greatest_above(Double::zero(), Seq::new(s.actions@.len(), |i: int| s.actions@[i].voc)),
        4,
        g.max_voc@,
    )
    &&& g.rows@.len() == s.actions@.len()
    &&& forall|i: int| 0 <= i < g.rows@.len() ==> is_row(k, s.actions@[i], #[trigger] g.rows@[i])
}

fn used_part<K: Arithmetic>(k: &K, c: SearchConstraints, simulations: u32, elapsed: Span) -> (r: Option<Double>)
    ensures
        is_used_part(k, c, simulations, elapsed, r),
{
    let mut part: Option<Double> = None;
    match c.simulation_limit {
        Some(l) => {
            let limit = Term::count(k, l.get() as u64);
            let a = Term::count(k, simulations as u64).over(k, limit).value;
            assert(evaluates(k, of_limit(simulations, l.size()), a));
            part = Some(a);
        },
        None => {},
    }
    match c.time_limit {
        Some(t) => {
            let b = Term::seconds(k, elapsed).over(k, Term::seconds(k, t)).value;
            assert(evaluates(k, of_time(elapsed, t), b));
            part = match part {
                Some(a) => Some(a.max(b)),
                None => Some(b),
            };
        },
        None => {},
    }
    part
}

fn steps_of<K: Arithmetic>(k: &K, part: Double) -> (r: usize)
    ensures
        is_steps(k, part, r),
{
    let x = Term::num(k, part).times(k, Term::count(k, BAR_WIDTH as u64)).value;
    let r = k.to_count(x);
    assert(call_ensures(K::to_count, (k, x), r));
    r
}

/// The figures of a frame.
pub fn frame_figures<K: Arithmetic>(k: &K, s: &RootSnapshot, c: SearchConstraints, elapsed: Span) -> (r: FrameFigures)
    requires
        s.place(s.best_dir) < s.actions@.len(),
    ensures
        are_figures(k, *s, c, elapsed, r),
{
    let think = millis_text(k, elapsed, 1);
    let part = used_part(k, c, s.total_samples, elapsed);
    let shown = match part {
        Some(x) => {
            let filled = steps_of(k, x.clamp_unit());
            Some((filled, percent_text(k, x.clamp_unit(), 0)))
        },
        None => None,
    };
    assert(is_used_part(k, c, s.total_samples, elapsed, part) && is_bar(k, part, shown));
    let seconds = Term::seconds(k, elapsed).value;
    assert(evaluates(k, Formula::Seconds(elapsed), seconds));
    let per_second = rate_of(k, s.total_samples as usize, seconds);
    let rate = fixed_text(k, per_second, 0);
    let time_limit = match c.time_limit {
        Some(t) => Some(millis_text(k, t, 1)),
        None => None,
    };
    let voc_limit = match c.min_voc {
        Some(v) => Some(fixed_text(k, v, 4)),
        None => None,
    };
    let top_gap = fixed_text(k, s.top_mean_gap, 1);
    let best = s.best_action();
    let best_share = percent_text(k, best.share, 1);
    let entropy = fixed_text(k, s.allocation_entropy, 3);
    let max_voc = fixed_text(k, s.max_voc(), 4);
    let mut rows: Vec<RowFigures> = Vec::new();
    for i in 0..s.actions.len()
        invariant
            rows@.len() == i,
            forall|j: int| 0 <= j < i ==> is_row(k, s.actions@[j], #[trigger] rows@[j]),
    {
        let a = s.actions[i];
        rows.push(
            RowFigures {
                share: percent_text(k, a.share, 1),
                mean: fixed_text(k, a.mean, 1),
                sd: fixed_text(k, a.sd, 1),
                gap: fixed_text(k, a.gap_to_best, 1),
                voc: fixed_text(k, a.voc, 4),
                switch: percent_text(k, a.switch_prob, 1),
            },
        );
    }
    FrameFigures {
        think,
        bar: shown,
        rate,
        time_limit,
        voc_limit,
        top_gap,
        best_share,
        entropy,
        max_voc,
        rows,
    }
}

/// The first line: the policy, the number of the move, the score, and the board in
/// figures.
pub open spec fn title_line(policy: Policy, move_index: usize, score: u64, b: Board, legal: nat) -> Seq<char> {
    policy.title() + " search | move "@ + decimal((move_index + 1) as nat) + " | score "@ + decimal(
        score as nat,
    ) + " | max "@ + seq![symbol_of(b.top())] + " | empty "@ + decimal(b.empties().len())
        + " | legal "@ + decimal(legal) + "\n"@
}

fn title_text(policy: Policy, move_index: usize, score: u64, b: Board, legal: usize) -> (r: String)
    requires
        move_index < usize::MAX,
    ensures
        r@ == title_line(policy, move_index, score, b, legal as nat),
{
    let mut out = policy.name();
    out.append(" search | move ");
    out.append(decimal_text((move_index + 1) as u64).as_str());
    out.append(" | score ");
    out.append(decimal_text(score).as_str());
    out.append(" | max ");
    let mut top = String::new();
    top.push(tile_symbol(b.top_exponent()));
    assert(top@ =~= seq![symbol_of(b.top())]);
    out.append(top.as_str());
    out.append(" | empty ");
    out.append(decimal_text(b.empty_count() as u64).as_str());
    out.append(" | legal ");
    out.append(decimal_text(legal as u64).as_str());
    out.append("\n");
    out
}

/// The second line: how long the search has been thinking, and how much of its limits
/// is used up.
pub open spec fn progress_line(g: FrameFigures, samples: u32) -> Seq<char> {
    let start = "think "@ + padded_left(g.think@, 8) + " ms | "@ + padded_left(
        decimal(samples as nat),
        7,
    );
    let end = " | "@ + padded_left(g.rate@, 8) + " sims/s\n"@;
    match g.bar {
        Some((filled, percent)) => start + " sims ["@ + bar(filled as int) + "] "@ + padded_left(
            percent@,
            3,
        ) + "%"@ + end,
        None => start + " sims [   no resource cap    ]"@ + end,
    }
}

fn progress_text(g: &FrameFigures, samples: u32) -> (r: String)
    ensures
        r@ == progress_line(*g, samples),
{
    let mut out = String::from_str("think ");
    out.append(left(g.think.as_str(), 8).as_str());
    out.append(" ms | ");
    out.append(left(decimal_text(samples as u64).as_str(), 7).as_str());
    let mut end = String::from_str(" | ");
    end.append(left(g.rate.as_str(), 8).as_str());
    end.append(" sims/s\n");
    match &g.bar {
        Some((filled, percent)) => {
            out.append(" sims [");
            out.append(progress_bar(*filled).as_str());
            out.append("] ");
            out.append(left(percent.as_str(), 3).as_str());
            out.append("%");
        },
        None => {
            out.append(" sims [   no resource cap    ]");
        },
    }
    out.append(end.as_str());
    out
}

/// The third line: the constraints in force.
pub open spec fn limits_line(c: SearchConstraints, g: FrameFigures) -> Seq<char> {
    let sims = match c.simulation_limit {
        Some(l) => decimal(l.size() as nat),
        None => "off"@,
    };
    let time = match g.time_limit {
        Some(t) => t@ + " ms"@,
        None => "off"@,
    };
    let voc = match g.voc_limit {
        Some(v) => v@,
        None => "off"@,
    };
    "limits sims "@ + sims + " | time "@ + time + " | min VOC "@ + voc + "\n"@
}

fn limits_text(c: SearchConstraints, g: &FrameFigures) -> (r: String)
    ensures
        r@ == limits_line(c, *g),
{
    let sims = match c.simulation_limit {
        Some(l) => decimal_text(l.get() as u64),
        None => String::from_str("off"),
    };
    let time = match &g.time_limit {
        Some(t) => {
            let mut s = String::from_str(t.as_str());
            s.append(" ms");
            s
        },
        None => String::from_str("off"),
    };
    let voc = match &g.voc_limit {
        Some(v) => String::from_str(v.as_str()),
        None => String::from_str("off"),
    };
    let mut out = String::from_str("limits sims ");
    out.append(sims.as_str());
    out.append(" | time ");
    out.append(time.as_str());
    out.append(" | min VOC ");
    out.append(voc.as_str());
    out.append("\n");
    out
}

/// The fourth line: the best action and how it stands.
pub open spec fn best_line(best: Dir, g: FrameFigures) -> Seq<char> {
    "best "@ + padded_left(seq![best.arrow()], 5) + " | top gap "@ + padded_left(g.top_gap@, 9)
        + " | best alloc "@ + padded_left(g.best_share@, 5) + "% | entropy "@ + g.entropy@
        + " | max VOC "@ + g.max_voc@ + "\n"@
}

fn best_text(best: Dir, g: &FrameFigures) -> (r: String)
    ensures
        r@ == best_line(best, *g),
{
    let mut arrow = String::new();
    arrow.push(best.symbol());
    assert(arrow@ =~= seq![best.arrow()]);
    let mut out = String::from_str("best ");
    out.append(left(arrow.as_str(), 5).as_str());
    out.append(" | top gap ");
    out.append(left(g.top_gap.as_str(), 9).as_str());
    out.append(" | best alloc ");
    out.append(left(g.best_share.as_str(), 5).as_str());
    out.append("% | entropy ");
    out.append(g.entropy.as_str());
    out.append(" | max VOC ");
    out.append(g.max_voc.as_str());
    out.append("\n");
    out
}

/// The cells of an action in the table.
pub open spec fn row_cells(samples: u32, r: RowFigures) -> Seq<char> {
    " "@ + padded_left(decimal(samples as nat), 6) + " | "@ + padded_left(r.share@, 5) + "% | "@
        + padded_left(r.mean@, 10) + " | "@ + padded_left(r.sd@, 8) + " | "@ + padded_left(r.gap@, 9)
        + " | "@ + padded_left(r.voc@, 9) + " | "@ + padded_left(r.switch@, 5) + "%\n"@
}

fn row_text(samples: u32, r: &RowFigures) -> (t: String)
    ensures
        t@ == row_cells(samples, *r),
{
    let mut out = String::from_str(" ");
    out.append(left(decimal_text(samples as u64).as_str(), 6).as_str());
    out.append(" | ");
    out.append(left(r.share.as_str(), 5).as_str());
    out.append("% | ");
    out.append(left(r.mean.as_str(), 10).as_str());
    out.append(" | ");
    out.append(left(r.sd.as_str(), 8).as_str());
    out.append(" | ");
    out.append(left(r.gap.as_str(), 9).as_str());
    out.append(" | ");
    out.append(left(r.voc.as_str(), 9).as_str());
    out.append(" | ");
    out.append(left(r.switch.as_str(), 5).as_str());
    out.append("%\n");
    out
}

/// The row of a direction in the table: its mark and label, then its figures, or that it
/// is not legal.
pub open spec fn table_row(s: RootSnapshot, g: FrameFigures, dir: Dir) -> Seq<char> {
    let mark = if s.best_dir == dir {
        " * "@
    } else {
        "   "@
    };
    let cells = if s.place(dir) < s.actions@.len() {
        row_cells(s.actions@[s.place(dir)].samples, g.rows@[s.place(dir)])
    } else {
        "      - |      - |    illegal |        - |         - |         - |      -\n"@
    };
    mark + label(dir) + "|"@ + cells
}

fn table_row_text(s: &RootSnapshot, g: &FrameFigures, dir: Dir) -> (t: String)
    requires
        g.rows@.len() == s.actions@.len(),
    ensures
        t@ == table_row(*s, *g, dir),
{
    let mut out = if s.best_dir == dir {
        String::from_str(" * ")
    } else {
        String::from_str("   ")
    };
    out.append(dir_label(dir).as_str());
    out.append("|");
    let at = s.find(dir);
    if at < s.actions.len() {
        out.append(row_text(s.actions[at].samples, &g.rows[at]).as_str());
    } else {
        out.append("      - |      - |    illegal |        - |         - |         - |      -\n");
    }
    out
}

/// The table of the actions, a row for each direction.
pub open spec fn table(s: RootSnapshot, g: FrameFigures) -> Seq<char> {
    table_row(s, g, Dir::Up) + table_row(s, g, Dir::Down) + table_row(s, g, Dir::Left) + table_row(
        s,
        g,
        Dir::Right,
    )
}

/// The heading of the table.
pub open spec fn table_head() -> Seq<char> {
    "\nroot posterior:\n"@
        + " dir |      n | alloc |       mean |       sd |       gap |       VOC | switch\n"@
        + "-----+--------+-------+------------+----------+-----------+-----------+-------\n"@
}

/// The lines below the table.
pub open spec fn legend() -> Seq<char> {
    "\n* posterior-mean best | switch = P(one sample flips this arm vs its competitor)\n"@
        + "keys: space/enter act | arrows force | +/- resource cap | i toggle resource caps | [/] refresh | q quit\n"@
}

/// A frame, from its figures.
pub open spec fn frame(
    b: Board,
    s: RootSnapshot,
    policy: Policy,
    move_index: usize,
    score: u64,
    c: SearchConstraints,
    notice: Seq<char>,
    g: FrameFigures,
) -> Seq<char> {
    title_line(policy, move_index, score, b, s.actions@.len()) + progress_line(g, s.total_samples)
        + limits_line(c, g) + best_line(s.best_dir, g) + "status "@ + notice + "\n\nbefore:\n"@ + compact(b)
        + "\nafter (current best, before spawn):\n"@ + compact(s.actions@[s.place(s.best_dir)].moved)
        + table_head() + table(s, g) + legend()
}

/// What the frame says of the game: the number of the move and the score.
#[derive(Clone, Copy, Debug, PartialEq, Eq, Structural)]
pub struct LiveSearch {
    pub move_index: usize,
    pub score: u64,
}

/// Lays a frame out from its figures.
pub fn compose_frame(
    board: Board,
    s: &RootSnapshot,
    policy: Policy,
    live: LiveSearch,
    c: SearchConstraints,
    notice: &str,
    g: &FrameFigures,
) -> (r: String)
    requires
        live.move_index < usize::MAX,
        s.place(s.best_dir) < s.actions@.len(),
        g.rows@.len() == s.actions@.len(),
    ensures
        r@ == frame(board, *s, policy, live.move_index, live.score, c, notice@, *g),
{
    let best = s.best_action();
    let mut out = title_text(policy, live.move_index, live.score, board, s.actions.len());
    out.append(progress_text(g, s.total_samples).as_str());
    out.append(limits_text(c, g).as_str());
    out.append(best_text(s.best_dir, g).as_str());
    out.append("status ");
    out.append(notice);
    out.append("\n\nbefore:\n");
    out.append(compact_text(board).as_str());
    out.append("\nafter (current best, before spawn):\n");
    out.append(compact_text(best.moved).as_str());
    let mut head = String::from_str("\nroot posterior:\n");
    head.append(" dir |      n | alloc |       mean |       sd |       gap |       VOC | switch\n");
    head.append("-----+--------+-------+------------+----------+-----------+-----------+-------\n");
    out.append(head.as_str());
    let mut rows = table_row_text(s, g, Dir::Up);
    rows.append(table_row_text(s, g, Dir::Down).as_str());
    rows.append(table_row_text(s, g, Dir::Left).as_str());
    rows.append(table_row_text(s, g, Dir::Right).as_str());
    out.append(rows.as_str());
    let mut below = String::from_str(
        "\n* posterior-mean best | switch = P(one sample flips this arm vs its competitor)\n",
    );
    below.append(
        "keys: space/enter act | arrows force | +/- resource cap | i toggle resource caps | [/] refresh | q quit\n",
    );
    out.append(below.as_str());
    out
}

/// The frame of a search in progress.
pub fn render_search_frame<K: Arithmetic>(
    board: Board,
    snapshot: &RootSnapshot,
    policy: Policy,
    live: LiveSearch,
    c: SearchConstraints,
    notice: &str,
    elapsed: Span,
    k: &K,
) -> (r: String)
    requires
        live.move_index < usize::MAX,
        snapshot.place(snapshot.best_dir) < snapshot.actions@.len(),
    ensures
        exists|g: FrameFigures| #[trigger]
            are_figures(k, *snapshot, c, elapsed, g) && r@ == frame(
                board,
                *snapshot,
                policy,
                live.move_index,
                live.score,
                c,
                notice@,
                g,
            ),
{
    let g = frame_figures(k, snapshot, c, elapsed);
    assert(are_figures(k, *snapshot, c, elapsed, g));
    compose_frame(board, snapshot, policy, live, c, notice, &g)
}

/// The labels of the directions all have the same width.
pub proof fn law_labels_have_one_width(dir: Dir)
    ensures
        label(dir).len() == 2,
{
}

} // verus!
