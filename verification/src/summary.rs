//! What is said while a benchmark runs: totals by budget and policy, and a line now and
//! then.

use crate::arith::{count, evaluates, num, Arithmetic, Formula, Term};
use crate::double::Double;
use crate::figures::{fixed_text, is_fixed, is_rate, rate_of, ratio, ratio_of, shows, term_text};
use crate::span::Span;
use crate::text::{chars_of, decimal, decimal_text, join, joined, spells, text_of, texts};
use vstd::prelude::*;

verus! {

/// The longest list of means that is shown in full.
pub const LONGEST_SUMMARY: usize = 260;

/// How much of a longer one is shown.
pub const SHOWN_SUMMARY: usize = 257;

/// The totals of a policy with a budget.
#[derive(Debug)]
pub struct Aggregate {
    pub budget: usize,
    pub policy: String,
    pub count: usize,
    pub score_sum: u128,
    pub tile_sum: u128,
}

/// The totals of all games so far, an entry for each budget and policy.
#[derive(Debug)]
pub struct Aggregates {
    pub entries: Vec<Aggregate>,
}

/// A number of games with the sums of their scores and largest tiles.
pub struct Tally {
    pub count: nat,
    pub scores: nat,
    pub tiles: nat,
}

impl Tally {
    /// No games.
    pub open spec fn none() -> Tally {
        Tally { count: 0, scores: 0, tiles: 0 }
    }

    /// One game more.
    pub open spec fn plus(self, score: u64, tile: u64) -> Tally {
        Tally {
            count: self.count + 1,
            scores: self.scores + score as nat,
            tiles: self.tiles + tile as nat,
        }
    }
}

impl Aggregate {
    /// The entry is that of a budget and a policy.
    pub open spec fn is_for(self, key: (usize, Seq<char>)) -> bool {
        self.budget == key.0 && self.policy@ == key.1
    }

    /// The totals of the entry.
    pub open spec fn tally(self) -> Tally {
        Tally {
            count: self.count as nat,
            scores: self.score_sum as nat,
            tiles: self.tile_sum as nat,
        }
    }
}

/// The place of the entry of a budget and a policy, or the number of entries.
pub open spec fn entry_place(entries: Seq<Aggregate>, key: (usize, Seq<char>)) -> int
    decreases entries.len(),
{
    if entries.len() == 0 {
        0
    } else if entry_place(entries.drop_last(), key) < entries.len() - 1 || entries.last().is_for(key) {
        entry_place(entries.drop_last(), key)
    } else {
        entries.len() as int
    }
}

impl Aggregates {
    /// The totals of a budget and a policy.
    pub open spec fn tally(self, key: (usize, Seq<char>)) -> Tally {
        let i = entry_place(self.entries@, key);
        if i < self.entries@.len() {
            self.entries@[i].tally()
        } else {
            Tally::none()
        }
    }

    /// No budget and policy have two entries, and the sums are those of numbers of 64 bits.
    pub open spec fn wf(self) -> bool {
        &&& forall|i: int, j: int|
            0 <= i < j < self.entries@.len() ==> !((#[trigger] self.entries@[i]).budget
                == (#[trigger] self.entries@[j]).budget && self.entries@[i].policy@
                == self.entries@[j].policy@)
        &&& forall|i: int|
            0 <= i < self.entries@.len() ==> {
                &&& 0 < (#[trigger] self.entries@[i]).count
                &&& self.entries@[i].score_sum <= self.entries@[i].count * u64::MAX
                &&& self.entries@[i].tile_sum <= self.entries@[i].count * u64::MAX
            }
    }

    /// No games yet.
    pub fn new() -> (r: Aggregates)
        ensures
            r.wf(),
            forall|key: (usize, Seq<char>)| #[trigger] r.tally(key) == Tally::none(),
            r.entries@.len() == 0,
    {
        Aggregates { entries: Vec::new() }
    }

    /// The place of the entry of a budget and a policy, or the number of entries.
    fn find(&self, budget: usize, policy: &str) -> (r: usize)
        ensures
            r == entry_place(self.entries@, (budget, policy@)),
            r < self.entries@.len() ==> self.entries@[r as int].is_for((budget, policy@)),
            forall|j: int| 0 <= j < r ==> !(#[trigger] self.entries@[j]).is_for((budget, policy@)),
    {
        let name = chars_of(policy);
        let ghost key = (budget, policy@);
        for i in 0..self.entries.len()
            invariant
                name@ == policy@,
                key == (budget, policy@),
                forall|j: int| 0 <= j < i ==> !(#[trigger] self.entries@[j]).is_for(key),
        {
            if self.entries[i].budget == budget && spells(&name, self.entries[i].policy.as_str()) {
                proof {
                    lemma_entry_place(self.entries@, key, i as int);
                }
                return i;
            }
        }
        proof {
            lemma_entry_place(self.entries@, key, self.entries@.len() as int);
        }
        self.entries.len()
    }

    /// Counts a game.
    pub fn record(&mut self, budget: usize, policy: &str, score: u64, tile: u64)
        requires
            old(self).wf(),
            old(self).tally((budget, policy@)).count < usize::MAX,
        ensures
            final(self).wf(),
            final(self).tally((budget, policy@)) == old(self).tally((budget, policy@)).plus(score, tile),
            forall|key: (usize, Seq<char>)|
                key != (budget, policy@) ==> #[trigger] final(self).tally(key) == old(self).tally(key),
    {
        let ghost before = self.entries@;
        let ghost key = (budget, policy@);
        let at = self.find(budget, policy);
        if at < self.entries.len() {
            let count = self.entries[at].count;
            let score_sum = self.entries[at].score_sum;
            let tile_sum = self.entries[at].tile_sum;
            proof {
                lemma_sum_fits(count, score_sum, score);
                lemma_sum_fits(count, tile_sum, tile);
            }
            self.entries[at].count = count + 1;
            self.entries[at].score_sum = score_sum + score as u128;
            self.entries[at].tile_sum = tile_sum + tile as u128;
            proof {
                let after = self.entries@;
                assert forall|other: (usize, Seq<char>)| #[trigger]
                    entry_place(after, other) == entry_place(before, other) by {
                    lemma_same_places(before, after, other);
                }
                assert forall|other: (usize, Seq<char>)| other != key implies #[trigger] self.tally(
                    other,
                ) == old(self).tally(other) by {
                    lemma_found(before, other);
                    assert(entry_place(after, other) == entry_place(before, other));
                }
                assert(entry_place(after, key) == entry_place(before, key));
            }
        } else {
            self.entries.push(
                Aggregate {
                    budget,
                    policy: String::from_str(policy),
                    count: 1,
                    score_sum: score as u128,
                    tile_sum: tile as u128,
                },
            );
            proof {
                let after = self.entries@;
                assert(after.drop_last() =~= before);
                lemma_found(before, key);
                assert forall|other: (usize, Seq<char>)| other != key implies #[trigger] self.tally(
                    other,
                ) == old(self).tally(other) by {
                    lemma_found(before, other);
                }
            }
        }
    }

    /// The mean scores, an entry each: policy, budget and mean.
    pub open spec fn are_parts<K: Arithmetic>(self, k: &K, parts: Seq<Seq<char>>) -> bool {
        &&& parts.len() == self.entries@.len()
        &&& forall|i: int| 0 <= i < parts.len() ==> is_part(k, self.entries@[i], #[trigger] parts[i])
    }

    /// The mean scores in alphabetical order, cut short where they are too long.
    pub fn summary<K: Arithmetic>(&self, k: &K) -> (r: String)
        ensures
            exists|parts: Seq<Seq<char>>, sorted: Seq<Seq<char>>| #[trigger]
                self.are_parts(k, parts) && #[trigger] is_sorted_from(parts, sorted) && r@ == shortened(
                    joined(sorted, " | "@),
                ),
    {
        let mut parts: Vec<Vec<char>> = Vec::new();
        for i in 0..self.entries.len()
            invariant
                parts@.len() == i,
                forall|j: int|
                    0 <= j < i ==> is_part(k, self.entries@[j], (#[trigger] parts@[j])@),
        {
            let text = part_text(k, &self.entries[i]);
            parts.push(chars_of(text.as_str()));
        }
        let ghost all = spelled(parts@);
        assert(self.are_parts(k, all));
        let sorted = sort_texts(parts);
        let mut lines: Vec<String> = Vec::new();
        for i in 0..sorted.len()
            invariant
                lines@.len() == i,
                forall|j: int| 0 <= j < i ==> (#[trigger] lines@[j])@ == sorted@[j]@,
        {
            lines.push(text_of(&sorted[i]));
        }
        assert(texts(lines@) =~= spelled(sorted@));
        assert(is_sorted_from(all, spelled(sorted@)));
        let line = join(&lines, " | ");
        shorten(line.as_str())
    }
}

/// The mean score of an entry: the sum of the scores by their number.
pub open spec fn mean_score(a: Aggregate) -> Formula {
    Formula::TotalOf(a.score_sum).over(count(a.count as u64))
}

/// The mean score of an entry as it is shown: policy, budget and mean.
pub open spec fn is_part<K: Arithmetic>(k: &K, a: Aggregate, t: Seq<char>) -> bool {
    exists|shown: Seq<char>| #[trigger]
        shows(k, mean_score(a), 0, shown) && t == a.policy@ + "@"@ + decimal(a.budget as nat) + ": "@
            + shown
}

fn part_text<K: Arithmetic>(k: &K, a: &Aggregate) -> (r: String)
    ensures
        is_part(k, *a, r@),
{
    let mean = Term::total_of(k, a.score_sum).over(k, Term::count(k, a.count as u64));
    let shown = term_text(k, mean, 0);
    let mut out = String::from_str(a.policy.as_str());
    out.append("@");
    out.append(decimal_text(a.budget as u64).as_str());
    out.append(": ");
    out.append(shown.as_str());
    out
}

/// A list of means, cut short where it is too long.
pub open spec fn shortened(s: Seq<char>) -> Seq<char> {
    if s.len() > LONGEST_SUMMARY {
        s.take(SHOWN_SUMMARY as int) + "..."@
    } else {
        s
    }
}

/// Cuts a list of means short where it is too long.
pub fn shorten(s: &str) -> (r: String)
    ensures
        r@ == shortened(s@),
{
    let n = s.unicode_len();
    if n <= LONGEST_SUMMARY {
        return String::from_str(s);
    }
    let mut out = String::new();
    for i in 0..SHOWN_SUMMARY
        invariant
            n == s@.len(),
            n > LONGEST_SUMMARY,
            out@ == s@.take(i as int),
    {
        out.push(s.get_char(i));
        assert(out@ =~= s@.take(i + 1));
    }
    out.append("...");
    out
}

proof fn lemma_sum_fits(count: usize, sum: u128, more: u64)
    requires
        count < usize::MAX,
        sum <= count * u64::MAX,
    ensures
        sum + more <= (count + 1) * u64::MAX,
        sum + more <= u128::MAX,
{
    assert((count + 1) * u64::MAX == count * u64::MAX + u64::MAX) by (nonlinear_arith);
    assert((count + 1) * u64::MAX <= u128::MAX) by (nonlinear_arith)
        requires
            count < usize::MAX,
            usize::MAX <= u64::MAX,
    ;
}

proof fn lemma_entry_place(entries: Seq<Aggregate>, key: (usize, Seq<char>), i: int)
    requires
        0 <= i <= entries.len(),
        forall|j: int| 0 <= j < i ==> !(#[trigger] entries[j]).is_for(key),
        i < entries.len() ==> entries[i].is_for(key),
    ensures
        entry_place(entries, key) == i,
    decreases entries.len(),
{
    if entries.len() > 0 {
        let front = entries.drop_last();
        assert forall|j: int| 0 <= j < i && j < front.len() implies !(#[trigger] front[j]).is_for(key) by {
            assert(front[j] == entries[j]);
        }
        if i < entries.len() - 1 {
            assert(front[i].is_for(key));
            lemma_entry_place(front, key, i);
        } else {
            lemma_entry_place(front, key, entries.len() - 1);
        }
    }
}

proof fn lemma_found(entries: Seq<Aggregate>, key: (usize, Seq<char>))
    ensures
        0 <= entry_place(entries, key) <= entries.len(),
        entry_place(entries, key) < entries.len() ==> entries[entry_place(entries, key)].is_for(key),
    decreases entries.len(),
{
    if entries.len() > 0 {
        lemma_found(entries.drop_last(), key);
    }
}

proof fn lemma_same_places(a: Seq<Aggregate>, b: Seq<Aggregate>, key: (usize, Seq<char>))
    requires
        a.len() == b.len(),
        forall|i: int|
            0 <= i < a.len() ==> (#[trigger] a[i]).budget == b[i].budget && a[i].policy@
                == b[i].policy@,
    ensures
        entry_place(a, key) == entry_place(b, key),
    decreases a.len(),
{
    if a.len() > 0 {
        lemma_same_places(a.drop_last(), b.drop_last(), key);
        assert(a[a.len() - 1].budget == b[a.len() - 1].budget);
    }
}

/// Alphabetical order by the codes of the characters.
pub open spec fn comes_first(a: Seq<char>, b: Seq<char>) -> bool
    decreases a.len(),
{
    if a.len() == 0 {
        true
    } else if b.len() == 0 {
        false
    } else if a[0] == b[0] {
        comes_first(a.skip(1), b.skip(1))
    } else {
        a[0] < b[0]
    }
}

/// The texts are in alphabetical order.
pub open spec fn in_order(s: Seq<Seq<char>>) -> bool {
    forall|i: int, j: int| 0 <= i <= j < s.len() ==> comes_first(#[trigger] s[i], #[trigger] s[j])
}

/// `sorted` holds the same texts as `s`, in alphabetical order.
pub open spec fn is_sorted_from(s: Seq<Seq<char>>, sorted: Seq<Seq<char>>) -> bool {
    in_order(sorted) && sorted.to_multiset() == s.to_multiset()
}

/// The texts that lists of characters spell.
pub open spec fn spelled(v: Seq<Vec<char>>) -> Seq<Seq<char>> {
    Seq::new(v.len(), |i: int| v[i]@)
}

/// The order is reflexive.
proof fn lemma_comes_first_reflexive(a: Seq<char>)
    ensures
        comes_first(a, a),
    decreases a.len(),
{
    if a.len() > 0 {
        lemma_comes_first_reflexive(a.skip(1));
    }
}

/// The order is total.
proof fn lemma_comes_first_total(a: Seq<char>, b: Seq<char>)
    ensures
        comes_first(a, b) || comes_first(b, a),
    decreases a.len(),
{
    if a.len() > 0 && b.len() > 0 && a[0] == b[0] {
        lemma_comes_first_total(a.skip(1), b.skip(1));
    }
}

/// The order is transitive.
proof fn lemma_comes_first_transitive(a: Seq<char>, b: Seq<char>, c: Seq<char>)
    requires
        comes_first(a, b),
        comes_first(b, c),
    ensures
        comes_first(a, c),
    decreases a.len(),
{
    if a.len() > 0 && b.len() > 0 && c.len() > 0 && a[0] == b[0] && b[0] == c[0] {
        lemma_comes_first_transitive(a.skip(1), b.skip(1), c.skip(1));
    }
}

/// The order is antisymmetric.
proof fn lemma_comes_first_antisymmetric(a: Seq<char>, b: Seq<char>)
    requires
        comes_first(a, b),
        comes_first(b, a),
    ensures
        a == b,
    decreases a.len(),
{
    if a.len() > 0 && b.len() > 0 {
        lemma_comes_first_antisymmetric(a.skip(1), b.skip(1));
        assert(a =~= seq![a[0]] + a.skip(1));
        assert(b =~= seq![b[0]] + b.skip(1));
    } else {
        assert(a =~= b);
    }
}

/// Whether one text comes before another in alphabetical order, or is the same.
pub fn text_comes_first(a: &Vec<char>, b: &Vec<char>) -> (r: bool)
    ensures
        r == comes_first(a@, b@),
{
    let mut i: usize = 0;
    assert(a@.skip(0) =~= a@ && b@.skip(0) =~= b@);
    while i < a.len()
        invariant
            i <= a@.len(),
            i <= b@.len(),
            comes_first(a@, b@) == comes_first(a@.skip(i as int), b@.skip(i as int)),
        decreases a@.len() - i,
    {
        if i >= b.len() {
            return false;
        }
        if a[i] != b[i] {
            return a[i] < b[i];
        }
        assert(a@.skip(i as int).skip(1) =~= a@.skip(i + 1));
        assert(b@.skip(i as int).skip(1) =~= b@.skip(i + 1));
        i = i + 1;
    }
    true
}

/// Sorts texts in alphabetical order.
pub fn sort_texts(parts: Vec<Vec<char>>) -> (r: Vec<Vec<char>>)
    ensures
        is_sorted_from(spelled(parts@), spelled(r@)),
{
    let mut out: Vec<Vec<char>> = Vec::new();
    let mut rest = parts;
    let ghost all = spelled(parts@);
    proof {
        broadcast use vstd::seq_lib::group_to_multiset_ensures;

        assert(spelled(out@) =~= Seq::empty());
        assert(spelled(out@).to_multiset().add(spelled(rest@).to_multiset()) =~= all.to_multiset());
    }
    while rest.len() > 0
        invariant
            in_order(spelled(out@)),
            spelled(out@).to_multiset().add(spelled(rest@).to_multiset()) == all.to_multiset(),
        decreases rest@.len(),
    {
        let ghost left = rest@;
        let ghost before = out@;
        match rest.pop() {
            Some(item) => {
                let mut at: usize = 0;
                while at < out.len() && text_comes_first(&out[at], &item)
                    invariant
                        at <= out@.len(),
                        out@ == before,
                        forall|j: int| 0 <= j < at ==> comes_first(#[trigger] spelled(out@)[j], item@),
                    decreases out@.len() - at,
                {
                    assert(comes_first(spelled(out@)[at as int], item@));
                    at = at + 1;
                }
                out.insert(at, item);
                proof {
                    lemma_insert_in_order(spelled(before), at as int, item@);
                    assert(spelled(out@) =~= spelled(before).insert(at as int, item@));
                    assert(spelled(left) =~= spelled(rest@).push(item@));
                    broadcast use vstd::seq_lib::group_to_multiset_ensures;

                    assert(spelled(out@).to_multiset() == spelled(before).to_multiset().insert(item@));
                    assert(spelled(left).to_multiset() == spelled(rest@).to_multiset().insert(item@));
                    assert(spelled(out@).to_multiset().add(spelled(rest@).to_multiset())
                        =~= spelled(before).to_multiset().add(spelled(left).to_multiset()));
                }
            },
            None => {},
        }
    }
    proof {
        broadcast use vstd::seq_lib::group_to_multiset_ensures;

        assert(spelled(rest@) =~= Seq::empty());
        assert(spelled(out@).to_multiset().add(spelled(rest@).to_multiset()) =~= spelled(
            out@,
        ).to_multiset());
    }
    out
}

proof fn lemma_insert_in_order(s: Seq<Seq<char>>, at: int, x: Seq<char>)
    requires
        in_order(s),
        0 <= at <= s.len(),
        forall|j: int| 0 <= j < at ==> comes_first(#[trigger] s[j], x),
        at < s.len() ==> !comes_first(s[at], x),
    ensures
        in_order(s.insert(at, x)),
{
    let t = s.insert(at, x);
    lemma_comes_first_reflexive(x);
    if at < s.len() {
        lemma_comes_first_total(s[at], x);
    }
    assert forall|i: int, j: int| 0 <= i <= j < t.len() implies comes_first(
        #[trigger] t[i],
        #[trigger] t[j],
    ) by {
        let a = if i < at { i } else { i - 1 };
        let b = if j < at { j } else { j - 1 };
        if i == at {
            if j > at {
                assert(comes_first(s[at], s[b]));
                lemma_comes_first_transitive(x, s[at], s[b]);
            }
        } else if j == at {
            assert(comes_first(s[a], x));
        } else {
            assert(comes_first(s[a], s[b]));
        }
    }
}

/// Sorting gives one result only.
pub proof fn law_sorted_order_is_unique(s: Seq<Seq<char>>, a: Seq<Seq<char>>, b: Seq<Seq<char>>)
    requires
        is_sorted_from(s, a),
        is_sorted_from(s, b),
    ensures
        a == b,
    decreases s.len(),
{
    broadcast use vstd::seq_lib::group_to_multiset_ensures;

    assert(a.len() == a.to_multiset().len() && b.len() == b.to_multiset().len());
    if a.len() == 0 {
        assert(a =~= b);
    } else {
        let x = a[0];
        let y = b[0];
        assert(a.contains(x) && b.contains(y));
        assert(a.to_multiset().count(x) > 0 && b.to_multiset().count(y) > 0);
        assert(b.contains(x) && a.contains(y));
        let i = choose|i: int| 0 <= i < b.len() && b[i] == x;
        let j = choose|j: int| 0 <= j < a.len() && a[j] == y;
        assert(comes_first(b[0], b[i]) && comes_first(a[0], a[j]));
        lemma_comes_first_antisymmetric(x, y);
        let ra = a.remove(0);
        let rb = b.remove(0);
        assert forall|m: int, n: int| 0 <= m <= n < ra.len() implies comes_first(
            #[trigger] ra[m],
            #[trigger] ra[n],
        ) by {
            assert(comes_first(a[m + 1], a[n + 1]));
        }
        assert forall|m: int, n: int| 0 <= m <= n < rb.len() implies comes_first(
            #[trigger] rb[m],
            #[trigger] rb[n],
        ) by {
            assert(comes_first(b[m + 1], b[n + 1]));
        }
        assert(ra.to_multiset() == rb.to_multiset());
        assert(s.len() == s.to_multiset().len());
        assert(ra.len() == s.len() - 1);
        law_sorted_order_is_unique(ra, ra, rb);
        assert(a =~= seq![x] + ra);
        assert(b =~= seq![y] + rb);
    }
}

/// A line is due after every so many games, and after the last.
pub fn is_checkpoint(n: usize, log_every: usize, total: usize) -> (r: bool)
    ensures
        r == (n == total || if log_every == 0 {
            true
        } else {
            n % log_every == 0
        }),
{
    let every: usize = if log_every == 0 {
        1
    } else {
        log_every
    };
    n % every == 0 || n == total
}

/// A number of seconds in minutes.
pub open spec fn minutes(seconds: Double) -> Formula {
    num(seconds).over(num(Double::sixty()))
}

/// A count out of a total, in percent.
pub open spec fn percent_of(n: usize, total: usize) -> Formula {
    num(Double::hundred()).times(count(n as u64)).over(count(total as u64))
}

/// The time that is left at a rate, endless where nothing gets done.
pub open spec fn is_time_left<K: Arithmetic>(k: &K, remaining: usize, rate: Double, left: Double) -> bool {
    if Double::zero().below(rate) {
        evaluates(k, ratio(remaining, rate), left)
    } else {
        left == Double::infinity()
    }
}

/// How much larger a number is than another, zero where it is not.
pub open spec fn surplus(a: usize, b: usize) -> usize {
    if a > b {
        (a - b) as usize
    } else {
        0
    }
}

/// The figures of a checkpoint.
#[derive(Clone, Copy, Debug)]
pub struct Pace {
    pub percent: Double,
    pub elapsed_minutes: Double,
    pub left_minutes: Double,
    pub rate: Double,
}

/// `p` is how far a run has come after `n` of `total` games, of which `already_done`
/// were there before it.
pub open spec fn is_pace<K: Arithmetic>(
    k: &K,
    n: usize,
    already_done: usize,
    total: usize,
    elapsed: Span,
    p: Pace,
) -> bool {
    exists|seconds: Double, left: Double|
        {
            &&& #[trigger] evaluates(k, Formula::Seconds(elapsed), seconds)
            &&& #[trigger] is_time_left(k, surplus(total, n), p.rate, left)
            &&& is_rate(k, surplus(n, already_done), seconds, p.rate)
            &&& evaluates(k, percent_of(n, total), p.percent)
            &&& evaluates(k, minutes(seconds), p.elapsed_minutes)
            &&& evaluates(k, minutes(left), p.left_minutes)
        }
}

/// How far a run has come.
pub fn pace<K: Arithmetic>(k: &K, n: usize, already_done: usize, total: usize, elapsed: Span) -> (r: Pace)
    ensures
        is_pace(k, n, already_done, total, elapsed, r),
{
    let seconds = Term::seconds(k, elapsed).value;
    let remaining = total.saturating_sub(n);
    let rate = rate_of(k, n.saturating_sub(already_done), seconds);
    let left = if Double::zero().lt(rate) {
        ratio_of(k, remaining, rate)
    } else {
        Double::infinity()
    };
    let hundredfold = Term::num(k, Double::hundred()).times(k, Term::count(k, n as u64));
    let r = Pace {
        percent: hundredfold.over(k, Term::count(k, total as u64)).value,
        elapsed_minutes: Term::num(k, seconds).over(k, Term::num(k, Double::sixty())).value,
        left_minutes: Term::num(k, left).over(k, Term::num(k, Double::sixty())).value,
        rate,
    };
    assert(evaluates(k, Formula::Seconds(elapsed), seconds) && is_time_left(
        k,
        surplus(total, n),
        r.rate,
        left,
    ));
    r
}

/// The figures of a checkpoint, as text.
#[derive(Debug)]
pub struct PaceFigures {
    pub percent: String,
    pub elapsed: String,
    pub left: String,
    pub rate: String,
}

/// `t` are the texts of the figures.
pub open spec fn are_pace_figures<K: Arithmetic>(k: &K, p: Pace, t: PaceFigures) -> bool {
    &&& is_fixed(k, p.percent, 1, t.percent@)
    &&& is_fixed(k, p.elapsed_minutes, 1, t.elapsed@)
    &&& is_fixed(k, p.left_minutes, 1, t.left@)
    &&& is_fixed(k, p.rate, 2, t.rate@)
}

/// The line of a checkpoint.
pub open spec fn checkpoint(n: usize, total: usize, t: PaceFigures, summary: Seq<char>) -> Seq<char> {
    "checkpoint "@ + decimal(n as nat) + "/"@ + decimal(total as nat) + " ("@ + t.percent@
        + "%) | elapsed "@ + t.elapsed@ + "m | ETA "@ + t.left@ + "m | "@ + t.rate@ + " games/s | "@
        + summary
}

/// The line of a checkpoint.
pub fn checkpoint_line<K: Arithmetic>(k: &K, n: usize, total: usize, p: Pace, summary: &str) -> (r: String)
    ensures
        exists|t: PaceFigures| #[trigger]
            are_pace_figures(k, p, t) && r@ == checkpoint(n, total, t, summary@),
{
    let t = PaceFigures {
        percent: fixed_text(k, p.percent, 1),
        elapsed: fixed_text(k, p.elapsed_minutes, 1),
        left: fixed_text(k, p.left_minutes, 1),
        rate: fixed_text(k, p.rate, 2),
    };
    assert(are_pace_figures(k, p, t));
    let mut out = String::from_str("checkpoint ");
    out.append(decimal_text(n as u64).as_str());
    out.append("/");
    out.append(decimal_text(total as u64).as_str());
    out.append(" (");
    out.append(t.percent.as_str());
    out.append("%) | elapsed ");
    out.append(t.elapsed.as_str());
    out.append("m | ETA ");
    out.append(t.left.as_str());
    out.append("m | ");
    out.append(t.rate.as_str());
    out.append(" games/s | ");
    out.append(summary);
    out
}

} // verus!
