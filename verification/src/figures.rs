//! Figures as they are shown: numbers in decimal, parts in percent, spans in
//! milliseconds and minutes.

use crate::arith::{count, evaluates, num, Arithmetic, Formula, Term};
use crate::double::Double;
use crate::span::Span;
use vstd::prelude::*;

verus! {

/// `t` is the text of a number with so many digits after the point.
pub open spec fn is_fixed<K: Arithmetic>(k: &K, x: Double, digits: usize, t: Seq<char>) -> bool {
    exists|s: String| #[trigger] call_ensures(K::fixed, (k, x, digits), s) && t == s@
}

/// A number with so many digits after the point.
pub fn fixed_text<K: Arithmetic>(k: &K, x: Double, digits: usize) -> (r: String)
    ensures
        is_fixed(k, x, digits, r@),
{
    let s = k.fixed(x, digits);
    assert(call_ensures(K::fixed, (k, x, digits), s));
    s
}

/// `t` is the text of what a formula comes to.
pub open spec fn shows<K: Arithmetic>(k: &K, e: Formula, digits: usize, t: Seq<char>) -> bool {
    exists|x: Double| #[trigger] evaluates(k, e, x) && is_fixed(k, x, digits, t)
}

/// What a term comes to, with so many digits after the point.
pub fn term_text<K: Arithmetic>(k: &K, x: Term, digits: usize) -> (r: String)
    requires
        x.holds(k),
    ensures
        shows(k, x.formula@, digits, r@),
{
    assert(evaluates(k, x.formula@, x.value));
    fixed_text(k, x.value, digits)
}

/// A span in milliseconds.
pub open spec fn millis(span: Span) -> Formula {
    Formula::Seconds(span).times(num(Double::thousand()))
}

/// A span in milliseconds, with so many digits after the point.
pub fn millis_text<K: Arithmetic>(k: &K, span: Span, digits: usize) -> (r: String)
    ensures
        shows(k, millis(span), digits, r@),
{
    term_text(k, Term::seconds(k, span).times(k, Term::num(k, Double::thousand())), digits)
}

/// A part in percent.
pub open spec fn percent(part: Double) -> Formula {
    num(Double::hundred()).times(num(part))
}

/// A part in percent, with so many digits after the point.
pub fn percent_text<K: Arithmetic>(k: &K, part: Double, digits: usize) -> (r: String)
    ensures
        shows(k, percent(part), digits, r@),
{
    term_text(k, Term::num(k, Double::hundred()).times(k, Term::num(k, part)), digits)
}

/// A count by a number.
pub open spec fn ratio(n: usize, by: Double) -> Formula {
    count(n as u64).over(num(by))
}

/// A count by a number.
pub fn ratio_of<K: Arithmetic>(k: &K, n: usize, by: Double) -> (r: Double)
    ensures
        evaluates(k, ratio(n, by), r),
{
    Term::count(k, n as u64).over(k, Term::num(k, by)).value
}

/// `rate` is how many of a count come to a second, zero where no time has passed.
pub open spec fn is_rate<K: Arithmetic>(k: &K, n: usize, seconds: Double, rate: Double) -> bool {
    if Double::zero().below(seconds) {
        evaluates(k, ratio(n, seconds), rate)
    } else {
        rate == Double::zero()
    }
}

/// How many of a count come to a second.
pub fn rate_of<K: Arithmetic>(k: &K, n: usize, seconds: Double) -> (r: Double)
    ensures
        is_rate(k, n, seconds, r),
{
    if Double::zero().lt(seconds) {
        ratio_of(k, n, seconds)
    } else {
        Double::zero()
    }
}

/// `span` is that of so many milliseconds.
pub open spec fn is_span_of_millis<K: Arithmetic>(k: &K, millis: Double, span: Span) -> bool {
    exists|seconds: Double|
        evaluates(k, num(millis).over(num(Double::thousand())), seconds) && #[trigger] call_ensures(
            K::to_span,
            (k, seconds),
            span,
        )
}

/// The span of so many milliseconds.
pub fn span_of_millis<K: Arithmetic>(k: &K, millis: Double) -> (r: Span)
    ensures
        is_span_of_millis(k, millis, r),
{
    let seconds = Term::num(k, millis).over(k, Term::num(k, Double::thousand())).value;
    let r = k.to_span(seconds);
    assert(call_ensures(K::to_span, (k, seconds), r));
    r
}

} // verus!
