//! Formulas over floating-point numbers.
//!
//! The operations themselves come from an [`Arithmetic`]; which operations are applied
//! to what is written down as a [`Formula`], and a result is held to its formula by
//! [`evaluates`].

use crate::double::Double;
use crate::random::lift;
use crate::span::Span;
use rand::rngs::SmallRng;
use vstd::prelude::*;

verus! {

/// The operations on floating-point numbers, the tails of Student's t distribution among
/// them. Nothing is assumed of what they return.
pub trait Arithmetic {
    /// `a + b`.
    fn plus(&self, a: Double, b: Double) -> Double;

    /// `a - b`.
    fn minus(&self, a: Double, b: Double) -> Double;

    /// `a * b`.
    fn times(&self, a: Double, b: Double) -> Double;

    /// `a / b`.
    fn over(&self, a: Double, b: Double) -> Double;

    /// The square root.
    fn root(&self, a: Double) -> Double;

    /// The natural logarithm.
    fn log(&self, a: Double) -> Double;

    /// The number nearest to a count.
    fn of_count(&self, n: u64) -> Double;

    /// The number nearest to a sum of counts.
    fn of_sum(&self, n: u128) -> Double;

    /// A span in seconds.
    fn of_span(&self, span: Span) -> Double;

    /// The density of Student's t distribution at `z`.
    fn density(&self, freedom: Double, z: Double) -> Double;

    /// The probability that Student's t distribution gives to the numbers up to `z`.
    fn lower_tail(&self, freedom: Double, z: Double) -> Double;

    /// The probability that Student's t distribution gives to the numbers above `z`.
    fn upper_tail(&self, freedom: Double, z: Double) -> Double;

    /// A draw from Student's t distribution, and the generator after it.
    fn draw(&self, freedom: Double, rng: SmallRng) -> (Double, SmallRng);

    /// The span of so many seconds, which are finite and positive.
    fn to_span(&self, seconds: Double) -> Span;

    /// The nearest count, zero for what is negative or no number.
    fn to_count(&self, a: Double) -> usize;

    /// A number in decimal, with so many digits after the point.
    fn fixed(&self, a: Double, digits: usize) -> String;
}

/// A formula: numbers and counts, and operations on them.
pub enum Formula {
    Number(Double),
    Count(u64),
    TotalOf(u128),
    Seconds(Span),
    Plus(Box<Formula>, Box<Formula>),
    Minus(Box<Formula>, Box<Formula>),
    Times(Box<Formula>, Box<Formula>),
    Over(Box<Formula>, Box<Formula>),
    Root(Box<Formula>),
    Log(Box<Formula>),
    Density(Box<Formula>, Box<Formula>),
    LowerTail(Box<Formula>, Box<Formula>),
    UpperTail(Box<Formula>, Box<Formula>),
}

/// A number as a formula.
pub open spec fn num(x: Double) -> Formula {
    Formula::Number(x)
}

/// A count as a formula.
pub open spec fn count(n: u64) -> Formula {
    Formula::Count(n)
}

impl Formula {
    /// `self + b`.
    pub open spec fn plus(self, b: Formula) -> Formula {
        Formula::Plus(Box::new(self), Box::new(b))
    }

    /// `self - b`.
    pub open spec fn minus(self, b: Formula) -> Formula {
        Formula::Minus(Box::new(self), Box::new(b))
    }

    /// `self * b`.
    pub open spec fn times(self, b: Formula) -> Formula {
        Formula::Times(Box::new(self), Box::new(b))
    }

    /// `self / b`.
    pub open spec fn over(self, b: Formula) -> Formula {
        Formula::Over(Box::new(self), Box::new(b))
    }

    /// The square root of `self`.
    pub open spec fn root(self) -> Formula {
        Formula::Root(Box::new(self))
    }

    /// The natural logarithm of `self`.
    pub open spec fn log(self) -> Formula {
        Formula::Log(Box::new(self))
    }

    /// The density of Student's t distribution with `self` degrees of freedom.
    pub open spec fn density(self, z: Formula) -> Formula {
        Formula::Density(Box::new(self), Box::new(z))
    }

    /// The lower tail of Student's t distribution with `self` degrees of freedom.
    pub open spec fn lower_tail(self, z: Formula) -> Formula {
        Formula::LowerTail(Box::new(self), Box::new(z))
    }

    /// The upper tail of Student's t distribution with `self` degrees of freedom.
    pub open spec fn upper_tail(self, z: Formula) -> Formula {
        Formula::UpperTail(Box::new(self), Box::new(z))
    }
}

/// `r` is what the formula comes to: each operation is that of the arithmetic, applied to
/// what the parts come to.
pub open spec fn evaluates<K: Arithmetic>(k: &K, e: Formula, r: Double) -> bool
    decreases e,
{
    match e {
        Formula::Number(x) => r == x,
        Formula::Count(n) => call_ensures(K::of_count, (k, n), r),
        Formula::TotalOf(n) => call_ensures(K::of_sum, (k, n), r),
        Formula::Seconds(s) => call_ensures(K::of_span, (k, s), r),
        Formula::Plus(a, b) => exists|x: Double, y: Double|
            evaluates(k, *a, x) && evaluates(k, *b, y) && #[trigger] call_ensures(K::plus, (k, x, y), r),
        Formula::Minus(a, b) => exists|x: Double, y: Double|
            evaluates(k, *a, x) && evaluates(k, *b, y) && #[trigger] call_ensures(K::minus, (k, x, y), r),
        Formula::Times(a, b) => exists|x: Double, y: Double|
            evaluates(k, *a, x) && evaluates(k, *b, y) && #[trigger] call_ensures(K::times, (k, x, y), r),
        Formula::Over(a, b) => exists|x: Double, y: Double|
            evaluates(k, *a, x) && evaluates(k, *b, y) && #[trigger] call_ensures(K::over, (k, x, y), r),
        Formula::Root(a) => exists|x: Double|
            evaluates(k, *a, x) && #[trigger] call_ensures(K::root, (k, x), r),
        Formula::Log(a) => exists|x: Double|
            evaluates(k, *a, x) && #[trigger] call_ensures(K::log, (k, x), r),
        Formula::Density(a, b) => exists|x: Double, y: Double|
            evaluates(k, *a, x) && evaluates(k, *b, y) && #[trigger] call_ensures(
                K::density,
                (k, x, y),
                r,
            ),
        Formula::LowerTail(a, b) => exists|x: Double, y: Double|
            evaluates(k, *a, x) && evaluates(k, *b, y) && #[trigger] call_ensures(
                K::lower_tail,
                (k, x, y),
                r,
            ),
        Formula::UpperTail(a, b) => exists|x: Double, y: Double|
            evaluates(k, *a, x) && evaluates(k, *b, y) && #[trigger] call_ensures(
                K::upper_tail,
                (k, x, y),
                r,
            ),
    }
}

/// `t` is a draw from Student's t distribution with so many degrees of freedom, made with
/// the generator `before`, which is `after` then.
pub open spec fn draws_t<K: Arithmetic>(
    k: &K,
    freedom: Formula,
    before: SmallRng,
    t: Double,
    after: SmallRng,
) -> bool {
    exists|f: Double|
        evaluates(k, freedom, f) && #[trigger] call_ensures(K::draw, (k, f, before), (t, after))
}

/// A draw from Student's t distribution.
pub fn draw_t<K: Arithmetic>(k: &K, freedom: Term, rng: &mut SmallRng) -> (t: Double)
    requires
        freedom.holds(k),
    ensures
        draws_t(k, freedom.formula@, *old(rng), t, *final(rng)),
{
    let ghost before = *rng;
    let (t, after) = k.draw(freedom.value, lift(rng));
    assert(call_ensures(K::draw, (k, freedom.value, before), (t, after)));
    *rng = after;
    t
}

/// A number together with the formula that it is the value of.
pub struct Term {
    pub value: Double,
    pub formula: Ghost<Formula>,
}

impl Term {
    /// The number is what the formula comes to.
    pub open spec fn holds<K: Arithmetic>(self, k: &K) -> bool {
        evaluates(k, self.formula@, self.value)
    }

    /// A number.
    pub fn num<K: Arithmetic>(k: &K, x: Double) -> (r: Term)
        ensures
            r.holds(k),
            r.formula@ == num(x),
    {
        Term { value: x, formula: Ghost(num(x)) }
    }

    /// A count.
    pub fn count<K: Arithmetic>(k: &K, n: u64) -> (r: Term)
        ensures
            r.holds(k),
            r.formula@ == count(n),
    {
        Term { value: k.of_count(n), formula: Ghost(count(n)) }
    }

    /// A sum of counts.
    pub fn total_of<K: Arithmetic>(k: &K, n: u128) -> (r: Term)
        ensures
            r.holds(k),
            r.formula@ == Formula::TotalOf(n),
    {
        Term { value: k.of_sum(n), formula: Ghost(Formula::TotalOf(n)) }
    }

    /// A span in seconds.
    pub fn seconds<K: Arithmetic>(k: &K, span: Span) -> (r: Term)
        ensures
            r.holds(k),
            r.formula@ == Formula::Seconds(span),
    {
        Term { value: k.of_span(span), formula: Ghost(Formula::Seconds(span)) }
    }

    /// `self + b`.
    pub fn plus<K: Arithmetic>(self, k: &K, b: Term) -> (r: Term)
        requires
            self.holds(k),
            b.holds(k),
        ensures
            r.holds(k),
            r.formula@ == self.formula@.plus(b.formula@),
    {
        let value = k.plus(self.value, b.value);
        let ghost e = self.formula@.plus(b.formula@);
        assert(call_ensures(K::plus, (k, self.value, b.value), value));
        assert(evaluates(k, e, value));
        Term { value, formula: Ghost(e) }
    }

    /// `self - b`.
    pub fn minus<K: Arithmetic>(self, k: &K, b: Term) -> (r: Term)
        requires
            self.holds(k),
            b.holds(k),
        ensures
            r.holds(k),
            r.formula@ == self.formula@.minus(b.formula@),
    {
        let value = k.minus(self.value, b.value);
        let ghost e = self.formula@.minus(b.formula@);
        assert(call_ensures(K::minus, (k, self.value, b.value), value));
        assert(evaluates(k, e, value));
        Term { value, formula: Ghost(e) }
    }

    /// `self * b`.
    pub fn times<K: Arithmetic>(self, k: &K, b: Term) -> (r: Term)
        requires
            self.holds(k),
            b.holds(k),
        ensures
            r.holds(k),
            r.formula@ == self.formula@.times(b.formula@),
    {
        let value = k.times(self.value, b.value);
        let ghost e = self.formula@.times(b.formula@);
        assert(call_ensures(K::times, (k, self.value, b.value), value));
        assert(evaluates(k, e, value));
        Term { value, formula: Ghost(e) }
    }

    /// `self / b`.
    pub fn over<K: Arithmetic>(self, k: &K, b: Term) -> (r: Term)
        requires
            self.holds(k),
            b.holds(k),
        ensures
            r.holds(k),
            r.formula@ == self.formula@.over(b.formula@),
    {
        let value = k.over(self.value, b.value);
        let ghost e = self.formula@.over(b.formula@);
        assert(call_ensures(K::over, (k, self.value, b.value), value));
        assert(evaluates(k, e, value));
        Term { value, formula: Ghost(e) }
    }

    /// The square root.
    pub fn root<K: Arithmetic>(self, k: &K) -> (r: Term)
        requires
            self.holds(k),
        ensures
            r.holds(k),
            r.formula@ == self.formula@.root(),
    {
        let value = k.root(self.value);
        let ghost e = self.formula@.root();
        assert(call_ensures(K::root, (k, self.value), value));
        assert(evaluates(k, e, value));
        Term { value, formula: Ghost(e) }
    }

    /// The natural logarithm.
    pub fn log<K: Arithmetic>(self, k: &K) -> (r: Term)
        requires
            self.holds(k),
        ensures
            r.holds(k),
            r.formula@ == self.formula@.log(),
    {
        let value = k.log(self.value);
        let ghost e = self.formula@.log();
        assert(call_ensures(K::log, (k, self.value), value));
        assert(evaluates(k, e, value));
        Term { value, formula: Ghost(e) }
    }

    /// The density of Student's t distribution with `self` degrees of freedom.
    pub fn density<K: Arithmetic>(self, k: &K, z: Term) -> (r: Term)
        requires
            self.holds(k),
            z.holds(k),
        ensures
            r.holds(k),
            r.formula@ == self.formula@.density(z.formula@),
    {
        let value = k.density(self.value, z.value);
        let ghost e = self.formula@.density(z.formula@);
        assert(call_ensures(K::density, (k, self.value, z.value), value));
        assert(evaluates(k, e, value));
        Term { value, formula: Ghost(e) }
    }

    /// The lower tail of Student's t distribution with `self` degrees of freedom.
    pub fn lower_tail<K: Arithmetic>(self, k: &K, z: Term) -> (r: Term)
        requires
            self.holds(k),
            z.holds(k),
        ensures
            r.holds(k),
            r.formula@ == self.formula@.lower_tail(z.formula@),
    {
        let value = k.lower_tail(self.value, z.value);
        let ghost e = self.formula@.lower_tail(z.formula@);
        assert(call_ensures(K::lower_tail, (k, self.value, z.value), value));
        assert(evaluates(k, e, value));
        Term { value, formula: Ghost(e) }
    }

    /// The upper tail of Student's t distribution with `self` degrees of freedom.
    pub fn upper_tail<K: Arithmetic>(self, k: &K, z: Term) -> (r: Term)
        requires
            self.holds(k),
            z.holds(k),
        ensures
            r.holds(k),
            r.formula@ == self.formula@.upper_tail(z.formula@),
    {
        let value = k.upper_tail(self.value, z.value);
        let ghost e = self.formula@.upper_tail(z.formula@);
        assert(call_ensures(K::upper_tail, (k, self.value, z.value), value));
        assert(evaluates(k, e, value));
        Term { value, formula: Ghost(e) }
    }

    /// The same number.
    pub fn copy<K: Arithmetic>(&self, k: &K) -> (r: Term)
        requires
            self.holds(k),
        ensures
            r.holds(k),
            r.formula@ == self.formula@,
    {
        Term { value: self.value, formula: Ghost(self.formula@) }
    }
}

} // verus!
