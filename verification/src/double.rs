//! Double-precision numbers held by their bit pattern.
//!
//! A [`Double`] carries a floating-point quantity (a posterior mean, a score, a
//! probability) as its IEEE 754 binary64 bits, so that every comparison is a comparison
//! of integers.

use vstd::prelude::*;

verus! {

/// The bit that carries the sign of a double.
pub const SIGN_BIT: u64 = 0x8000_0000_0000_0000;

/// The bit pattern of positive infinity: every larger magnitude is a NaN.
pub const INFINITY_BITS: u64 = 0x7ff0_0000_0000_0000;

/// The bit pattern of one.
pub const ONE_BITS: u64 = 0x3ff0_0000_0000_0000;

/// A binary64 number, held by its bits. `==` compares as IEEE 754 does; see
/// [`Double::same`].
#[derive(Clone, Copy, Debug)]
pub struct Double {
    pub bits: u64,
}

impl PartialEq for Double {
    fn eq(&self, other: &Double) -> (r: bool) {
        self.same(*other)
    }
}

impl vstd::std_specs::cmp::PartialEqSpecImpl for Double {
    open spec fn obeys_eq_spec() -> bool {
        true
    }

    open spec fn eq_spec(&self, other: &Double) -> bool {
        self.equals(*other)
    }
}

impl Double {
    /// The bits without the sign: they order the non-negative numbers.
    pub open spec fn magnitude(self) -> int {
        if self.bits < SIGN_BIT {
            self.bits as int
        } else {
            self.bits - SIGN_BIT
        }
    }

    /// Neither a number nor an infinity.
    pub open spec fn nan(self) -> bool {
        self.magnitude() > INFINITY_BITS
    }

    /// Neither infinite nor NaN.
    pub open spec fn finite(self) -> bool {
        self.magnitude() < INFINITY_BITS
    }

    /// The place of a number among the numbers: both zeros are at 0.
    pub open spec fn rank(self) -> int {
        if self.bits < SIGN_BIT {
            self.magnitude()
        } else {
            -self.magnitude()
        }
    }

    /// The place of a bit pattern in the total order of IEEE 754, in which
    /// negative zero lies below zero and NaNs lie at both ends.
    pub open spec fn total_rank(self) -> int {
        if self.bits < SIGN_BIT {
            self.magnitude()
        } else {
            -self.magnitude() - 1
        }
    }

    /// `self < other`, false as soon as one of them is a NaN.
    pub open spec fn below(self, other: Double) -> bool {
        !self.nan() && !other.nan() && self.rank() < other.rank()
    }

    /// `self <= other`, false as soon as one of them is a NaN.
    pub open spec fn at_most(self, other: Double) -> bool {
        !self.nan() && !other.nan() && self.rank() <= other.rank()
    }

    /// `self == other` as IEEE 754 compares: the two zeros are equal, and a NaN equals
    /// nothing.
    pub open spec fn equals(self, other: Double) -> bool {
        !self.nan() && !other.nan() && self.rank() == other.rank()
    }

    /// The larger of two numbers; a NaN gives way to the other argument.
    pub open spec fn larger(self, other: Double) -> Double {
        if self.nan() || self.below(other) {
            other
        } else {
            self
        }
    }

    /// The smaller of two numbers; a NaN gives way to the other argument.
    pub open spec fn smaller(self, other: Double) -> Double {
        if self.nan() || other.below(self) {
            other
        } else {
            self
        }
    }

    /// Zero.
    #[verifier::allow_in_spec]
    pub fn zero() -> (r: Double)
        returns
            (Double { bits: 0 }),
    {
        Double { bits: 0 }
    }

    /// One.
    #[verifier::allow_in_spec]
    pub fn one() -> (r: Double)
        returns
            (Double { bits: ONE_BITS }),
    {
        Double { bits: ONE_BITS }
    }

    /// One half.
    #[verifier::allow_in_spec]
    pub fn half() -> (r: Double)
        returns
            (Double { bits: 0x3fe0_0000_0000_0000 }),
    {
        Double { bits: 0x3fe0_0000_0000_0000 }
    }

    /// Two.
    #[verifier::allow_in_spec]
    pub fn two() -> (r: Double)
        returns
            (Double { bits: 0x4000_0000_0000_0000 }),
    {
        Double { bits: 0x4000_0000_0000_0000 }
    }

    /// Sixty.
    #[verifier::allow_in_spec]
    pub fn sixty() -> (r: Double)
        returns
            (Double { bits: 0x404e_0000_0000_0000 }),
    {
        Double { bits: 0x404e_0000_0000_0000 }
    }

    /// A hundred.
    #[verifier::allow_in_spec]
    pub fn hundred() -> (r: Double)
        returns
            (Double { bits: 0x4059_0000_0000_0000 }),
    {
        Double { bits: 0x4059_0000_0000_0000 }
    }

    /// A thousand.
    #[verifier::allow_in_spec]
    pub fn thousand() -> (r: Double)
        returns
            (Double { bits: 0x408f_4000_0000_0000 }),
    {
        Double { bits: 0x408f_4000_0000_0000 }
    }

    /// The number nearest to `10^-12`, below which scores count as equal.
    #[verifier::allow_in_spec]
    pub fn tolerance() -> (r: Double)
        returns
            (Double { bits: 0x3d71_9799_812d_ea11 }),
    {
        Double { bits: 0x3d71_9799_812d_ea11 }
    }

    /// Negative zero, to which any number can be added without a change.
    #[verifier::allow_in_spec]
    pub fn neg_zero() -> (r: Double)
        returns
            (Double { bits: SIGN_BIT }),
    {
        Double { bits: SIGN_BIT }
    }

    /// Positive infinity.
    #[verifier::allow_in_spec]
    pub fn infinity() -> (r: Double)
        returns
            (Double { bits: INFINITY_BITS }),
    {
        Double { bits: INFINITY_BITS }
    }

    /// Negative infinity.
    #[verifier::allow_in_spec]
    pub fn neg_infinity() -> (r: Double)
        returns
            (Double { bits: 0xfff0_0000_0000_0000 }),
    {
        Double { bits: 0xfff0_0000_0000_0000 }
    }

    fn abs_bits(self) -> (r: u64)
        ensures
            r == self.magnitude(),
    {
        if self.bits < SIGN_BIT {
            self.bits
        } else {
            self.bits - SIGN_BIT
        }
    }

    /// The number without its sign.
    pub open spec fn unsigned(self) -> Double {
        Double { bits: self.magnitude() as u64 }
    }

    /// The number without its sign.
    pub fn abs(self) -> (r: Double)
        ensures
            r == self.unsigned(),
    {
        Double { bits: self.abs_bits() }
    }

    /// The number with the other sign.
    pub open spec fn negated(self) -> Double {
        if self.bits < SIGN_BIT {
            Double { bits: (self.bits + SIGN_BIT) as u64 }
        } else {
            Double { bits: (self.bits - SIGN_BIT) as u64 }
        }
    }

    /// The number with the other sign.
    pub fn neg(self) -> (r: Double)
        ensures
            r == self.negated(),
    {
        if self.bits < SIGN_BIT {
            Double { bits: self.bits + SIGN_BIT }
        } else {
            Double { bits: self.bits - SIGN_BIT }
        }
    }

    fn place(self) -> (r: i128)
        ensures
            r == self.rank(),
            -0x8000_0000_0000_0000 <= r <= 0x8000_0000_0000_0000,
    {
        if self.bits < SIGN_BIT {
            self.bits as i128
        } else {
            -((self.bits - SIGN_BIT) as i128)
        }
    }

    /// Whether this is a NaN.
    pub fn is_nan(self) -> (r: bool)
        ensures
            r == self.nan(),
    {
        self.abs_bits() > INFINITY_BITS
    }

    /// Whether this is neither infinite nor a NaN.
    pub fn is_finite(self) -> (r: bool)
        ensures
            r == self.finite(),
    {
        self.abs_bits() < INFINITY_BITS
    }

    /// `self < other` as IEEE 754 compares.
    pub fn lt(self, other: Double) -> (r: bool)
        ensures
            r == self.below(other),
    {
        !self.is_nan() && !other.is_nan() && self.place() < other.place()
    }

    /// `self <= other` as IEEE 754 compares.
    pub fn le(self, other: Double) -> (r: bool)
        ensures
            r == self.at_most(other),
    {
        !self.is_nan() && !other.is_nan() && self.place() <= other.place()
    }

    /// `self == other` as IEEE 754 compares: the two zeros are equal, and a NaN
    /// equals nothing.
    pub fn same(self, other: Double) -> (r: bool)
        ensures
            r == self.equals(other),
    {
        !self.is_nan() && !other.is_nan() && self.place() == other.place()
    }

    /// Whether `self` lies strictly below `other` in the total order.
    pub fn total_lt(self, other: Double) -> (r: bool)
        ensures
            r == (self.total_rank() < other.total_rank()),
    {
        let a: i128 = if self.bits < SIGN_BIT { self.place() } else { self.place() - 1 };
        let b: i128 = if other.bits < SIGN_BIT { other.place() } else { other.place() - 1 };
        a < b
    }

    /// The larger of two numbers; a NaN gives way to the other argument.
    pub fn max(self, other: Double) -> (r: Double)
        ensures
            r == self.larger(other),
    {
        if self.is_nan() || self.lt(other) {
            other
        } else {
            self
        }
    }

    /// The smaller of two numbers; a NaN gives way to the other argument.
    pub fn min(self, other: Double) -> (r: Double)
        ensures
            r == self.smaller(other),
    {
        if self.is_nan() || other.lt(self) {
            other
        } else {
            self
        }
    }

    /// The nearest number of the unit interval; a NaN stays as it is.
    pub open spec fn clamped(self) -> Double {
        if self.below(Double::zero()) {
            Double::zero()
        } else if Double::one().below(self) {
            Double::one()
        } else {
            self
        }
    }

    /// The nearest number of the unit interval; a NaN stays as it is.
    pub fn clamp_unit(self) -> (r: Double)
        ensures
            r == self.clamped(),
    {
        if self.lt(Double::zero()) {
            Double::zero()
        } else if Double::one().lt(self) {
            Double::one()
        } else {
            self
        }
    }
}

/// The largest of `xs` that is a number, by [`Double::larger`] from the left, or
/// negative infinity where there is none.
pub open spec fn greatest(xs: Seq<Double>) -> Double
    decreases xs.len(),
{
    if xs.len() == 0 {
        Double::neg_infinity()
    } else {
        greatest(xs.drop_last()).larger(xs.last())
    }
}

/// The smallest of `xs` that is a number, by [`Double::smaller`] from the left, or
/// infinity where there is none.
pub open spec fn least(xs: Seq<Double>) -> Double
    decreases xs.len(),
{
    if xs.len() == 0 {
        Double::infinity()
    } else {
        least(xs.drop_last()).smaller(xs.last())
    }
}

/// The largest of the entries of `xs` other than the one at `skip`.
pub open spec fn greatest_other(xs: Seq<Double>, skip: int) -> Double {
    greatest(xs.remove(skip))
}

/// The largest of `floor` and the entries, by [`Double::larger`] from the left.
pub open spec fn greatest_above(floor: Double, xs: Seq<Double>) -> Double
    decreases xs.len(),
{
    if xs.len() == 0 {
        floor
    } else {
        greatest_above(floor, xs.drop_last()).larger(xs.last())
    }
}

/// The largest of `floor` and the entries; see [`greatest_above`].
pub fn greatest_above_of(floor: Double, xs: &Vec<Double>) -> (r: Double)
    ensures
        r == greatest_above(floor, xs@),
{
    let mut best = floor;
    for i in 0..xs.len()
        invariant
            best == greatest_above(floor, xs@.take(i as int)),
    {
        assert(xs@.take(i + 1).drop_last() =~= xs@.take(i as int));
        best = best.max(xs[i]);
    }
    assert(xs@.take(xs@.len() as int) =~= xs@);
    best
}

/// The largest entry; see [`greatest`].
pub fn greatest_of(xs: &Vec<Double>) -> (r: Double)
    ensures
        r == greatest(xs@),
{
    let mut best = Double::neg_infinity();
    for i in 0..xs.len()
        invariant
            best == greatest(xs@.take(i as int)),
    {
        assert(xs@.take(i + 1).drop_last() =~= xs@.take(i as int));
        best = best.max(xs[i]);
    }
    assert(xs@.take(xs@.len() as int) =~= xs@);
    best
}

/// The smallest entry; see [`least`].
pub fn least_of(xs: &Vec<Double>) -> (r: Double)
    ensures
        r == least(xs@),
{
    let mut best = Double::infinity();
    for i in 0..xs.len()
        invariant
            best == least(xs@.take(i as int)),
    {
        assert(xs@.take(i + 1).drop_last() =~= xs@.take(i as int));
        best = best.min(xs[i]);
    }
    assert(xs@.take(xs@.len() as int) =~= xs@);
    best
}

/// The best of the competitors of entry `skip`; see [`greatest_other`].
pub fn greatest_other_than(xs: &Vec<Double>, skip: usize) -> (r: Double)
    requires
        skip < xs@.len(),
    ensures
        r == greatest_other(xs@, skip as int),
{
    let mut best = Double::neg_infinity();
    let ghost rest = xs@.remove(skip as int);
    for i in 0..xs.len()
        invariant
            skip < xs@.len(),
            rest == xs@.remove(skip as int),
            best == greatest(rest.take(if i <= skip { i as int } else { i - 1 })),
    {
        if i != skip {
            let ghost p: int = if i < skip { i as int } else { i - 1 };
            assert(rest[p] == xs@[i as int]);
            assert(rest.take(p + 1).drop_last() =~= rest.take(p));
            best = best.max(xs[i]);
        }
    }
    assert(rest.take(rest.len() as int) =~= rest);
    best
}

/// `r` is the first of the entries that no other entry exceeds, among those above
/// negative infinity; it is 0 where no entry lies above negative infinity.
pub open spec fn first_greatest(xs: Seq<Double>, r: int) -> bool {
    let floor = Double::neg_infinity();
    if exists|i: int| 0 <= i < xs.len() && floor.below(#[trigger] xs[i]) {
        &&& 0 <= r < xs.len()
        &&& floor.below(xs[r])
        &&& forall|i: int| 0 <= i < xs.len() ==> !xs[r].below(#[trigger] xs[i])
        &&& forall|i: int| 0 <= i < r ==> floor.below(#[trigger] xs[i]) ==> xs[i].below(xs[r])
    } else {
        r == 0
    }
}

/// The index of the first entry that no other entry exceeds; see
/// [`first_greatest`].
pub fn index_of_first_greatest(xs: &Vec<Double>) -> (r: usize)
    ensures
        first_greatest(xs@, r as int),
        xs@.len() > 0 ==> r < xs@.len(),
{
    let mut best_i: usize = 0;
    let mut best = Double::neg_infinity();
    let ghost floor = Double::neg_infinity();
    for i in 0..xs.len()
        invariant
            floor == Double::neg_infinity(),
            !best.nan(),
            best_i == 0 || best_i < i,
            best == floor || (best_i < i && best == xs@[best_i as int] && floor.below(best)),
            best == floor ==> best_i == 0,
            forall|j: int| 0 <= j < i ==> !best.below(#[trigger] xs@[j]),
            forall|j: int|
                0 <= j < best_i ==> floor.below(#[trigger] xs@[j]) ==> xs@[j].below(best),
    {
        if best.lt(xs[i]) {
            best = xs[i];
            best_i = i;
        }
    }
    best_i
}

/// `r` is the last of the entries that are maximal in the total order.
pub open spec fn last_greatest(xs: Seq<Double>, r: int) -> bool {
    &&& 0 <= r < xs.len()
    &&& forall|i: int| 0 <= i < xs.len() ==> (#[trigger] xs[i]).total_rank() <= xs[r].total_rank()
    &&& forall|i: int| r < i < xs.len() ==> (#[trigger] xs[i]).total_rank() < xs[r].total_rank()
}

/// The index of the last entry that is maximal in the total order.
pub fn index_of_last_greatest(xs: &Vec<Double>) -> (r: usize)
    requires
        xs@.len() > 0,
    ensures
        last_greatest(xs@, r as int),
{
    let mut best_i: usize = 0;
    for i in 1..xs.len()
        invariant
            best_i < i <= xs@.len(),
            last_greatest(xs@.take(i as int), best_i as int),
    {
        let ghost before = xs@.take(i as int);
        let ghost after = xs@.take(i + 1);
        assert(forall|j: int| 0 <= j < i ==> after[j] == before[j]);
        if !xs[i].total_lt(xs[best_i]) {
            best_i = i;
        }
    }
    assert(xs@.take(xs@.len() as int) =~= xs@);
    best_i
}

/// `r` is a greatest entry in the total order among those other than `skip`.
pub open spec fn runner_up(xs: Seq<Double>, skip: int, r: int) -> bool {
    &&& 0 <= r < xs.len()
    &&& r != skip
    &&& forall|i: int|
        0 <= i < xs.len() && i != skip ==> (#[trigger] xs[i]).total_rank() <= xs[r].total_rank()
}

/// The index of a greatest entry other than `skip`.
pub fn index_of_runner_up(xs: &Vec<Double>, skip: usize) -> (r: usize)
    requires
        xs@.len() >= 2,
        skip < xs@.len(),
    ensures
        runner_up(xs@, skip as int, r as int),
{
    let mut best_i: usize = if skip == 0 {
        1
    } else {
        0
    };
    for i in 0..xs.len()
        invariant
            best_i < xs@.len(),
            best_i != skip,
            forall|j: int|
                0 <= j < i && j != skip ==> (#[trigger] xs@[j]).total_rank() <= xs@[best_i as int].total_rank(),
    {
        if i != skip && xs[best_i].total_lt(xs[i]) {
            best_i = i;
        }
    }
    best_i
}

/// The total order is linear, and two bit patterns share a place only where they
/// are equal.
pub proof fn law_total_order_is_linear(a: Double, b: Double)
    ensures
        a.total_rank() < b.total_rank() || b.total_rank() < a.total_rank() || a == b,
        a.total_rank() == b.total_rank() ==> a == b,
{
}

/// The total order refines the order of the numbers.
pub proof fn law_total_order_refines_comparison(a: Double, b: Double)
    requires
        a.below(b),
    ensures
        a.total_rank() < b.total_rank(),
{
}

/// No entry that is a number exceeds the greatest one, which is one of the
/// entries unless no entry is a number above negative infinity.
pub proof fn law_greatest_bounds(xs: Seq<Double>)
    ensures
        !greatest(xs).nan(),
        forall|i: int| 0 <= i < xs.len() ==> !greatest(xs).below(#[trigger] xs[i]),
        greatest(xs) == Double::neg_infinity() || xs.contains(greatest(xs)),
    decreases xs.len(),
{
    if xs.len() > 0 {
        let rest = xs.drop_last();
        law_greatest_bounds(rest);
        assert forall|i: int| 0 <= i < xs.len() implies !greatest(xs).below(#[trigger] xs[i]) by {
            if i < rest.len() {
                assert(!greatest(rest).below(rest[i]));
            }
        }
        if greatest(xs) == xs.last() {
            assert(xs[xs.len() - 1] == greatest(xs));
        } else if rest.contains(greatest(rest)) {
            let i = choose|i: int| 0 <= i < rest.len() && rest[i] == greatest(rest);
            assert(xs[i] == greatest(xs));
        }
    }
}

/// Two lists of finite numbers in the same order: wherever an entry of one exceeds
/// another, so does that of the other.
pub open spec fn same_order(xs: Seq<Double>, ys: Seq<Double>) -> bool {
    &&& xs.len() == ys.len()
    &&& forall|i: int| 0 <= i < xs.len() ==> (#[trigger] xs[i]).finite() && ys[i].finite()
    &&& forall|i: int, j: int|
        0 <= i < xs.len() && 0 <= j < xs.len() ==> ((#[trigger] xs[i]).below(#[trigger] xs[j])
            <==> ys[i].below(ys[j]))
}

/// Which entry is the first greatest one depends on the order of the entries alone, and
/// so it survives a positive scale and a shift.
pub proof fn law_order_decides_first_greatest(xs: Seq<Double>, ys: Seq<Double>, r: int)
    requires
        same_order(xs, ys),
        first_greatest(xs, r),
    ensures
        first_greatest(ys, r),
{
    let floor = Double::neg_infinity();
    assert forall|i: int| 0 <= i < xs.len() implies floor.below(#[trigger] ys[i]) && floor.below(
        xs[i],
    ) by {
        assert(xs[i].finite());
    }
    if xs.len() > 0 {
        assert(floor.below(xs[0]));
        assert(floor.below(ys[0]));
        assert forall|i: int| 0 <= i < ys.len() implies !ys[r].below(#[trigger] ys[i]) by {
            assert(!xs[r].below(xs[i]));
        }
        assert forall|i: int| 0 <= i < r && floor.below(#[trigger] ys[i]) implies ys[i].below(ys[r]) by {
            assert(floor.below(xs[i]));
            assert(xs[i].below(xs[r]));
        }
    }
}

} // verus!
