//! What the bit patterns of finite numbers stand for: whole multiples of the smallest positive
//! number. The order of the numbers is that of what they stand for, and the constants are what
//! their names say.

use crate::double::{Double, SIGN_BIT};
use crate::exact::Exact;
use crate::preference::size_of;
use vstd::arithmetic::power2::{
    lemma2_to64, lemma2_to64_rest, lemma_pow2_adds, lemma_pow2_pos, lemma_pow2_unfold, pow2,
};
use vstd::prelude::*;

verus! {

/// What a magnitude stands for, in multiples of `2^-1074`: below the first normal number the
/// fraction itself, and then the fraction with its leading bit, doubled once for each further
/// exponent.
pub open spec fn multiples(magnitude: int) -> nat {
    let e = magnitude / 0x10_0000_0000_0000;
    let f = magnitude % 0x10_0000_0000_0000;
    if e <= 0 {
        f as nat
    } else {
        (0x10_0000_0000_0000 + f) as nat * pow2((e - 1) as nat)
    }
}

/// What a finite number stands for, in multiples of `2^-1074`.
pub open spec fn signed_multiples(x: Double) -> int {
    if x.bits < SIGN_BIT {
        multiples(x.magnitude()) as int
    } else {
        -(multiples(x.magnitude()) as int)
    }
}

/// The next magnitude stands for more.
proof fn lemma_next_is_more(a: int)
    requires
        a >= 0,
    ensures
        multiples(a) < multiples(a + 1),
{
    let e = a / 0x10_0000_0000_0000;
    let f = a % 0x10_0000_0000_0000;
    if f < 0xf_ffff_ffff_ffff {
        assert((a + 1) / 0x10_0000_0000_0000 == e && (a + 1) % 0x10_0000_0000_0000 == f + 1);
        if e > 0 {
            let p = pow2((e - 1) as nat) as int;
            lemma_pow2_pos((e - 1) as nat);
            assert((0x10_0000_0000_0000 + f) * p < (0x10_0000_0000_0000 + f + 1) * p) by (nonlinear_arith)
                requires
                    p > 0,
            ;
        }
    } else {
        assert((a + 1) / 0x10_0000_0000_0000 == e + 1 && (a + 1) % 0x10_0000_0000_0000 == 0);
        if e > 0 {
            let p = pow2((e - 1) as nat) as int;
            lemma_pow2_pos((e - 1) as nat);
            lemma_pow2_unfold(e as nat);
            assert((0x10_0000_0000_0000 + f) * p < 0x10_0000_0000_0000 * (2 * p)) by (nonlinear_arith)
                requires
                    p > 0,
                    f == 0xf_ffff_ffff_ffff,
            ;
        } else {
            lemma2_to64();
            let p = pow2(0) as int;
            assert(0x10_0000_0000_0000 * p == 0x10_0000_0000_0000) by (nonlinear_arith)
                requires
                    p == 1,
            ;
        }
    }
}

/// A greater magnitude stands for more.
proof fn lemma_greater_is_more(a: int, b: int)
    requires
        0 <= a < b,
    ensures
        multiples(a) < multiples(b),
    decreases b - a,
{
    lemma_next_is_more(b - 1);
    if a < b - 1 {
        lemma_greater_is_more(a, b - 1);
    }
}

/// Numbers that are finite are in the order of what they stand for, both zeros stand for nothing,
/// and a change of sign changes the sign of what a number stands for.
pub proof fn law_numbers_are_ordered_by_value(x: Double, y: Double)
    requires
        x.finite(),
        y.finite(),
    ensures
        x.below(y) <==> signed_multiples(x) < signed_multiples(y),
        x.at_most(y) <==> signed_multiples(x) <= signed_multiples(y),
        x.equals(y) <==> signed_multiples(x) == signed_multiples(y),
        signed_multiples(x.negated()) == -signed_multiples(x),
        signed_multiples(x.unsigned()) == if signed_multiples(x) < 0 {
            -signed_multiples(x)
        } else {
            signed_multiples(x)
        },
        signed_multiples(Double::zero()) == 0,
        signed_multiples(Double::neg_zero()) == 0,
        signed_multiples(x.larger(y)) >= signed_multiples(x) && signed_multiples(x.larger(y))
            >= signed_multiples(y),
        signed_multiples(x.smaller(y)) <= signed_multiples(x) && signed_multiples(x.smaller(y))
            <= signed_multiples(y),
        x.larger(y) == x || x.larger(y) == y,
        x.smaller(y) == x || x.smaller(y) == y,
{
    let a = x.magnitude();
    let b = y.magnitude();
    assert(multiples(0) == 0);
    if a < b {
        lemma_greater_is_more(a, b);
    }
    if b < a {
        lemma_greater_is_more(b, a);
    }
    if a > 0 {
        lemma_greater_is_more(0, a);
    }
    if b > 0 {
        lemma_greater_is_more(0, b);
    }
    assert(x.unsigned().magnitude() == a);
    assert(x.negated().magnitude() == a);
}

/// The powers of two by which the constants differ from one.
proof fn lemma_powers(p: int)
    requires
        p == pow2(1022),
    ensures
        pow2(1021) * 2 == p,
        pow2(1023) == 2 * p,
        pow2(1027) == 32 * p,
        pow2(1028) == 64 * p,
        pow2(1031) == 512 * p,
        p > 0,
{
    lemma_pow2_unfold(1022);
    lemma_pow2_pos(1022);
    lemma2_to64();
    lemma_pow2_adds(1022, 1);
    lemma_pow2_adds(1022, 5);
    lemma_pow2_adds(1022, 6);
    lemma_pow2_adds(1022, 9);
    assert(pow2(1) == 2 && pow2(5) == 32 && pow2(6) == 64 && pow2(9) == 512);
    assert(pow2(1022) * 2 == 2 * p) by (nonlinear_arith)
        requires
            p == pow2(1022),
    ;
    assert(pow2(1022) * 32 == 32 * p) by (nonlinear_arith)
        requires
            p == pow2(1022),
    ;
    assert(pow2(1022) * 64 == 64 * p) by (nonlinear_arith)
        requires
            p == pow2(1022),
    ;
    assert(pow2(1022) * 512 == 512 * p) by (nonlinear_arith)
        requires
            p == pow2(1022),
    ;
}

/// The constants are what their names say, as multiples of one.
pub proof fn law_constants_are_what_they_say()
    ensures
        signed_multiples(Double::one()) > 0,
        signed_multiples(Double::two()) == 2 * signed_multiples(Double::one()),
        2 * signed_multiples(Double::half()) == signed_multiples(Double::one()),
        signed_multiples(Double::sixty()) == 60 * signed_multiples(Double::one()),
        signed_multiples(Double::hundred()) == 100 * signed_multiples(Double::one()),
        signed_multiples(Double::thousand()) == 1000 * signed_multiples(Double::one()),
{
    let p = pow2(1022) as int;
    lemma_powers(p);
    lemma_multiples(Double::one().magnitude(), 1023, 0, p);
    lemma_multiples(Double::two().magnitude(), 1024, 0, 2 * p);
    lemma_multiples(Double::half().magnitude(), 1022, 0, pow2(1021) as int);
    lemma_multiples(Double::sixty().magnitude(), 1028, 0xe_0000_0000_0000, 32 * p);
    lemma_multiples(Double::hundred().magnitude(), 1029, 0x9_0000_0000_0000, 64 * p);
    lemma_multiples(Double::thousand().magnitude(), 1032, 0xf_4000_0000_0000, 512 * p);
}

/// What a magnitude stands for, from its exponent and its fraction.
proof fn lemma_multiples(magnitude: int, e: int, f: int, p: int)
    requires
        e > 0,
        0 <= f < 0x10_0000_0000_0000,
        magnitude == e * 0x10_0000_0000_0000 + f,
        p == pow2((e - 1) as nat),
    ensures
        multiples(magnitude) == (0x10_0000_0000_0000 + f) * p,
{
    assert(magnitude / 0x10_0000_0000_0000 == e && magnitude % 0x10_0000_0000_0000 == f);
}

/// The tolerance is the number nearest to `10^-12`: a billionth of a thousandth of one lies between
/// it and the next number, in its lower half.
pub proof fn law_tolerance_is_a_billionth_of_a_thousandth()
    ensures
        1_000_000_000_000 * signed_multiples(Double::tolerance()) <= signed_multiples(Double::one()),
        2 * signed_multiples(Double::one()) < 1_000_000_000_000 * (signed_multiples(Double::tolerance())
            + signed_multiples(Double { bits: (Double::tolerance().bits + 1) as u64 })),
{
    let p = pow2(982) as int;
    lemma_pow2_pos(982);
    lemma2_to64_rest();
    lemma_pow2_adds(982, 40);
    assert(pow2(40) == 0x100_0000_0000);
    assert(pow2(1022) == 0x100_0000_0000 * p) by (nonlinear_arith)
        requires
            pow2(1022) == pow2(982) * 0x100_0000_0000,
            p == pow2(982),
    ;
    lemma_multiples(Double::one().magnitude(), 1023, 0, 0x100_0000_0000 * p);
    lemma_multiples(Double::tolerance().magnitude(), 983, 0x1_9799_812d_ea11, p);
    lemma_multiples(Double::tolerance().magnitude() + 1, 983, 0x1_9799_812d_ea12, p);
}

/// A reading of the numbers as what they stand for, with one as the unit.
pub open spec fn reads_multiples(m: Exact) -> bool {
    forall|x: Double|
        x.finite() ==> #[trigger] (m.value)(x) * (signed_multiples(Double::one()) as real)
            == signed_multiples(x) as real
}

proof fn lemma_same_multiple(x: real, y: real, u: real)
    requires
        u > 0 as real,
    ensures
        x < y <==> x * u < y * u,
        x == y <==> x * u == y * u,
{
    assert(x < y ==> x * u < y * u) by (nonlinear_arith)
        requires
            u > 0 as real,
    ;
    assert(y < x ==> y * u < x * u) by (nonlinear_arith)
        requires
            u > 0 as real,
    ;
}

/// A constant that is so many times one.
proof fn lemma_times_one(m: Exact, x: Double, c: real)
    requires
        reads_multiples(m),
        x.finite(),
        signed_multiples(Double::one()) > 0,
        signed_multiples(x) as real == c * (signed_multiples(Double::one()) as real),
    ensures
        m.at(x) == c,
{
    lemma_same_multiple(m.at(x), c, signed_multiples(Double::one()) as real);
}

/// Under the reading of the numbers as what they stand for, what the laws of exact arithmetic ask
/// of the order, the signs and the constants holds.
pub proof fn law_numbers_read_as_what_they_are(m: Exact)
    requires
        reads_multiples(m),
    ensures
        m.ordered(),
        m.signed(),
        m.mirrored(),
        m.at(Double::one()) == 1 as real,
        m.at(Double::two()) == 2 as real,
        m.at(Double::half()) + m.at(Double::half()) == 1 as real,
        m.at(Double::sixty()) == 60 as real,
        m.at(Double::hundred()) == 100 as real,
        m.at(Double::thousand()) == 1000 as real,
{
    law_constants_are_what_they_say();
    let u = signed_multiples(Double::one()) as real;
    assert forall|x: Double, y: Double| x.finite() && y.finite() implies (#[trigger] x.below(y) <==> (
    m.value)(x) < (m.value)(y)) by {
        law_numbers_are_ordered_by_value(x, y);
        lemma_same_multiple((m.value)(x), (m.value)(y), u);
    }
    assert forall|x: Double| x.finite() implies m.at(#[trigger] x.unsigned()) == size_of(m.at(x)) by {
        law_numbers_are_ordered_by_value(x, x);
        let v = m.at(x);
        assert((-v) * u == -(v * u)) by (nonlinear_arith);
        lemma_same_multiple(m.at(x.unsigned()), v, u);
        lemma_same_multiple(m.at(x.unsigned()), -v, u);
        lemma_same_multiple(v, 0 as real, u);
        assert((0 as real) * u == 0 as real) by (nonlinear_arith);
        assert(x.unsigned().finite());
    }
    assert forall|x: Double| x.finite() implies m.at(#[trigger] x.negated()) == -m.at(x) by {
        law_numbers_are_ordered_by_value(x, x);
        let v = m.at(x);
        assert((-v) * u == -(v * u)) by (nonlinear_arith);
        lemma_same_multiple(m.at(x.negated()), -v, u);
        assert(x.negated().finite());
    }
    assert(Double::zero().finite() && Double::one().finite());
    law_numbers_are_ordered_by_value(Double::zero(), Double::one());
    assert((0 as real) * u == 0 as real) by (nonlinear_arith);
    lemma_times_one(m, Double::zero(), 0 as real);
    assert((1 as real) * u == u) by (nonlinear_arith);
    lemma_times_one(m, Double::one(), 1 as real);
    lemma_times_one(m, Double::two(), 2 as real);
    lemma_times_one(m, Double::sixty(), 60 as real);
    lemma_times_one(m, Double::hundred(), 100 as real);
    lemma_times_one(m, Double::thousand(), 1000 as real);
    let h = m.at(Double::half());
    assert((h + h) * u == h * u + h * u) by (nonlinear_arith);
    lemma_same_multiple(h + h, 1 as real, u);
}

} // verus!
