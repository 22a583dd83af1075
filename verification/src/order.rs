//! Facts about the size and the order of data that are not negative.
use vstd::arithmetic::div_mod::lemma_div_is_ordered;
use vstd::arithmetic::power2::{lemma_pow2_adds, lemma_pow2_pos, pow2};
use vstd::prelude::*;

use crate::datum::{finite, limit_units, of_int, one_units, rounded, Datum};
use crate::rounding::{
    lemma_nearest_at_least, lemma_nearest_at_most, lemma_nearest_exact, lemma_nearest_monotonic,
    lemma_pow2_le, lemma_pow2_values,
};
use crate::time::{seconds, NANOS_PER_SEC};

verus! {

/// A small integer is a datum.
pub(crate) proof fn lemma_of_small_int(n: nat)
    requires
        n < pow2(53),
    ensures
        of_int(n) == finite(n * one_units()),
{
    lemma_nearest_exact(n, 1074, 1);
    lemma_pow2_pos(1074);
    lemma_pow2_adds(53, 1074);
    lemma_pow2_le(1127, 2098);
    assert(n * one_units() * 1 == n * one_units()) by (nonlinear_arith);
    assert(n * one_units() < pow2(53) * pow2(1074)) by (nonlinear_arith)
        requires
            n < pow2(53),
            one_units() == pow2(1074),
            pow2(1074) > 0,
    ;
}

/// The datum of an integer is zero only for zero.
pub(crate) proof fn lemma_of_int_positive(n: nat)
    requires
        n > 0,
    ensures
        !of_int(n).negative(),
        of_int(n) !is Nan,
        of_int(n).position() >= one_units(),
{
    lemma_pow2_values();
    lemma_pow2_pos(1074);
    lemma_pow2_le(1074, 2098);
    assert(1 * one_units() * 1 <= n * one_units()) by (nonlinear_arith)
        requires
            n >= 1,
    ;
    assert(1 * one_units() == one_units()) by (nonlinear_arith);
    lemma_nearest_at_least(n * one_units(), 1, 1, 1074);
}

/// A span of time is not negative, and zero seconds long only where it is empty.
pub(crate) proof fn lemma_seconds(nanos: nat)
    ensures
        seconds(nanos) !is Nan,
        !seconds(nanos).negative(),
        seconds(nanos).position() == 0 <==> nanos == 0,
{
    let whole = nanos / NANOS_PER_SEC as nat;
    let part = nanos % NANOS_PER_SEC as nat;
    lemma_pow2_values();
    lemma_pow2_pos(1074);
    lemma_pow2_pos(2098);
    lemma_of_small_int(0);
    lemma_of_small_int(part);
    lemma_of_small_int(NANOS_PER_SEC as nat);
    let a = part * one_units();
    let b = NANOS_PER_SEC as nat * one_units();
    let ratio = of_int(part).quotient(of_int(NANOS_PER_SEC as nat));
    assert(0 * one_units() == 0) by (nonlinear_arith);
    assert(b > 0) by (nonlinear_arith)
        requires
            b == 1_000_000_000 * one_units(),
            one_units() > 0,
    ;
    assert(ratio == rounded(false, a * one_units(), b));
    // The fraction is positive unless it is empty.
    if part > 0 {
        lemma_pow2_adds(30, 1044);
        vstd::arithmetic::power2::lemma2_to64();
        lemma_pow2_pos(1044);
        assert(1 * pow2(1044) * b <= a * one_units()) by (nonlinear_arith)
            requires
                a == part * one_units(),
                part >= 1,
                b == 1_000_000_000 * one_units(),
                one_units() == 0x4000_0000 * pow2(1044),
        ;
        lemma_nearest_at_least(a * one_units(), b, 1, 1044);
        assert(ratio.position() > 0);
    } else {
        assert(0 * one_units() * b == 0) by (nonlinear_arith);
        lemma_nearest_exact(0, 0, b);
        assert(0 * pow2(0) * b == 0) by (nonlinear_arith);
        assert(0 * pow2(0) == 0) by (nonlinear_arith);
        assert(ratio == finite(0));
    }
    if whole > 0 {
        lemma_of_int_positive(whole);
    }
    let first = of_int(whole);
    match (first, ratio) {
        (Datum::Finite { units: u, .. }, Datum::Finite { units: v, .. }) => {
            if u + v > 0 {
                assert(1 * pow2(0) * 1 <= u + v);
                lemma_nearest_at_least(u + v, 1, 1, 0);
            } else {
                assert(0 * pow2(0) * 1 == 0) by (nonlinear_arith);
                lemma_nearest_exact(0, 0, 1);
            }
        },
        _ => {},
    }
}

/// Rounding keeps the order, also at the end of the range.
pub(crate) proof fn lemma_rounded_monotonic(p1: nat, q1: nat, p2: nat, q2: nat)
    requires
        q1 > 0,
        q2 > 0,
        p1 * q2 <= p2 * q1,
    ensures
        rounded(false, p1, q1).at_most(rounded(false, p2, q2)),
{
    lemma_nearest_monotonic(p1, q1, p2, q2);
}

/// Integers keep their order as data.
pub(crate) proof fn lemma_of_int_monotonic(a: nat, b: nat)
    requires
        a <= b,
    ensures
        of_int(a).at_most(of_int(b)),
        !of_int(a).negative(),
{
    assert(a * one_units() * 1 <= b * one_units() * 1) by (nonlinear_arith)
        requires
            a <= b,
    ;
    lemma_rounded_monotonic(a * one_units(), 1, b * one_units(), 1);
}

/// An integer of 64 bits is in range.
pub(crate) proof fn lemma_of_int_finite(n: nat)
    requires
        n <= u64::MAX,
    ensures
        of_int(n) is Finite,
        of_int(n)->Finite_units <= pow2(1138),
{
    lemma_pow2_values();
    lemma_pow2_adds(64, 1074);
    lemma_pow2_le(1139, 2098);
    vstd::arithmetic::power2::lemma_pow2_strictly_increases(1138, 1139);
    assert(n * one_units() <= 1 * pow2(1138) * 1) by (nonlinear_arith)
        requires
            n <= pow2(64),
            pow2(1138) == pow2(64) * one_units(),
    ;
    lemma_nearest_at_most(n * one_units(), 1, 1, 1138);
    assert(1 * pow2(1138) == pow2(1138)) by (nonlinear_arith);
}

/// What is further up the number line has no smaller integer part.
/// A NaN counts as zero.
pub(crate) proof fn lemma_truncated_monotonic(a: Datum, b: Datum)
    requires
        a.position() <= b.position(),
        !b.negative(),
    ensures
        a.truncated() <= b.truncated(),
        b.truncated() <= u64::MAX,
{
    lemma_pow2_pos(1074);
    lemma_pow2_adds(1024, 1074);
    lemma_pow2_values();
    lemma_pow2_le(64, 1024);
    vstd::arithmetic::div_mod::lemma_div_multiples_vanish(pow2(1024) as int, one_units() as int);
    let far = limit_units() / one_units();
    assert(far == pow2(1024)) by {
        assert(limit_units() == one_units() * pow2(1024)) by (nonlinear_arith)
            requires
                limit_units() == pow2(1024) * one_units(),
        ;
    }
    if a.position() >= 0 {
        lemma_div_is_ordered(a.position(), b.position(), one_units() as int);
    }
}

/// A smaller divisor gives no smaller quotient. A NaN counts as zero.
pub(crate) proof fn lemma_quotient_antitone(x: Datum, a: nat, b: nat)
    requires
        !x.negative(),
        a <= b,
    ensures
        x.quotient(finite(b)).position() <= x.quotient(finite(a)).position(),
        !x.quotient(finite(a)).negative(),
        !x.quotient(finite(b)).negative(),
{
    lemma_pow2_pos(2098);
    match x {
        Datum::Finite { units, .. } => {
            let p = units * one_units();
            if a > 0 {
                assert(p * a <= p * b) by (nonlinear_arith)
                    requires
                        a <= b,
                ;
                lemma_rounded_monotonic(p, b, p, a);
            } else if b > 0 && units == 0 {
                assert(0 * one_units() == 0) by (nonlinear_arith);
                assert(0 * pow2(0) * b == 0 && 0 * pow2(0) == 0) by (nonlinear_arith);
                lemma_pow2_values();
                lemma_nearest_exact(0, 0, b);
            }
        },
        _ => {},
    }
}

/// A larger factor gives no smaller product. A NaN counts as zero.
pub(crate) proof fn lemma_product_monotonic(a: Datum, b: Datum, c: nat)
    requires
        a.position() <= b.position(),
        !a.negative(),
        !b.negative(),
        0 < c < limit_units(),
        a is Finite ==> a->Finite_units < limit_units(),
        b is Finite ==> b->Finite_units < limit_units(),
    ensures
        a.product(finite(c)).position() <= b.product(finite(c)).position(),
        !a.product(finite(c)).negative(),
        !b.product(finite(c)).negative(),
{
    lemma_pow2_pos(1074);
    lemma_pow2_pos(2098);
    lemma_pow2_values();
    match (a, b) {
        (Datum::Finite { units: u, .. }, Datum::Finite { units: v, .. }) => {
            assert(u * c * one_units() <= v * c * one_units()) by (nonlinear_arith)
                requires
                    u <= v,
            ;
            lemma_rounded_monotonic(u * c, one_units(), v * c, one_units());
        },
        (Datum::Finite { units: u, .. }, Datum::Nan) => {
            assert(u * c == 0) by (nonlinear_arith)
                requires
                    u == 0,
            ;
            assert(0 * pow2(0) * one_units() == 0 && 0 * pow2(0) == 0) by (nonlinear_arith);
            lemma_nearest_exact(0, 0, one_units());
        },
        _ => {},
    }
}

/// The greater of two data keeps the order.
pub(crate) proof fn lemma_greater_monotonic(a: Datum, b: Datum, floor: Datum)
    requires
        a.at_most(b),
    ensures
        a.greater(floor).at_most(b.greater(floor)),
{
}

} // verus!
