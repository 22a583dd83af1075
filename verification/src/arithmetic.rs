//! What the arithmetic on data does, in whole numbers of units.
//!
//! A unit is 2 to the power of -1074, so one is 2 to the power of 1074 units, and the range
//! ends at 2 to the power of 2098 units.
use vstd::arithmetic::power2::{
    lemma_pow2_pos, lemma_pow2_strictly_increases, lemma_pow2_unfold, pow2,
};
use vstd::prelude::*;

use crate::binary64::datum_of;
use crate::config::lemma_constants;
use crate::datum::{bit_len, excess, half_even, nearest, of_int, of_ratio, one, Datum};
use crate::order::lemma_of_small_int;
use crate::rounding::{
    distance, law_nearest, lemma_floor, lemma_floor_unique, lemma_nearest_significand,
    lemma_pow2_values,
};

verus! {

/// Whether `n` is `m` times 2 to the power of `k`, in the one way in which a significand `m` of
/// 53 binary digits is used to the full, or in units where it need not be.
pub open spec fn written(n: nat, m: nat, k: nat) -> bool {
    &&& n == m * pow2(k)
    &&& m < pow2(53)
    &&& k > 0 ==> m >= pow2(52)
}

/// A number that was rounded to fits a significand of 53 binary digits. No other such number is
/// nearer, and where another one is as near the significand is even.
pub proof fn law_rounding(p: nat, q: nat, other: nat, j: nat, l: nat)
    requires
        q > 0,
        written(other, j, l),
    ensures
        exists|m: nat, k: nat| #[trigger] written(nearest(p, q), m, k),
        distance(p, q, nearest(p, q)) <= distance(p, q, other),
        distance(p, q, nearest(p, q)) == distance(p, q, other) && other != nearest(p, q)
            ==> exists|m: nat, k: nat| #[trigger] written(nearest(p, q), m, k) && m % 2 == 0,
{
    let k = excess(bit_len(p / q));
    let m = half_even(p, q * pow2(k));
    law_nearest(p, q, j, l);
    lemma_nearest_significand(p, q);
    lemma_pow2_values();
    if m == pow2(53) {
        lemma_pow2_unfold(k + 1);
        assert(m * pow2(k) == pow2(52) * pow2(k + 1)) by (nonlinear_arith)
            requires
                m == 2 * pow2(52),
                pow2(k + 1) == 2 * pow2(k),
        ;
        assert(written(nearest(p, q), pow2(52), k + 1));
    } else {
        assert(written(nearest(p, q), m, k));
    }
}

/// An integer as a datum is the nearest number, and the integer itself below 2 to the power
/// of 53.
pub proof fn law_of_int(n: nat)
    ensures
        n < pow2(53) ==> of_int(n) == (Datum::Finite { negative: false, units: n * pow2(1074) }),
        nearest(n * pow2(1074), 1) < pow2(2098) ==> of_int(n) == (Datum::Finite {
            negative: false,
            units: nearest(n * pow2(1074), 1),
        }),
        nearest(n * pow2(1074), 1) >= pow2(2098) ==> of_int(n) == (Datum::Infinite {
            negative: false,
        }),
{
    if n < pow2(53) {
        lemma_of_small_int(n);
    }
}

/// A ratio of integers as a datum is the nearest number.
pub proof fn law_of_ratio(n: nat, d: nat)
    requires
        d > 0,
    ensures
        stands_for(of_ratio(n, d), false, n * pow2(1074), d),
{
}

/// Whether `d` is what becomes of the number `p / q` with a sign: the nearest number,
/// or an infinity where that is out of range.
pub open spec fn stands_for(d: Datum, negative: bool, p: nat, q: nat) -> bool {
    if nearest(p, q) < pow2(2098) {
        d == (Datum::Finite { negative, units: nearest(p, q) })
    } else {
        d == (Datum::Infinite { negative })
    }
}

/// A product is that of the numbers, rounded once, and negative where one factor is.
/// An infinity swallows all factors but zero.
pub proof fn law_product(x: Datum, y: Datum)
    ensures
        x is Nan || y is Nan ==> x.product(y) is Nan,
        x matches Datum::Finite { negative: nx, units: ux } ==> {
            y matches Datum::Finite { negative: ny, units: uy } ==> stands_for(
                x.product(y),
                nx != ny,
                ux * uy,
                pow2(1074),
            )
        },
        x matches Datum::Infinite { negative: nx } ==> {
            &&& y matches Datum::Infinite { negative: ny } ==> x.product(y) == (Datum::Infinite {
                negative: nx != ny,
            })
            &&& y matches Datum::Finite { negative: ny, units: uy } ==> {
                &&& uy == 0 ==> x.product(y) is Nan && y.product(x) is Nan
                &&& uy > 0 ==> x.product(y) == (Datum::Infinite { negative: nx != ny })
                    && y.product(x) == (Datum::Infinite { negative: nx != ny })
            }
        },
{
}

/// A quotient is that of the numbers, rounded once, and negative where one of the two is.
/// To divide by zero gives an infinity, or a NaN for zero itself.
pub proof fn law_quotient(x: Datum, y: Datum)
    ensures
        x is Nan || y is Nan ==> x.quotient(y) is Nan,
        x is Infinite && y is Infinite ==> x.quotient(y) is Nan,
        x matches Datum::Finite { negative: nx, units: ux } ==> {
            &&& y matches Datum::Finite { negative: ny, units: uy } ==> {
                &&& uy > 0 ==> stands_for(x.quotient(y), nx != ny, ux * pow2(1074), uy)
                &&& uy == 0 && ux > 0 ==> x.quotient(y) == (Datum::Infinite {
                    negative: nx != ny,
                })
                &&& uy == 0 && ux == 0 ==> x.quotient(y) is Nan
            }
            &&& y matches Datum::Infinite { negative: ny } ==> x.quotient(y) == (Datum::Finite {
                negative: nx != ny,
                units: 0,
            })
        },
        x matches Datum::Infinite { negative: nx } ==> {
            y matches Datum::Finite { negative: ny, .. } ==> x.quotient(y) == (Datum::Infinite {
                negative: nx != ny,
            })
        },
{
}

/// A sum of data that are not negative is that of the numbers, rounded once.
pub proof fn law_sum(a: nat, b: nat, y: Datum)
    ensures
        stands_for(
            (Datum::Finite { negative: false, units: a }).sum(
                Datum::Finite { negative: false, units: b },
            ),
            false,
            a + b,
            1,
        ),
        Datum::Nan.sum(y) is Nan,
        y.sum(Datum::Nan) is Nan,
        y !is Nan ==> y.sum(Datum::Infinite { negative: false }) == (Datum::Infinite {
            negative: false,
        }) && (Datum::Infinite { negative: false }).sum(y) == (Datum::Infinite { negative: false }),
{
}

/// The number of units of a finite datum, with its sign.
pub open spec fn signed_units(d: Datum) -> int {
    if d->Finite_negative {
        -(d->Finite_units as int)
    } else {
        d->Finite_units as int
    }
}

/// Finite data in range compare as their numbers do, an infinity is beyond all of them, and
/// nothing is less than a NaN or the other way round.
pub proof fn law_less(x: Datum, y: Datum)
    requires
        x matches Datum::Finite { units, .. } ==> units < pow2(2098),
        y matches Datum::Finite { units, .. } ==> units < pow2(2098),
    ensures
        x is Nan || y is Nan ==> !x.less(y),
        x is Finite && y is Finite ==> x.less(y) == (signed_units(x) < signed_units(y)),
        x is Finite && y is Infinite ==> x.less(y) == !y->Infinite_negative,
        x is Infinite && y is Finite ==> x.less(y) == x->Infinite_negative,
        x is Infinite && y is Infinite ==> x.less(y) == (x->Infinite_negative
            && !y->Infinite_negative),
{
    lemma_pow2_pos(2098);
}

/// The greater of two data is one of them and not less than either; a NaN gives way.
pub proof fn law_greater(x: Datum, y: Datum)
    ensures
        x is Nan ==> x.greater(y) == y,
        y is Nan ==> x.greater(y) == x,
        x.greater(y) == x || x.greater(y) == y,
        !x.greater(y).less(x),
        !x.greater(y).less(y),
{
}

/// What is moved into a range stays where it is inside of the range,
/// and goes to the nearer end from outside.
pub proof fn law_clamped(x: Datum, low: Datum, high: Datum)
    requires
        low !is Nan,
        high !is Nan,
        !high.less(low),
    ensures
        x is Nan ==> x.clamped(low, high) == x,
        x.less(low) ==> x.clamped(low, high) == low,
        high.less(x) ==> x.clamped(low, high) == high,
        !x.less(low) && !high.less(x) ==> x.clamped(low, high) == x,
{
}

/// The integer part is the greatest integer that is not above the number, within 64 bits.
/// It is zero for a NaN and for what is negative.
pub proof fn law_truncated(d: Datum)
    ensures
        d is Nan ==> d.truncated() == 0,
        d matches Datum::Infinite { negative } ==> d.truncated() == (if negative {
            0nat
        } else {
            0xFFFF_FFFF_FFFF_FFFF
        }),
        d matches Datum::Finite { negative, units } ==> {
            &&& negative ==> d.truncated() == 0
            &&& !negative ==> {
                &&& d.truncated() <= 0xFFFF_FFFF_FFFF_FFFF
                &&& d.truncated() * pow2(1074) <= units
                &&& d.truncated() == 0xFFFF_FFFF_FFFF_FFFF || units < (d.truncated() + 1) * pow2(
                    1074,
                )
            }
        },
{
    lemma_pow2_pos(1074);
    match d {
        Datum::Finite { negative, units } => {
            lemma_floor(units, pow2(1074));
            let f = units / pow2(1074);
            if !negative && f > 0xFFFF_FFFF_FFFF_FFFF {
                assert(0xFFFF_FFFF_FFFF_FFFF * pow2(1074) <= f * pow2(1074)) by (nonlinear_arith)
                    requires
                        f > 0xFFFF_FFFF_FFFF_FFFF,
                ;
            }
        },
        _ => {},
    }
}

/// The bits of a datum are its sign, the exponent field and the fraction: with an exponent field
/// of zero the fraction counts units, with a field from 1 to 2046 a leading digit goes before
/// the fraction and each step of the field doubles the number, and with a field of 2047 it is
/// an infinity or, if there is a fraction, a NaN.
pub proof fn law_bits(bits: u64, negative: bool, field: nat, fraction: nat)
    requires
        field < 2048,
        fraction < 0x10_0000_0000_0000,
        bits == (if negative {
            0x8000_0000_0000_0000int
        } else {
            0
        }) + field * 0x10_0000_0000_0000 + fraction,
    ensures
        field == 0 ==> datum_of(bits) == (Datum::Finite { negative, units: fraction }),
        0 < field < 2047 ==> datum_of(bits) == (Datum::Finite {
            negative,
            units: (0x10_0000_0000_0000 + fraction) as nat * pow2((field - 1) as nat),
        }),
        field == 2047 && fraction == 0 ==> datum_of(bits) == (Datum::Infinite { negative }),
        field == 2047 && fraction > 0 ==> datum_of(bits) is Nan,
{
    lemma_floor_unique(field * 0x10_0000_0000_0000 + fraction, 0x10_0000_0000_0000, field);
}

/// The floor of the ack rate stays as it is from one tenth to one, is moved to the nearer end
/// of that range from outside, and may be a NaN. One tenth is the nearest number to it.
pub proof fn law_floor_range(d: Datum)
    requires
        d matches Datum::Finite { units, .. } ==> units < pow2(2098),
    ensures
        ({
            let tenth = 0x19_9999_9999_999A * pow2(1018);
            let floor = d.clamped(of_ratio(1, 10), one());
            &&& d is Nan ==> floor is Nan
            &&& d matches Datum::Infinite { negative } ==> floor == (Datum::Finite {
                negative: false,
                units: if negative {
                    tenth
                } else {
                    pow2(1074)
                },
            })
            &&& d is Finite ==> {
                let units = signed_units(d);
                &&& units <= tenth ==> floor == (Datum::Finite { negative: false, units: tenth })
                &&& tenth <= units <= pow2(1074) ==> floor == d
                &&& pow2(1074) <= units ==> floor == (Datum::Finite {
                    negative: false,
                    units: pow2(1074),
                })
            }
        }),
{
    lemma_constants();
    lemma_floor_constants();
    lemma_pow2_pos(1018);
    lemma_pow2_strictly_increases(1074, 2098);
}

/// One tenth, eight tenths and one as data.
pub(crate) proof fn lemma_floor_constants()
    ensures
        of_ratio(1, 10) == (Datum::Finite {
            negative: false,
            units: 0x19_9999_9999_999A * pow2(1018),
        }),
        of_ratio(8, 10) == (Datum::Finite {
            negative: false,
            units: 0x19_9999_9999_999A * pow2(1021),
        }),
        one() == (Datum::Finite { negative: false, units: pow2(1074) }),
{
    lemma_constants();
    law_bits(0x3FB9_9999_9999_999A, false, 1019, 0x9_9999_9999_999A);
    law_bits(0x3FE9_9999_9999_999A, false, 1022, 0x9_9999_9999_999A);
}

} // verus!
