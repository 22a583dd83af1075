//! What an IEEE 754 binary64 datum is, and what the arithmetic on such data returns.
//!
//! Every finite binary64 number is a whole number of *units*, a unit being the smallest
//! positive binary64 number, 2 to the power of -1074. So a finite datum is modelled by its
//! sign and a natural number of units, and an exact result of an operation is a ratio of
//! two natural numbers, which is then rounded once.
use vstd::arithmetic::power2::pow2;
use vstd::prelude::*;

verus! {

/// A binary64 datum. The sign and the payload of a NaN are not told apart.
pub enum Datum {
    Nan,
    Infinite { negative: bool },
    Finite { negative: bool, units: nat },
}

/// How many units make one.
pub open spec fn one_units() -> nat {
    pow2(1074)
}

/// The least power of two that is beyond the range, in units.
pub open spec fn limit_units() -> nat {
    pow2(2098)
}

/// Number of binary digits of `n`, 0 for 0.
pub open spec fn bit_len(n: nat) -> nat
    decreases n,
{
    if n == 0 {
        0
    } else {
        1 + bit_len(n / 2)
    }
}

/// The integer nearest to `p / q`, the even one of the two where both are equally near.
pub open spec fn half_even(p: nat, q: nat) -> nat {
    let floor = p / q;
    let rest = p % q;
    if 2 * rest < q || (2 * rest == q && floor % 2 == 0) {
        floor
    } else {
        floor + 1
    }
}

/// How many of `len` binary digits are beyond the 53 of a significand.
pub open spec fn excess(len: nat) -> nat {
    if len > 53 {
        (len - 53) as nat
    } else {
        0
    }
}

/// The number of units nearest to `p / q` units that fits a significand,
/// with a tie going to the even significand. The range of the exponent is not bounded here.
pub open spec fn nearest(p: nat, q: nat) -> nat {
    let k = excess(bit_len(p / q));
    half_even(p, q * pow2(k)) * pow2(k)
}

/// The datum that stands for `p / q` units: the nearest number, or an infinity beyond the range.
pub open spec fn rounded(negative: bool, p: nat, q: nat) -> Datum {
    let units = nearest(p, q);
    if units >= limit_units() {
        Datum::Infinite { negative }
    } else {
        Datum::Finite { negative, units }
    }
}

/// The non-negative finite datum of `units` units.
pub open spec fn finite(units: nat) -> Datum {
    Datum::Finite { negative: false, units }
}

/// One.
pub open spec fn one() -> Datum {
    finite(one_units())
}

/// The datum nearest to the integer `n`.
pub open spec fn of_int(n: nat) -> Datum {
    rounded(false, n * one_units(), 1)
}

/// The datum nearest to the ratio of the integers `n` and `d`.
pub open spec fn of_ratio(n: nat, d: nat) -> Datum {
    rounded(false, n * one_units(), d)
}

impl Datum {
    pub open spec fn negative(self) -> bool {
        match self {
            Datum::Nan => false,
            Datum::Infinite { negative } => negative,
            Datum::Finite { negative, .. } => negative,
        }
    }

    pub open spec fn is_zero(self) -> bool {
        self matches Datum::Finite { units, .. } && units == 0
    }

    /// The position of a datum that is no NaN on the number line, in units.
    /// An infinity takes the place of the first number beyond the range.
    pub open spec fn position(self) -> int {
        match self {
            Datum::Nan => 0,
            Datum::Infinite { negative } => if negative {
                -(limit_units() as int)
            } else {
                limit_units() as int
            },
            Datum::Finite { negative, units } => if negative {
                -(units as int)
            } else {
                units as int
            },
        }
    }

    /// `self < other`, which is false as soon as one of them is a NaN.
    pub open spec fn less(self, other: Datum) -> bool {
        self !is Nan && other !is Nan && self.position() < other.position()
    }

    /// `self <= other`, which is false as soon as one of them is a NaN.
    pub open spec fn at_most(self, other: Datum) -> bool {
        self !is Nan && other !is Nan && self.position() <= other.position()
    }

    /// `self * other`.
    pub open spec fn product(self, other: Datum) -> Datum {
        let negative = self.negative() != other.negative();
        match (self, other) {
            (Datum::Nan, _) => Datum::Nan,
            (_, Datum::Nan) => Datum::Nan,
            (Datum::Finite { units: a, .. }, Datum::Finite { units: b, .. }) => rounded(
                negative,
                a * b,
                one_units(),
            ),
            _ => if self.is_zero() || other.is_zero() {
                Datum::Nan
            } else {
                Datum::Infinite { negative }
            },
        }
    }

    /// `self / other`.
    pub open spec fn quotient(self, other: Datum) -> Datum {
        let negative = self.negative() != other.negative();
        match (self, other) {
            (Datum::Nan, _) => Datum::Nan,
            (_, Datum::Nan) => Datum::Nan,
            (Datum::Infinite { .. }, Datum::Infinite { .. }) => Datum::Nan,
            (Datum::Infinite { .. }, Datum::Finite { .. }) => Datum::Infinite { negative },
            (Datum::Finite { .. }, Datum::Infinite { .. }) => Datum::Finite { negative, units: 0 },
            (Datum::Finite { units: a, .. }, Datum::Finite { units: b, .. }) => if b == 0 {
                if a == 0 {
                    Datum::Nan
                } else {
                    Datum::Infinite { negative }
                }
            } else {
                rounded(negative, a * one_units(), b)
            },
        }
    }

    /// `self + other`, for two data that are not negative.
    pub open spec fn sum(self, other: Datum) -> Datum
        recommends
            !self.negative(),
            !other.negative(),
    {
        match (self, other) {
            (Datum::Nan, _) => Datum::Nan,
            (_, Datum::Nan) => Datum::Nan,
            (Datum::Finite { units: a, .. }, Datum::Finite { units: b, .. }) => rounded(
                false,
                a + b,
                1,
            ),
            _ => Datum::Infinite { negative: false },
        }
    }

    /// The greater of the two, or the other one where one is a NaN.
    pub open spec fn greater(self, other: Datum) -> Datum {
        if self is Nan || self.less(other) {
            other
        } else {
            self
        }
    }

    /// `self` moved into the range from `low` to `high`. A NaN stays a NaN.
    pub open spec fn clamped(self, low: Datum, high: Datum) -> Datum {
        if self.less(low) {
            low
        } else if high.less(self) {
            high
        } else {
            self
        }
    }

    /// The integer part, brought into the range of a `u64`. It is 0 for a NaN.
    pub open spec fn truncated(self) -> nat {
        match self {
            Datum::Nan => 0,
            Datum::Infinite { negative } => if negative {
                0
            } else {
                u64::MAX as nat
            },
            Datum::Finite { negative, units } => if negative {
                0
            } else if units / one_units() > u64::MAX {
                u64::MAX as nat
            } else {
                units / one_units()
            },
        }
    }
}

} // verus!
