//! Binary64 numbers held as their bits, with arithmetic in integers.
//!
//! The results are those of IEEE 754 with rounding to nearest, ties to even, on every machine.
use vstd::arithmetic::power2::{lemma_pow2_adds, lemma_pow2_pos, lemma_pow2_unfold, pow2};
use vstd::prelude::*;

use crate::datum::{bit_len, limit_units, nearest, of_int, one_units, rounded, Datum};
use crate::packing::{
    cut, is_wide, lemma_is_wide, lemma_step_den_positive, lemma_wide_cut, lemma_wide_excess,
    lemma_wide_pad, step_den, step_num,
};
use crate::rounding::{
    lemma_bit_len, lemma_floor, lemma_floor_unique, lemma_floor_zero, lemma_nearest_significand,
    lemma_pow2_le, lemma_pow2_values,
};

verus! {

/// The bit that holds the sign.
pub const SIGN_BIT: u64 = 0x8000_0000_0000_0000;

/// The bits of positive infinity. All larger magnitudes are NaNs.
pub const INFINITY_BITS: u64 = 0x7FF0_0000_0000_0000;

/// The bits of a NaN.
pub const NAN_BITS: u64 = 0x7FF8_0000_0000_0000;

/// 2 to the power of 52: the leading digit of a significand, and one step of the exponent field.
pub const LEADING: u64 = 0x10_0000_0000_0000;

/// An IEEE 754 binary64 datum in its interchange format.
#[derive(Clone, Copy, Debug)]
pub struct Binary64 {
    /// Sign, exponent field and fraction, from the highest bit down.
    pub bits: u64,
}

/// The number of units that a magnitude below that of infinity stands for.
pub open spec fn units_of(magnitude: nat) -> nat {
    let field = magnitude / LEADING as nat;
    let fraction = magnitude % LEADING as nat;
    if field == 0 {
        fraction
    } else {
        (LEADING + fraction) as nat * pow2((field - 1) as nat)
    }
}

/// The datum whose bits are `bits`.
pub open spec fn datum_of(bits: u64) -> Datum {
    let negative = bits >= SIGN_BIT;
    let magnitude = if negative {
        (bits - SIGN_BIT) as nat
    } else {
        bits as nat
    };
    if magnitude > INFINITY_BITS {
        Datum::Nan
    } else if magnitude == INFINITY_BITS {
        Datum::Infinite { negative }
    } else {
        Datum::Finite { negative, units: units_of(magnitude) }
    }
}

impl View for Binary64 {
    type V = Datum;

    open spec fn view(&self) -> Datum {
        datum_of(self.bits)
    }
}

/// Adding a significand onto an exponent field gives the magnitude of their number,
/// also where the significand carries into the field.
pub(crate) proof fn lemma_units_of_sum(k: nat, m: nat)
    requires
        m <= 2 * LEADING,
        k > 0 ==> LEADING <= m,
    ensures
        units_of(k * LEADING as nat + m) == m * pow2(k),
{
    let magnitude = k * LEADING as nat + m;
    lemma_pow2_values();
    lemma_pow2_unfold(k + 1);
    if m < LEADING {
        lemma_floor_unique(magnitude, LEADING as nat, 0);
    } else if m < 2 * LEADING {
        lemma_floor_unique(magnitude, LEADING as nat, k + 1);
    } else {
        lemma_floor_unique(magnitude, LEADING as nat, k + 2);
        assert(LEADING * pow2(k + 1) == m * pow2(k)) by (nonlinear_arith)
            requires
                m == 2 * LEADING,
                pow2(k + 1) == 2 * pow2(k),
        ;
    }
}

/// The number of binary digits of `n`.
fn bit_length(n: u128) -> (len: u32)
    ensures
        len == bit_len(n as nat),
        len <= 128,
{
    let mut rest: u128 = n;
    let mut len: u32 = 0;
    proof {
        lemma_bit_len(n as nat);
        lemma_pow2_values();
        lemma_pow2_adds(64, 64);
        if bit_len(n as nat) > 128 {
            lemma_pow2_le(128, (bit_len(n as nat) - 1) as nat);
        }
    }
    while rest > 0
        invariant
            len + bit_len(rest as nat) == bit_len(n as nat),
            bit_len(n as nat) <= 128,
        decreases rest,
    {
        rest = rest / 2;
        len = len + 1;
    }
    len
}

proof fn lemma_shift(n: u128)
    requires
        n < 128,
    ensures
        (1u128 << n) == pow2(n as nat),
    decreases n,
{
    lemma_pow2_values();
    if n == 0 {
        assert(1u128 << 0u128 == 1u128) by (bit_vector);
    } else {
        let before = (n - 1) as u128;
        lemma_shift(before);
        lemma_pow2_unfold(n as nat);
        assert((1u128 << n) == 2 * (1u128 << before)) by (bit_vector)
            requires
                0 < n < 128,
                before == n - 1,
        ;
    }
}

/// 2 to the power of `n`.
fn power_of_two(n: u32) -> (r: u128)
    requires
        n < 128,
    ensures
        r == pow2(n as nat),
{
    proof {
        lemma_shift(n as u128);
    }
    1u128 << (n as u128)
}

/// `sig`, with a rest where `sticky`, rounded after its last `drop` digits are cut off.
fn cut_digits(sig: u128, sticky: bool, drop: u32) -> (m: u128)
    requires
        sig < pow2(126),
        drop < 127,
    ensures
        m == cut(sig as nat, sticky, drop as nat),
{
    proof {
        lemma_pow2_pos(drop as nat);
    }
    let step = power_of_two(drop);
    let floor = sig / step;
    let low = sig % step;
    proof {
        lemma_floor(sig as nat, step as nat);
        lemma_pow2_values();
        lemma_pow2_adds(64, 63);
        lemma_pow2_unfold(127);
        lemma_pow2_le(drop as nat, 126);
        assert(floor <= sig) by (nonlinear_arith)
            requires
                floor * step <= sig,
                step >= 1,
        ;
    }
    let twice = 2 * low;
    if twice < step || (twice == step && !sticky && floor % 2 == 0) {
        floor
    } else {
        floor + 1
    }
}

/// Puts a significand of `k` dropped digits into the interchange format.
fn pack(negative: bool, k: u32, m: u128) -> (r: Binary64)
    requires
        m <= pow2(53),
        k > 0 ==> pow2(52) <= m,
    ensures
        r@ == (if m * pow2(k as nat) >= limit_units() {
            Datum::Infinite { negative }
        } else {
            Datum::Finite { negative, units: (m * pow2(k as nat)) as nat }
        }),
{
    let sign: u64 = if negative {
        SIGN_BIT
    } else {
        0
    };
    proof {
        lemma_pow2_values();
        lemma_pow2_adds(52, k as nat);
        lemma_pow2_pos(k as nat);
    }
    if k > 2045 {
        proof {
            lemma_pow2_le(2098, 52 + k as nat);
            assert(m * pow2(k as nat) >= pow2(52) * pow2(k as nat)) by (nonlinear_arith)
                requires
                    m >= pow2(52),
            ;
        }
        return Binary64 { bits: sign + INFINITY_BITS };
    }
    let magnitude: u64 = k as u64 * LEADING + m as u64;
    proof {
        lemma_units_of_sum(k as nat, m as nat);
        lemma_units_of_sum(2046, LEADING as nat);
        lemma_pow2_adds(52, 2046);
        if magnitude < INFINITY_BITS {
            lemma_units_increase(magnitude as nat, INFINITY_BITS as nat);
        }
    }
    Binary64 { bits: sign + magnitude }
}

/// A larger magnitude stands for a larger number.
pub(crate) proof fn lemma_units_increase(a: nat, b: nat)
    requires
        a < b,
    ensures
        units_of(a) < units_of(b),
    decreases b - a,
{
    if a + 1 < b {
        lemma_units_increase(a, (b - 1) as nat);
        lemma_units_increase((b - 1) as nat, b);
    } else {
        let field = a / LEADING as nat;
        let fraction = a % LEADING as nat;
        lemma_floor(a, LEADING as nat);
        lemma_pow2_values();
        if fraction + 1 < LEADING {
            lemma_floor_unique(b, LEADING as nat, field);
            if field > 0 {
                lemma_pow2_pos((field - 1) as nat);
                assert((LEADING + fraction) * pow2((field - 1) as nat) < (LEADING + fraction + 1)
                    * pow2((field - 1) as nat)) by (nonlinear_arith)
                    requires
                        pow2((field - 1) as nat) > 0,
                ;
            }
        } else {
            lemma_floor_unique(b, LEADING as nat, field + 1);
            if field > 0 {
                lemma_pow2_unfold(field);
                lemma_pow2_pos((field - 1) as nat);
                assert((LEADING + fraction) * pow2((field - 1) as nat) < LEADING * pow2(field))
                    by (nonlinear_arith)
                    requires
                        fraction < LEADING,
                        pow2(field) == 2 * pow2((field - 1) as nat),
                        pow2((field - 1) as nat) > 0,
                ;
            }
        }
    }
}

/// Rounds an exact result that is given by its wide significand.
fn assemble(
    negative: bool,
    sig: u128,
    sticky: bool,
    scale: i64,
    Ghost(p): Ghost<nat>,
    Ghost(q): Ghost<nat>,
) -> (r: Binary64)
    requires
        is_wide(p, q, sig as nat, sticky, scale as int),
        sig < pow2(126),
        sticky ==> sig >= pow2(53),
        -4000 <= scale <= 4000,
    ensures
        r@ == rounded(negative, p, q),
{
    proof {
        lemma_pow2_values();
        lemma_nearest_significand(p, q);
    }
    if sig == 0 {
        proof {
            lemma_step_den_positive(q, scale as int);
            lemma_floor(step_num(p, scale as int), step_den(q, scale as int));
            assert(p == 0) by {
                if scale < 0 {
                    lemma_pow2_pos((-scale) as nat);
                    assert(p == 0) by (nonlinear_arith)
                        requires
                            p * pow2((-scale) as nat) == 0,
                            pow2((-scale) as nat) > 0,
                    ;
                }
            }
            lemma_floor_zero(q);
            lemma_floor_zero(q * pow2(0));
        }
        return pack(negative, 0, 0);
    }
    let len = bit_length(sig);
    let top: i64 = len as i64 + scale - 53;
    let k: i64 = if top > 0 {
        top
    } else {
        0
    };
    let drop: i64 = k - scale;
    proof {
        lemma_wide_excess(p, q, sig as nat, sticky, scale as int);
        lemma_bit_len(sig as nat);
        if len > 126 {
            lemma_pow2_le(126, (len - 1) as nat);
        }
        if sticky && len <= 53 {
            lemma_pow2_le(len as nat, 53);
        }
    }
    let m: u128 = if drop < 0 {
        let pad: u32 = (-drop) as u32;
        proof {
            lemma_wide_pad(p, q, sig as nat, scale as int, k as nat, pad as nat);
            lemma_pow2_adds(len as nat, pad as nat);
            lemma_pow2_le((len + pad) as nat, 53);
            lemma_pow2_pos(pad as nat);
            assert(sig * pow2(pad as nat) <= pow2(len as nat) * pow2(pad as nat))
                by (nonlinear_arith)
                requires
                    sig <= pow2(len as nat),
            ;
        }
        sig * power_of_two(pad)
    } else if drop > 126 {
        proof {
            let c = pow2(drop as nat);
            lemma_wide_cut(p, q, sig as nat, sticky, scale as int, k as nat, drop as nat);
            lemma_pow2_unfold(127);
            lemma_pow2_le(127, drop as nat);
            assert(2 * sig < c);
            assert(0 * c == 0 && (0 + 1) * c == c) by (nonlinear_arith);
            lemma_floor_unique(sig as nat, c, 0);
        }
        0
    } else {
        proof {
            lemma_wide_cut(p, q, sig as nat, sticky, scale as int, k as nat, drop as nat);
        }
        cut_digits(sig, sticky, drop as u32)
    };
    pack(negative, k as u32, m)
}

/// Moves the leading digit of a significand to its place.
fn normalize(sig: u64) -> (r: (u64, u32))
    requires
        0 < sig < 2 * LEADING,
    ensures
        LEADING <= r.0 < 2 * LEADING,
        r.0 == sig * pow2(r.1 as nat),
        r.1 <= 52,
{
    let mut s: u64 = sig;
    let mut a: u32 = 0;
    proof {
        lemma_pow2_values();
    }
    while s < LEADING
        invariant
            0 < sig,
            0 < s < 2 * LEADING,
            s == sig * pow2(a as nat),
            a <= 52,
            pow2(52) == LEADING,
        decreases 2 * LEADING - s,
    {
        proof {
            lemma_pow2_unfold((a + 1) as nat);
            lemma_pow2_pos(a as nat);
            assert(2 * s == sig * pow2((a + 1) as nat)) by (nonlinear_arith)
                requires
                    s == sig * pow2(a as nat),
                    pow2((a + 1) as nat) == 2 * pow2(a as nat),
            ;
            if a >= 52 {
                assert(sig * pow2(a as nat) >= LEADING) by (nonlinear_arith)
                    requires
                        sig >= 1,
                        pow2(a as nat) >= LEADING,
                ;
            }
        }
        s = 2 * s;
        a = a + 1;
    }
    (s, a)
}

impl Binary64 {
    /// Whether the sign bit is set.
    fn sign(self) -> (r: bool)
        ensures
            r == (self.bits >= SIGN_BIT),
    {
        self.bits >= SIGN_BIT
    }

    /// The bits without the sign.
    fn magnitude(self) -> (r: u64)
        ensures
            r == (if self.bits >= SIGN_BIT {
                self.bits - SIGN_BIT
            } else {
                self.bits as int
            }),
    {
        if self.bits >= SIGN_BIT {
            self.bits - SIGN_BIT
        } else {
            self.bits
        }
    }

    /// The significand of a finite number and the power of two that it is to be multiplied by.
    fn unpack(self) -> (r: (u64, u32))
        requires
            self@ is Finite,
        ensures
            r.0 < 2 * LEADING,
            r.1 <= 2045,
            r.1 > 0 ==> r.0 >= LEADING,
            self@->Finite_units == r.0 * pow2(r.1 as nat),
    {
        proof {
            lemma_pow2_values();
        }
        let magnitude = self.magnitude();
        let field: u64 = magnitude / LEADING;
        let fraction: u64 = magnitude % LEADING;
        if field == 0 {
            assert(fraction * pow2(0) == fraction) by (nonlinear_arith)
                requires
                    pow2(0) == 1,
            ;
            (fraction, 0)
        } else {
            (LEADING + fraction, (field - 1) as u32)
        }
    }

    /// The number nearest to `n`.
    pub fn from_int(n: u64) -> (r: Binary64)
        ensures
            r@ == of_int(n as nat),
    {
        proof {
            let p = n as nat * one_units();
            lemma_pow2_pos(1074);
            assert(step_num(p, 1074) * 1 == n as nat * step_den(1, 1074)) by (nonlinear_arith)
                requires
                    step_num(p, 1074) == n as nat * one_units(),
                    step_den(1, 1074) == 1 * one_units(),
            ;
            lemma_is_wide(p, 1, n as nat, 1, 1074);
            lemma_pow2_values();
            lemma_pow2_le(64, 126);
        }
        assemble(false, n as u128, false, 1074, Ghost(n as nat * one_units()), Ghost(1))
    }

    /// `self * other`.
    pub fn times(self, other: Binary64) -> (r: Binary64)
        ensures
            r@ == self@.product(other@),
    {
        let negative = self.sign() != other.sign();
        let a = self.magnitude();
        let b = other.magnitude();
        if a > INFINITY_BITS || b > INFINITY_BITS {
            return Binary64 { bits: NAN_BITS };
        }
        if a == INFINITY_BITS || b == INFINITY_BITS {
            proof {
                if a > 0 {
                    lemma_units_increase(0, a as nat);
                }
                if b > 0 {
                    lemma_units_increase(0, b as nat);
                }
            }
            if a == 0 || b == 0 {
                return Binary64 { bits: NAN_BITS };
            }
            return Binary64 {
                bits: if negative {
                    SIGN_BIT + INFINITY_BITS
                } else {
                    INFINITY_BITS
                },
            };
        }
        let (s1, x1) = self.unpack();
        let (s2, x2) = other.unpack();
        let ghost u1 = self@->Finite_units;
        let ghost u2 = other@->Finite_units;
        let scale: i64 = x1 as i64 + x2 as i64 - 1074;
        proof {
            lemma_pow2_values();
            lemma_pow2_adds(53, 53);
            lemma_pow2_le(106, 126);
            assert(0 <= s1 * s2 < 2 * LEADING * (2 * LEADING)) by (nonlinear_arith)
                requires
                    s1 < 2 * LEADING,
                    s2 < 2 * LEADING,
            ;
            lemma_product_is_wide(s1 as nat, x1 as nat, s2 as nat, x2 as nat);
        }
        let sig: u128 = s1 as u128 * s2 as u128;
        assemble(negative, sig, false, scale, Ghost(u1 * u2), Ghost(one_units()))
    }

    /// `self / other`.
    pub fn over(self, other: Binary64) -> (r: Binary64)
        ensures
            r@ == self@.quotient(other@),
    {
        let negative = self.sign() != other.sign();
        let sign: u64 = if negative {
            SIGN_BIT
        } else {
            0
        };
        let a = self.magnitude();
        let b = other.magnitude();
        if a > INFINITY_BITS || b > INFINITY_BITS {
            return Binary64 { bits: NAN_BITS };
        }
        proof {
            if a > 0 {
                lemma_units_increase(0, a as nat);
            }
            if b > 0 {
                lemma_units_increase(0, b as nat);
            }
        }
        if a == INFINITY_BITS {
            if b == INFINITY_BITS {
                return Binary64 { bits: NAN_BITS };
            }
            return Binary64 { bits: sign + INFINITY_BITS };
        }
        if b == INFINITY_BITS {
            return Binary64 { bits: sign };
        }
        if b == 0 {
            if a == 0 {
                return Binary64 { bits: NAN_BITS };
            }
            return Binary64 { bits: sign + INFINITY_BITS };
        }
        let (s1, x1) = self.unpack();
        let (s2, x2) = other.unpack();
        let ghost p = self@->Finite_units * one_units();
        let ghost q = other@->Finite_units;
        if a == 0 {
            proof {
                lemma_step_den_positive(q, 0);
                lemma_floor_zero(step_den(q, 0));
                assert(p == 0) by (nonlinear_arith)
                    requires
                        p == 0 * one_units(),
                ;
                lemma_pow2_pos(126);
            }
            return assemble(negative, 0, false, 0, Ghost(p), Ghost(q));
        }
        let (n1, a1) = normalize(s1);
        let (n2, a2) = normalize(s2);
        let numerator: u128 = n1 as u128 * 0x1_0000_0000_0000_0000u128;
        let sig: u128 = numerator / n2 as u128;
        let sticky: bool = numerator % n2 as u128 != 0;
        let scale: i64 = x1 as i64 - a1 as i64 - x2 as i64 + a2 as i64 + 1010;
        proof {
            lemma_pow2_values();
            lemma_pow2_le(66, 126);
            lemma_pow2_le(53, 64);
            lemma_pow2_adds(64, 2);
            lemma_pow2_unfold(2);
            lemma_floor(numerator as nat, n2 as nat);
            assert(numerator == n1 * pow2(64));
            assert(sig < 4 * pow2(64)) by (nonlinear_arith)
                requires
                    pow2(64) > 0,
                    sig * n2 <= n1 * pow2(64),
                    n1 < 2 * 0x10_0000_0000_0000,
                    n2 >= 0x10_0000_0000_0000,
            ;
            assert(2 * (sig + 1) > pow2(64)) by (nonlinear_arith)
                requires
                    n1 * pow2(64) < (sig + 1) * n2,
                    n1 >= 0x10_0000_0000_0000,
                    n2 < 2 * 0x10_0000_0000_0000,
            ;
            lemma_quotient_is_wide(
                s1 as nat,
                x1 as nat,
                a1 as nat,
                s2 as nat,
                x2 as nat,
                a2 as nat,
            );
        }
        assemble(negative, sig, sticky, scale, Ghost(p), Ghost(q))
    }
}

impl Binary64 {
    /// `self + other`, for two data that are not negative.
    pub fn plus(self, other: Binary64) -> (r: Binary64)
        requires
            !self@.negative(),
            !other@.negative(),
        ensures
            r@ == self@.sum(other@),
    {
        let a = self.magnitude();
        let b = other.magnitude();
        if a > INFINITY_BITS || b > INFINITY_BITS {
            return Binary64 { bits: NAN_BITS };
        }
        if a == INFINITY_BITS || b == INFINITY_BITS {
            return Binary64 { bits: INFINITY_BITS };
        }
        let first = self.unpack();
        let second = other.unpack();
        let ordered = first.1 >= second.1;
        let (s1, x1) = if ordered {
            first
        } else {
            second
        };
        let (s2, x2) = if ordered {
            second
        } else {
            first
        };
        let ghost p = self@->Finite_units + other@->Finite_units;
        let d: u32 = x1 - x2;
        proof {
            lemma_pow2_values();
            lemma_pow2_adds(64, 53);
            lemma_pow2_unfold(118);
            lemma_pow2_le(118, 126);
        }
        if d <= 64 {
            let c = power_of_two(d);
            proof {
                lemma_pow2_le(d as nat, 64);
                assert(s1 * c <= pow2(53) * pow2(64)) by (nonlinear_arith)
                    requires
                        s1 <= pow2(53),
                        c <= pow2(64),
                ;
                lemma_pow2_le(53, 117);
                lemma_sum_is_wide(s1 as nat, x1 as nat, s2 as nat, x2 as nat);
            }
            let sig: u128 = s1 as u128 * c + s2 as u128;
            return assemble(false, sig, false, x2 as i64, Ghost(p), Ghost(1));
        }
        let beyond: u32 = d - 64;
        let (part, sticky): (u128, bool) = if beyond < 64 {
            let c = power_of_two(beyond);
            proof {
                lemma_pow2_pos(beyond as nat);
            }
            (s2 as u128 / c, s2 as u128 % c != 0)
        } else {
            proof {
                lemma_pow2_le(64, beyond as nat);
                let c = pow2(beyond as nat);
                assert(0 * c == 0 && (0 + 1) * c == c) by (nonlinear_arith);
                lemma_floor_unique(s2 as nat, c, 0);
            }
            (0, s2 != 0)
        };
        proof {
            let c = pow2(beyond as nat);
            lemma_pow2_pos(beyond as nat);
            lemma_floor(s2 as nat, c);
            assert(part <= s2) by (nonlinear_arith)
                requires
                    part * c <= s2,
                    c >= 1,
            ;
            assert(s1 * pow2(64) <= pow2(53) * pow2(64)) by (nonlinear_arith)
                requires
                    s1 <= pow2(53),
            ;
            lemma_pow2_le(53, 64);
            lemma_distant_sum_is_wide(s1 as nat, x1 as nat, s2 as nat, x2 as nat);
        }
        let sig: u128 = s1 as u128 * 0x1_0000_0000_0000_0000u128 + part;
        assemble(false, sig, sticky, x1 as i64 - 64, Ghost(p), Ghost(1))
    }

    /// `self < other`.
    pub fn less(self, other: Binary64) -> (r: bool)
        ensures
            r == self@.less(other@),
    {
        let a = self.magnitude();
        let b = other.magnitude();
        if a > INFINITY_BITS || b > INFINITY_BITS {
            return false;
        }
        proof {
            lemma_position(self.bits);
            lemma_position(other.bits);
            lemma_units_order(a as nat, b as nat);
            lemma_units_order(b as nat, a as nat);
            lemma_units_order(0, a as nat);
            lemma_units_order(0, b as nat);
        }
        if self.sign() {
            if other.sign() {
                b < a
            } else {
                a > 0 || b > 0
            }
        } else {
            !other.sign() && a < b
        }
    }

    /// The greater of the two, or the other one where one is a NaN.
    pub fn max(self, other: Binary64) -> (r: Binary64)
        ensures
            r@ == self@.greater(other@),
    {
        if self.magnitude() > INFINITY_BITS || self.less(other) {
            other
        } else {
            self
        }
    }

    /// `self` moved into the range from `low` to `high`. A NaN stays a NaN.
    pub fn clamp(self, low: Binary64, high: Binary64) -> (r: Binary64)
        requires
            low@.at_most(high@),
        ensures
            r@ == self@.clamped(low@, high@),
    {
        if self.less(low) {
            low
        } else if high.less(self) {
            high
        } else {
            self
        }
    }

    /// The integer part, brought into the range of a `u64`. It is 0 for a NaN.
    pub fn to_int(self) -> (r: u64)
        ensures
            r == self@.truncated(),
    {
        let magnitude = self.magnitude();
        if magnitude > INFINITY_BITS || self.sign() {
            return 0;
        }
        if magnitude == INFINITY_BITS {
            return u64::MAX;
        }
        let (s, x) = self.unpack();
        proof {
            lemma_pow2_values();
            lemma_pow2_pos(1074);
        }
        if x >= 1074 {
            let up: u32 = x - 1074;
            proof {
                lemma_pow2_adds(up as nat, 1074);
                lemma_pow2_pos(up as nat);
                lemma_whole_floor(s as nat, x as nat, up as nat);
            }
            if up > 11 {
                proof {
                    lemma_pow2_le(12, up as nat);
                    lemma_pow2_adds(52, 12);
                    assert(s * pow2(up as nat) >= pow2(52) * pow2(12)) by (nonlinear_arith)
                        requires
                            s >= pow2(52),
                            pow2(up as nat) >= pow2(12),
                    ;
                }
                return u64::MAX;
            }
            proof {
                lemma_pow2_le(up as nat, 11);
                lemma_pow2_adds(53, 11);
                assert(s * pow2(up as nat) < pow2(53) * pow2(11)) by (nonlinear_arith)
                    requires
                        s < pow2(53),
                        0 < pow2(up as nat) <= pow2(11),
                ;
            }
            (s as u128 * power_of_two(up)) as u64
        } else {
            let down: u32 = 1074 - x;
            proof {
                lemma_part_floor(s as nat, x as nat, down as nat);
                lemma_pow2_pos(down as nat);
                lemma_floor(s as nat, pow2(down as nat));
                assert(s as nat / pow2(down as nat) <= s) by (nonlinear_arith)
                    requires
                        s as nat / pow2(down as nat) * pow2(down as nat) <= s,
                        pow2(down as nat) >= 1,
                ;
            }
            if down >= 64 {
                proof {
                    lemma_pow2_le(64, down as nat);
                    let c = pow2(down as nat);
                    assert(0 * c == 0 && (0 + 1) * c == c) by (nonlinear_arith);
                    lemma_floor_unique(s as nat, c, 0);
                }
                0
            } else {
                (s as u128 / power_of_two(down)) as u64
            }
        }
    }
}

proof fn lemma_units_order(a: nat, b: nat)
    ensures
        units_of(a) < units_of(b) <==> a < b,
        units_of(0) == 0,
{
    if a < b {
        lemma_units_increase(a, b);
    } else if b < a {
        lemma_units_increase(b, a);
    }
}

/// The position of a datum that is no NaN is that of its magnitude, with the sign.
pub(crate) proof fn lemma_position(bits: u64)
    requires
        datum_of(bits) !is Nan,
    ensures
        datum_of(bits).position() == (if bits >= SIGN_BIT {
            -(units_of((bits - SIGN_BIT) as nat) as int)
        } else {
            units_of(bits as nat) as int
        }),
{
    lemma_pow2_values();
    lemma_units_of_sum(2046, LEADING as nat);
    lemma_pow2_adds(52, 2046);
}

/// A whole number of ones.
proof fn lemma_whole_floor(s: nat, x: nat, up: nat)
    requires
        x == up + 1074,
    ensures
        (s * pow2(x)) / one_units() == s * pow2(up),
{
    let n = s * pow2(up);
    lemma_pow2_adds(up, 1074);
    lemma_pow2_pos(1074);
    assert(s * pow2(x) == n * one_units()) by (nonlinear_arith)
        requires
            n == s * pow2(up),
            pow2(x) == pow2(up) * one_units(),
    ;
    assert((n + 1) * one_units() == n * one_units() + one_units()) by (nonlinear_arith);
    lemma_floor_unique(s * pow2(x), one_units(), n);
}

/// The integer part of a number with a fraction.
proof fn lemma_part_floor(s: nat, x: nat, down: nat)
    requires
        x + down == 1074,
    ensures
        (s * pow2(x)) / one_units() == s / pow2(down),
{
    let c = pow2(down);
    let f = s / c;
    lemma_pow2_adds(down, x);
    lemma_pow2_pos(down);
    lemma_pow2_pos(x);
    lemma_pow2_pos(1074);
    lemma_floor(s, c);
    assert(f * one_units() <= s * pow2(x) < (f + 1) * one_units()) by (nonlinear_arith)
        requires
            f * c <= s < (f + 1) * c,
            one_units() == c * pow2(x),
            pow2(x) > 0,
    ;
    lemma_floor_unique(s * pow2(x), one_units(), f);
}

/// The sum of two significands, the first brought to the scale of the second, is the exact sum.
proof fn lemma_sum_is_wide(s1: nat, x1: nat, s2: nat, x2: nat)
    requires
        x1 >= x2,
    ensures
        is_wide(
            s1 * pow2(x1) + s2 * pow2(x2),
            1,
            s1 * pow2((x1 - x2) as nat) + s2,
            false,
            x2 as int,
        ),
{
    let d = (x1 - x2) as nat;
    let p = s1 * pow2(x1) + s2 * pow2(x2);
    let sig = s1 * pow2(d) + s2;
    lemma_pow2_adds(d, x2);
    assert(p * 1 == sig * (1 * pow2(x2))) by (nonlinear_arith)
        requires
            p == s1 * pow2(x1) + s2 * pow2(x2),
            sig == s1 * pow2(d) + s2,
            pow2(x1) == pow2(d) * pow2(x2),
    ;
    lemma_is_wide(p, 1, sig, 1, x2 as int);
}

/// Where the second summand is far below the first, only its digits above the scale count.
proof fn lemma_distant_sum_is_wide(s1: nat, x1: nat, s2: nat, x2: nat)
    requires
        x1 >= x2 + 64,
    ensures
        ({
            let c = pow2((x1 - x2 - 64) as nat);
            is_wide(
                s1 * pow2(x1) + s2 * pow2(x2),
                1,
                s1 * pow2(64) + s2 / c,
                s2 % c != 0,
                x1 - 64,
            )
        }),
{
    let beyond = (x1 - x2 - 64) as nat;
    let c = pow2(beyond);
    let scale = (x1 - 64) as nat;
    let p = s1 * pow2(x1) + s2 * pow2(x2);
    let a = s1 * pow2(64) * c + s2;
    lemma_pow2_pos(beyond);
    lemma_pow2_adds(beyond, x2);
    lemma_pow2_adds(64, scale);
    assert(p * c == a * (1 * pow2(scale))) by (nonlinear_arith)
        requires
            p == s1 * pow2(x1) + s2 * pow2(x2),
            a == s1 * pow2(64) * c + s2,
            pow2(scale) == c * pow2(x2),
            pow2(x1) == pow2(64) * pow2(scale),
    ;
    lemma_is_wide(p, 1, a, c, scale as int);
    let f = s1 * pow2(64) + s2 / c;
    lemma_floor(s2, c);
    assert(f * c == s1 * pow2(64) * c + s2 / c * c) by (nonlinear_arith)
        requires
            f == s1 * pow2(64) + s2 / c,
    ;
    assert((f + 1) * c == f * c + c) by (nonlinear_arith);
    lemma_floor_unique(a, c, f);
}

/// The product of two significands is the exact product.
proof fn lemma_product_is_wide(s1: nat, x1: nat, s2: nat, x2: nat)
    ensures
        is_wide(
            (s1 * pow2(x1)) * (s2 * pow2(x2)),
            one_units(),
            s1 * s2,
            false,
            x1 + x2 - 1074,
        ),
{
    let p = (s1 * pow2(x1)) * (s2 * pow2(x2));
    let scale = x1 + x2 - 1074;
    lemma_pow2_pos(1074);
    lemma_pow2_adds(x1, x2);
    assert(p == s1 * s2 * pow2(x1 + x2)) by (nonlinear_arith)
        requires
            p == (s1 * pow2(x1)) * (s2 * pow2(x2)),
            pow2(x1 + x2) == pow2(x1) * pow2(x2),
    ;
    if scale >= 0 {
        lemma_pow2_adds(1074, scale as nat);
        assert(step_num(p, scale) * 1 == s1 * s2 * step_den(one_units(), scale));
    } else {
        lemma_pow2_adds(x1 + x2, (-scale) as nat);
        assert(step_num(p, scale) * 1 == s1 * s2 * step_den(one_units(), scale))
            by (nonlinear_arith)
            requires
                step_num(p, scale) == s1 * s2 * pow2(x1 + x2) * pow2((-scale) as nat),
                step_den(one_units(), scale) == pow2(x1 + x2) * pow2((-scale) as nat),
        ;
    }
    lemma_is_wide(p, one_units(), s1 * s2, 1, scale);
}

/// The quotient of two normalized significands, the first with 64 digits more,
/// is the integer part of the exact quotient.
proof fn lemma_quotient_is_wide(s1: nat, x1: nat, a1: nat, s2: nat, x2: nat, a2: nat)
    requires
        s2 > 0,
    ensures
        ({
            let numerator = s1 * pow2(a1) * pow2(64);
            let denominator = s2 * pow2(a2);
            is_wide(
                (s1 * pow2(x1)) * one_units(),
                s2 * pow2(x2),
                numerator / denominator,
                numerator % denominator != 0,
                x1 - a1 - x2 + a2 + 1010,
            )
        }),
{
    let numerator = s1 * pow2(a1) * pow2(64);
    let denominator = s2 * pow2(a2);
    let p = (s1 * pow2(x1)) * one_units();
    let q = s2 * pow2(x2);
    let scale = x1 - a1 - x2 + a2 + 1010;
    lemma_pow2_pos(a2);
    lemma_pow2_pos(x2);
    assert(denominator > 0) by (nonlinear_arith)
        requires
            denominator == s2 * pow2(a2),
            s2 > 0,
            pow2(a2) > 0,
    ;
    assert(q > 0) by (nonlinear_arith)
        requires
            q == s2 * pow2(x2),
            s2 > 0,
            pow2(x2) > 0,
    ;
    // Both sides are `s1 * s2` times the same power of two.
    lemma_pow2_adds(x1, 1074);
    lemma_pow2_adds(x1 + 1074, a2);
    lemma_pow2_adds(a1, 64);
    lemma_pow2_adds(a1 + 64, x2);
    assert(p * denominator == s1 * s2 * pow2(x1 + 1074 + a2)) by (nonlinear_arith)
        requires
            p == (s1 * pow2(x1)) * one_units(),
            denominator == s2 * pow2(a2),
            pow2(x1 + 1074 + a2) == pow2(x1) * one_units() * pow2(a2),
    ;
    assert(numerator * q == s1 * s2 * pow2(a1 + 64 + x2)) by (nonlinear_arith)
        requires
            numerator == s1 * pow2(a1) * pow2(64),
            q == s2 * pow2(x2),
            pow2(a1 + 64 + x2) == pow2(a1) * pow2(64) * pow2(x2),
    ;
    if scale >= 0 {
        let c = pow2(scale as nat);
        lemma_pow2_adds(a1 + 64 + x2, scale as nat);
        assert(p * denominator == numerator * (q * c)) by (nonlinear_arith)
            requires
                p * denominator == s1 * s2 * (pow2(a1 + 64 + x2) * c),
                numerator * q == s1 * s2 * pow2(a1 + 64 + x2),
        ;
    } else {
        let c = pow2((-scale) as nat);
        lemma_pow2_adds(x1 + 1074 + a2, (-scale) as nat);
        assert((p * c) * denominator == numerator * q) by (nonlinear_arith)
            requires
                p * denominator == s1 * s2 * pow2(x1 + 1074 + a2),
                numerator * q == s1 * s2 * (pow2(x1 + 1074 + a2) * c),
        ;
    }
    lemma_is_wide(p, q, numerator, denominator, scale);
}

} // verus!
