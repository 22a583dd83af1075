//! How near the window and the pace come to their formulas in exact arithmetic.
use vstd::arithmetic::power2::{
    lemma_pow2_adds, lemma_pow2_pos, lemma_pow2_strictly_increases, lemma_pow2_unfold, pow2,
};
use vstd::prelude::*;

use crate::datum::{finite, limit_units, nearest, of_int, one, one_units, rounded, Datum};
use crate::model::{flight, pace};
use crate::order::{lemma_of_int_finite, lemma_of_int_positive, lemma_of_small_int};
use crate::rounding::{
    lemma_floor, lemma_floor_zero, lemma_nearest_at_least, lemma_nearest_at_most,
    lemma_nearest_error, lemma_nearest_exact, lemma_pow2_le, lemma_pow2_values,
};
use crate::time::{seconds, NANOS_PER_SEC};

verus! {

/// `u` lies between `low / scale` and `high / scale` times `p / q`.
spec fn near(u: nat, p: nat, q: nat, low: nat, high: nat, scale: nat) -> bool {
    &&& p * low <= u * q * scale
    &&& u * q * scale <= p * high
}

/// 2 to the power of 53.
spec fn digits() -> nat {
    0x20_0000_0000_0000
}

/// Rounding once more moves the bounds apart by one step each.
proof fn lemma_near_rounded(
    u: nat,
    p: nat,
    q: nat,
    low: nat,
    high: nat,
    scale: nat,
    c: nat,
    d: nat,
)
    requires
        near(u, p, q, low, high, scale),
        d > 0,
        pow2(52) * d <= u * c,
    ensures
        near(
            nearest(u * c, d),
            p * c,
            q * d,
            (low * (digits() - 1)) as nat,
            high * (digits() + 1),
            scale * digits(),
        ),
{
    let v = nearest(u * c, d);
    let e = digits();
    lemma_pow2_values();
    lemma_nearest_error(u * c, d);
    let x = v * d * e;
    let y = u * c;
    let z = q * scale;
    let w = u * q * scale;
    assert(v * (q * d) * (scale * e) == x * z) by (nonlinear_arith)
        requires
            x == v * d * e,
            z == q * scale,
    ;
    assert(y * z == w * c) by (nonlinear_arith)
        requires
            y == u * c,
            z == q * scale,
            w == u * q * scale,
    ;
    assert(x * z <= y * z * (e + 1)) by (nonlinear_arith)
        requires
            x <= y * (e + 1),
    ;
    assert(y * z * (e - 1) <= x * z) by (nonlinear_arith)
        requires
            y * (e - 1) <= x,
    ;
    assert(w * c * (e + 1) <= (p * c) * (high * (e + 1))) by (nonlinear_arith)
        requires
            w <= p * high,
    ;
    assert((p * c) * (low * (e - 1)) <= w * c * (e - 1)) by (nonlinear_arith)
        requires
            p * low <= w,
            e >= 1,
    ;
}

/// Bounds of two factors give bounds of their product.
proof fn lemma_near_product(
    u1: nat,
    p1: nat,
    q1: nat,
    low1: nat,
    high1: nat,
    scale1: nat,
    u2: nat,
    p2: nat,
    q2: nat,
    low2: nat,
    high2: nat,
    scale2: nat,
)
    requires
        near(u1, p1, q1, low1, high1, scale1),
        near(u2, p2, q2, low2, high2, scale2),
    ensures
        near(u1 * u2, p1 * p2, q1 * q2, low1 * low2, high1 * high2, scale1 * scale2),
{
    let w1 = u1 * q1 * scale1;
    let w2 = u2 * q2 * scale2;
    assert((u1 * u2) * (q1 * q2) * (scale1 * scale2) == w1 * w2) by (nonlinear_arith)
        requires
            w1 == u1 * q1 * scale1,
            w2 == u2 * q2 * scale2,
    ;
    assert(w1 * w2 <= (p1 * high1) * (p2 * high2)) by (nonlinear_arith)
        requires
            w1 <= p1 * high1,
            w2 <= p2 * high2,
    ;
    assert((p1 * low1) * (p2 * low2) <= w1 * w2) by (nonlinear_arith)
        requires
            p1 * low1 <= w1,
            p2 * low2 <= w2,
    ;
    assert((p1 * high1) * (p2 * high2) == (p1 * p2) * (high1 * high2)) by (nonlinear_arith);
    assert((p1 * low1) * (p2 * low2) == (p1 * p2) * (low1 * low2)) by (nonlinear_arith);
}

/// A factor of `c` above and below the line makes no difference.
proof fn lemma_near_cancel(u: nat, p: nat, q: nat, low: nat, high: nat, scale: nat, c: nat)
    requires
        near(u, p * c, q * c, low, high, scale),
        c > 0,
    ensures
        near(u, p, q, low, high, scale),
{
    let w = u * q * scale;
    assert(u * (q * c) * scale == w * c) by (nonlinear_arith)
        requires
            w == u * q * scale,
    ;
    assert(p * c * low == (p * low) * c && p * c * high == (p * high) * c) by (nonlinear_arith);
    assert(p * low <= w) by (nonlinear_arith)
        requires
            (p * low) * c <= w * c,
            c > 0,
    ;
    assert(w <= p * high) by (nonlinear_arith)
        requires
            w * c <= (p * high) * c,
            c > 0,
    ;
}

/// A positive integer as a datum.
proof fn lemma_near_of_int(n: nat)
    requires
        0 < n <= u64::MAX,
    ensures
        of_int(n) == finite(nearest(n * one_units(), 1)),
        one_units() <= nearest(n * one_units(), 1) <= pow2(1138),
        near(
            nearest(n * one_units(), 1),
            n * one_units(),
            1,
            (digits() - 1) as nat,
            digits() + 1,
            digits(),
        ),
{
    lemma_of_int_finite(n);
    lemma_of_int_positive(n);
    lemma_pow2_values();
    lemma_pow2_le(52, 1074);
    assert(pow2(52) * 1 <= n * one_units()) by (nonlinear_arith)
        requires
            n >= 1,
            pow2(52) <= one_units(),
    ;
    lemma_nearest_error(n * one_units(), 1);
}

/// A span of time in seconds, after two roundings.
proof fn lemma_near_seconds(nanos: nat)
    requires
        0 < nanos,
        nanos / NANOS_PER_SEC as nat <= u64::MAX,
    ensures
        seconds(nanos) is Finite,
        !seconds(nanos).negative(),
        pow2(1044) <= seconds(nanos)->Finite_units <= pow2(1139),
        near(
            seconds(nanos)->Finite_units,
            nanos * one_units(),
            NANOS_PER_SEC as nat,
            ((digits() - 1) * (digits() - 1)) as nat,
            (digits() + 1) * (digits() + 1),
            digits() * digits(),
        ),
{
    let e = digits();
    let g: nat = 1_000_000_000;
    let w = nanos / g;
    let f = nanos % g;
    lemma_floor(nanos, g);
    lemma_pow2_values();
    vstd::arithmetic::power2::lemma2_to64();
    lemma_pow2_pos(1044);
    lemma_pow2_pos(1074);
    lemma_pow2_adds(30, 1044);
    lemma_pow2_adds(64, 1074);
    lemma_pow2_adds(1, 1138);
    lemma_pow2_le(1044, 1074);
    lemma_pow2_le(52, 1044);
    lemma_pow2_le(1074, 1138);
    lemma_pow2_strictly_increases(1139, 2098);
    lemma_pow2_strictly_increases(1074, 2098);
    lemma_of_small_int(0);
    lemma_of_small_int(f);
    lemma_of_small_int(g);
    assert(0 * one_units() == 0) by (nonlinear_arith);
    // The whole seconds.
    let a = of_int(w)->Finite_units;
    assert(of_int(w) == finite(a) && a <= pow2(1138) && (w > 0 ==> a >= one_units()) && near(
        a,
        w * one_units(),
        1,
        (e - 1) as nat,
        e + 1,
        e,
    )) by {
        if w > 0 {
            lemma_near_of_int(w);
        } else {
            assert(a == 0 && w * one_units() == 0);
            assert(0 * ((e - 1) as nat) == 0 && 0 * (e + 1) == 0 && 0 * 1 * e == 0)
                by (nonlinear_arith);
        }
    }
    // The fraction.
    let p = (f * one_units()) * one_units();
    let q = g * one_units();
    let b = nearest(p, q);
    assert(q > 0) by (nonlinear_arith)
        requires
            q == g * one_units(),
            g > 0,
            one_units() > 0,
    ;
    assert(p <= 1 * pow2(1074) * q) by (nonlinear_arith)
        requires
            p == f * one_units() * one_units(),
            q == g * one_units(),
            f <= g,
            one_units() == pow2(1074),
    ;
    lemma_nearest_at_most(p, q, 1, 1074);
    assert(1 * pow2(1074) == pow2(1074) && 1 * pow2(1044) == pow2(1044)) by (nonlinear_arith);
    assert((f > 0 ==> b >= pow2(1044)) && near(b, f * one_units(), g, (e - 1) as nat, e + 1, e))
        by {
        if f > 0 {
            assert(1 * pow2(1044) * q <= p) by (nonlinear_arith)
                requires
                    p == f * one_units() * one_units(),
                    q == g * one_units(),
                    f >= 1,
                    g == 1_000_000_000,
                    one_units() == 0x4000_0000 * pow2(1044),
            ;
            lemma_nearest_at_least(p, q, 1, 1044);
            assert(pow2(52) * q <= p) by (nonlinear_arith)
                requires
                    1 * pow2(1044) * q <= p,
                    pow2(52) <= pow2(1044),
            ;
            lemma_nearest_error(p, q);
            lemma_near_cancel(b, f * one_units(), g, (e - 1) as nat, e + 1, e, one_units());
        } else {
            assert(p == 0 && 0 * one_units() * one_units() == 0) by (nonlinear_arith)
                requires
                    p == 0 * one_units() * one_units(),
            ;
            assert(0 * pow2(0) * q == 0 && 0 * pow2(0) == 0) by (nonlinear_arith);
            lemma_nearest_exact(0, 0, q);
            assert(0 * ((e - 1) as nat) == 0 && 0 * (e + 1) == 0 && 0 * g * e == 0)
                by (nonlinear_arith);
        }
    }
    // Their sum.
    let u = a + b;
    let t = nanos * one_units();
    assert(near(u, t, g, (e - 1) as nat, e + 1, e)) by {
        let x = w * one_units();
        let y = f * one_units();
        assert(t == x * g + y) by (nonlinear_arith)
            requires
                t == nanos * one_units(),
                nanos == w * g + f,
                x == w * one_units(),
                y == f * one_units(),
        ;
        assert(u * g * e == (a * 1 * e) * g + b * g * e) by (nonlinear_arith)
            requires
                u == a + b,
        ;
        assert(t * (e + 1) == (x * (e + 1)) * g + y * (e + 1)) by (nonlinear_arith)
            requires
                t == x * g + y,
        ;
        assert(t * (e - 1) == (x * (e - 1)) * g + y * (e - 1)) by (nonlinear_arith)
            requires
                t == x * g + y,
        ;
    }
    assert(u * 1 == u && t * 1 == t && g * 1 == g) by (nonlinear_arith);
    lemma_near_rounded(u, t, g, (e - 1) as nat, e + 1, e, 1, 1);
    assert(1 * pow2(1139) * 1 == pow2(1139) && 1 * pow2(1139) == pow2(1139)) by (nonlinear_arith);
    lemma_nearest_at_most(u, 1, 1, 1139);
    assert(1 * pow2(1044) * 1 == pow2(1044)) by (nonlinear_arith);
    lemma_nearest_at_least(u, 1, 1, 1044);
    assert(of_int(f).quotient(of_int(g)) == finite(b));
    assert(seconds(nanos) == rounded(false, u, 1));
}

/// A span of time in seconds is in range.
pub(crate) proof fn lemma_seconds_in_range(nanos: nat)
    requires
        0 < nanos,
        nanos / NANOS_PER_SEC as nat <= u64::MAX,
    ensures
        seconds(nanos) is Finite,
        !seconds(nanos).negative(),
        seconds(nanos)->Finite_units <= pow2(1139),
{
    lemma_near_seconds(nanos);
}

/// A span of time in seconds is a billionth of its nanoseconds, to within one part in 2 to the
/// power of 50.
pub proof fn law_seconds(nanos: nat)
    requires
        0 < nanos,
        nanos / 1_000_000_000 <= 0xFFFF_FFFF_FFFF_FFFF,
    ensures
        seconds(nanos) is Finite,
        !seconds(nanos)->Finite_negative,
        ({
            let units = seconds(nanos)->Finite_units;
            let n: nat = 0x4_0000_0000_0000;
            &&& units * 1_000_000_000 * n <= nanos * pow2(1074) * (n + 1)
            &&& nanos * pow2(1074) * (n - 1) <= units * 1_000_000_000 * n
        }),
{
    let e = digits();
    let n: nat = 0x4_0000_0000_0000;
    let x = seconds(nanos)->Finite_units * 1_000_000_000;
    let y = nanos * one_units();
    lemma_near_seconds(nanos);
    lemma_pow2_values();
    assert(x * n <= y * (n + 1) && y * (n - 1) <= x * n) by (nonlinear_arith)
        requires
            x * (e * e) <= y * ((e + 1) * (e + 1)),
            y * ((e - 1) * (e - 1)) <= x * (e * e),
            e == 0x20_0000_0000_0000,
            n == 0x4_0000_0000_0000,
    ;
}

/// The bounds after six roundings lie within one part in 2 to the power of 50.
proof fn lemma_six_roundings(e: nat, low: nat, high: nat, n: nat)
    requires
        e == digits(),
        low == e - 1,
        high == e + 1,
        n == 0x4_0000_0000_0000,
    ensures
        high * (high * high) * high * high * high * n <= e * (e * e) * e * e * e * (n + 1),
        e * (e * e) * e * e * e * (n - 1) <= low * (low * low) * low * low * low * n,
        e * (e * e) * e * e * e > 0,
{
    assert(high * (high * high) * high * high * high * n <= e * (e * e) * e * e * e * (n + 1) && e
        * (e * e) * e * e * e * (n - 1) <= low * (low * low) * low * low * low * n && e * (e * e)
        * e * e * e > 0) by (nonlinear_arith)
        requires
            e == 0x20_0000_0000_0000,
            low == 0x1F_FFFF_FFFF_FFFF,
            high == 0x20_0000_0000_0001,
            n == 0x4_0000_0000_0000,
    ;
}

/// From the bounds of a quotient in units to those of its integer part.
proof fn lemma_integer_part(
    units: nat,
    part: nat,
    p: nat,
    q: nat,
    low: nat,
    high: nat,
    scale: nat,
    n: nat,
)
    requires
        near(units, p * one_units(), q, low, high, scale),
        part <= units / one_units(),
        part == units / one_units() || part == u64::MAX,
        q > 0,
        scale > 0,
        n > 0,
        high * n <= scale * (n + 1),
        scale * (n - 1) <= low * n,
    ensures
        part * q * n <= p * (n + 1),
        part == u64::MAX || p * (n - 1) < (part + 1) * q * n,
{
    let o = one_units();
    lemma_pow2_pos(1074);
    lemma_floor(units, o);
    let f = units / o;
    assert(part * o <= units) by (nonlinear_arith)
        requires
            part <= f,
            f * o <= units,
    ;
    assert((part * q * scale) * o <= (p * high) * o) by (nonlinear_arith)
        requires
            part * o <= units,
            units * q * scale <= p * o * high,
    ;
    assert(part * q * scale <= p * high) by (nonlinear_arith)
        requires
            (part * q * scale) * o <= (p * high) * o,
            o > 0,
    ;
    assert((part * q * n) * scale <= (p * (n + 1)) * scale) by (nonlinear_arith)
        requires
            part * q * scale <= p * high,
            high * n <= scale * (n + 1),
    ;
    assert(part * q * n <= p * (n + 1)) by (nonlinear_arith)
        requires
            (part * q * n) * scale <= (p * (n + 1)) * scale,
            scale > 0,
    ;
    if part != u64::MAX {
        assert((p * low) * o < ((part + 1) * q * scale) * o) by (nonlinear_arith)
            requires
                units < (part + 1) * o,
                p * o * low <= units * q * scale,
                q > 0,
                scale > 0,
        ;
        assert(p * low < (part + 1) * q * scale) by (nonlinear_arith)
            requires
                (p * low) * o < ((part + 1) * q * scale) * o,
                o > 0,
        ;
        assert((p * (n - 1)) * scale < ((part + 1) * q * n) * scale) by (nonlinear_arith)
            requires
                p * low < (part + 1) * q * scale,
                scale * (n - 1) <= low * n,
                n > 0,
        ;
        assert(p * (n - 1) < (part + 1) * q * n) by (nonlinear_arith)
            requires
                (p * (n - 1)) * scale < ((part + 1) * q * n) * scale,
                scale > 0,
        ;
    }
}

proof fn lemma_window_formula(target: nat, rtt: nat, rate: nat)
    requires
        0 < target <= u64::MAX,
        0 < rtt,
        rtt / NANOS_PER_SEC as nat <= u64::MAX,
        0 < rate <= one_units(),
    ensures
        ({
            let exact_num = 2 * target * rtt * one_units();
            let exact_den = NANOS_PER_SEC as nat * rate;
            let window = flight(target, rtt, finite(rate));
            let n: nat = 0x4_0000_0000_0000;
            &&& window * exact_den * n <= exact_num * (n + 1)
            &&& window == u64::MAX || exact_num * (n - 1) < (window + 1) * exact_den * n
        }),
{
    let e = digits();
    let low = (e - 1) as nat;
    let high = e + 1;
    let g = NANOS_PER_SEC as nat;
    let o = one_units();
    lemma_near_seconds(rtt);
    lemma_near_of_int(target);
    lemma_pow2_values();
    lemma_pow2_pos(1044);
    lemma_pow2_pos(1074);
    lemma_of_small_int(2);
    let t = nearest(target * o, 1);
    let s = seconds(rtt)->Finite_units;
    // The bandwidth times the round trip time.
    let n1 = t * s;
    let p1 = (target * o) * (rtt * o);
    lemma_near_product(t, target * o, 1, low, high, e, s, rtt * o, g, low * low, high * high, e * e);
    let u1 = nearest(n1, o);
    lemma_pow2_le(52, 1044);
    assert(pow2(52) * o <= n1 && pow2(1044) * o <= n1) by (nonlinear_arith)
        requires
            n1 == t * s,
            t >= o,
            s >= pow2(1044),
            pow2(1044) >= pow2(52),
    ;
    lemma_pow2_adds(1138, 1139);
    lemma_pow2_adds(1203, 1074);
    assert(n1 <= pow2(1138) * pow2(1139)) by (nonlinear_arith)
        requires
            n1 == t * s,
            t <= pow2(1138),
            s <= pow2(1139),
    ;
    assert(n1 * 1 == n1 && p1 * 1 == p1 && 1 * g == g) by (nonlinear_arith);
    lemma_near_rounded(n1, p1, g, low * (low * low), high * (high * high), e * (e * e), 1, o);
    assert(1 * pow2(1203) * o == pow2(1203) * o && 1 * pow2(1044) * o == pow2(1044) * o
        && 1 * pow2(1203) == pow2(1203) && 1 * pow2(1044) == pow2(1044)) by (nonlinear_arith);
    lemma_nearest_at_most(n1, o, 1, 1203);
    lemma_nearest_at_least(n1, o, 1, 1044);
    lemma_pow2_strictly_increases(1203, 2098);
    assert(of_int(target).product(seconds(rtt)) == finite(u1));
    // Twice that.
    let n2 = u1 * (2 * o);
    let u2 = nearest(n2, o);
    assert(pow2(52) * o <= n2 && pow2(1044) * o <= n2) by (nonlinear_arith)
        requires
            n2 == u1 * (2 * o),
            u1 >= pow2(1044),
            pow2(1044) >= pow2(52),
    ;
    lemma_near_rounded(
        u1,
        p1,
        g * o,
        low * (low * low) * low,
        high * (high * high) * high,
        e * (e * e) * e,
        2 * o,
        o,
    );
    lemma_pow2_unfold(1204);
    assert(n2 <= 1 * pow2(1204) * o) by (nonlinear_arith)
        requires
            n2 == u1 * (2 * o),
            u1 <= pow2(1203),
            pow2(1204) == 2 * pow2(1203),
    ;
    assert(1 * pow2(1204) == pow2(1204)) by (nonlinear_arith);
    lemma_nearest_at_most(n2, o, 1, 1204);
    lemma_nearest_at_least(n2, o, 1, 1044);
    lemma_pow2_strictly_increases(1204, 2098);
    assert(finite(u1).product(of_int(2)) == finite(u2));
    // Over the rate.
    let n3 = u2 * o;
    let u3 = nearest(n3, rate);
    assert(pow2(52) * rate <= n3) by (nonlinear_arith)
        requires
            n3 == u2 * o,
            u2 >= pow2(52),
            rate <= o,
    ;
    let low5 = low * (low * low) * low * low;
    let high5 = high * (high * high) * high * high;
    let e5 = e * (e * e) * e * e;
    lemma_near_rounded(u2, p1 * (2 * o), g * o * o, low5, high5, e5, o, rate);
    let p = 2 * target * rtt * o;
    let q = g * rate;
    assert(p1 * (2 * o) * o == (p * o) * (o * o)) by (nonlinear_arith)
        requires
            p1 == (target * o) * (rtt * o),
            p == 2 * target * rtt * o,
    ;
    assert(g * o * o * rate == q * (o * o)) by (nonlinear_arith)
        requires
            q == g * rate,
    ;
    assert(o * o > 0 && q > 0) by (nonlinear_arith)
        requires
            o > 0,
            q == g * rate,
            g > 0,
            rate > 0,
    ;
    lemma_near_cancel(u3, p * o, q, low5 * low, high5 * high, e5 * e, o * o);
    // The integer part.
    let window = flight(target, rtt, finite(rate));
    lemma_flight_of_units(u3, finite(u2), rate, window);
    lemma_six_roundings(e, low, high, 0x4_0000_0000_0000);
    lemma_integer_part(
        u3,
        window,
        p,
        q,
        low5 * low,
        high5 * high,
        e5 * e,
        0x4_0000_0000_0000,
    );
}

/// The integer part of a quotient, at the end of the range too.
proof fn lemma_flight_of_units(units: nat, x: Datum, rate: nat, part: nat)
    requires
        x matches Datum::Finite { negative, units: u } && !negative && units == nearest(
            u * one_units(),
            rate,
        ),
        rate > 0,
        part == x.quotient(finite(rate)).truncated(),
    ensures
        part <= units / one_units(),
        part == units / one_units() || part == u64::MAX,
{
    if units >= limit_units() {
        lemma_beyond_range(units);
    }
}

/// Nothing is sent where nothing is wanted.
proof fn lemma_no_target(rtt: nat, rate: nat)
    requires
        0 < rate,
        seconds(rtt) is Finite,
    ensures
        flight(0, rtt, finite(rate)) == 0,
        pace(0, finite(rate)) == 0,
{
    let o = one_units();
    lemma_pow2_values();
    lemma_pow2_pos(1074);
    lemma_pow2_pos(2098);
    lemma_of_small_int(0);
    lemma_of_small_int(2);
    lemma_of_small_int(8);
    lemma_nearest_exact(0, 0, o);
    lemma_nearest_exact(0, 0, rate);
    lemma_floor_zero(o);
    let s = seconds(rtt)->Finite_units;
    assert(0 * o == 0 && 0 * s == 0 && 0 * (2 * o) == 0 && 0 * (8 * o) == 0 && 0 * pow2(0) == 0 && 0
        * pow2(0) * o == 0 && 0 * pow2(0) * rate == 0) by (nonlinear_arith);
}

/// The bounds after three roundings lie within one part in 2 to the power of 50.
proof fn lemma_three_roundings(e: nat, low: nat, high: nat, n: nat)
    requires
        e == digits(),
        low == e - 1,
        high == e + 1,
        n == 0x4_0000_0000_0000,
    ensures
        high * high * high * n <= e * e * e * (n + 1),
        e * e * e * (n - 1) <= low * low * low * n,
        e * e * e > 0,
{
    assert(high * high * high * n <= e * e * e * (n + 1) && e * e * e * (n - 1) <= low * low * low
        * n && e * e * e > 0) by (nonlinear_arith)
        requires
            e == 0x20_0000_0000_0000,
            low == 0x1F_FFFF_FFFF_FFFF,
            high == 0x20_0000_0000_0001,
            n == 0x4_0000_0000_0000,
    ;
}

/// What is beyond the range in units is beyond 64 bits in ones.
pub(crate) proof fn lemma_beyond_range(units: nat)
    requires
        units >= limit_units(),
    ensures
        units / one_units() > u64::MAX,
{
    lemma_pow2_pos(1074);
    lemma_pow2_values();
    lemma_pow2_adds(64, 1074);
    lemma_pow2_le(1138, 2098);
    lemma_floor(units, one_units());
    let f = units / one_units();
    assert(f + 1 > pow2(64)) by (nonlinear_arith)
        requires
            units < (f + 1) * one_units(),
            pow2(64) * one_units() <= units,
            one_units() > 0,
    ;
}

proof fn lemma_pace_formula(target: nat, rate: nat)
    requires
        0 < target <= u64::MAX,
        0 < rate <= one_units(),
    ensures
        ({
            let exact_num = 8 * target * one_units();
            let rounded_pace = pace(target, finite(rate));
            let n: nat = 0x4_0000_0000_0000;
            &&& rounded_pace * rate * n <= exact_num * (n + 1)
            &&& rounded_pace == u64::MAX || exact_num * (n - 1) < (rounded_pace + 1) * rate * n
        }),
{
    let e = digits();
    let low = (e - 1) as nat;
    let high = e + 1;
    let o = one_units();
    lemma_near_of_int(target);
    lemma_pow2_values();
    vstd::arithmetic::power2::lemma2_to64();
    lemma_pow2_pos(1074);
    lemma_pow2_le(52, 1074);
    lemma_of_small_int(8);
    let t = nearest(target * o, 1);
    // The bandwidth over the rate.
    let n1 = t * o;
    let u1 = nearest(n1, rate);
    assert(pow2(52) * rate <= n1 && 1 * pow2(1074) * rate <= n1) by (nonlinear_arith)
        requires
            n1 == t * o,
            t >= o,
            rate <= o,
            pow2(52) <= o,
            o == pow2(1074),
    ;
    assert(1 * rate == rate && 1 * pow2(1074) == pow2(1074)) by (nonlinear_arith);
    lemma_near_rounded(t, target * o, 1, low, high, e, o, rate);
    lemma_nearest_at_least(n1, rate, 1, 1074);
    // Eight times that.
    let n2 = u1 * (8 * o);
    let u2 = nearest(n2, o);
    assert(pow2(52) * o <= n2 && u1 * o <= n2) by (nonlinear_arith)
        requires
            n2 == u1 * (8 * o),
            u1 >= pow2(52),
    ;
    lemma_near_rounded(u1, target * o * o, rate, low * low, high * high, e * e, 8 * o, o);
    let p = 8 * target * o;
    assert(target * o * o * (8 * o) == (p * o) * o) by (nonlinear_arith)
        requires
            p == 8 * target * o,
    ;
    lemma_near_cancel(u2, p * o, rate, low * low * low, high * high * high, e * e * e, o);
    // The integer part.
    let part = pace(target, finite(rate));
    assert(part <= u2 / o && (part == u2 / o || part == u64::MAX)) by {
        if u1 >= limit_units() {
            lemma_pow2_pos(2098);
            assert(1 * limit_units() * o <= n2) by (nonlinear_arith)
                requires
                    u1 * o <= n2,
                    limit_units() <= u1,
            ;
            lemma_nearest_at_least(n2, o, 1, 2098);
            assert(1 * limit_units() == limit_units()) by (nonlinear_arith);
            lemma_beyond_range(u2);
        } else {
            assert(of_int(target).quotient(finite(rate)) == finite(u1));
            if u2 >= limit_units() {
                lemma_beyond_range(u2);
            }
        }
    }
    lemma_three_roundings(e, low, high, 0x4_0000_0000_0000);
    lemma_integer_part(
        u2,
        part,
        p,
        rate,
        low * low * low,
        high * high * high,
        e * e * e,
        0x4_0000_0000_0000,
    );
}

/// The window before its lower bound is `target * rtt * 2 / rate`, rounded down, up to one part
/// in 2 to the power of 50, or the greatest 64-bit number where that is smaller. The rate is
/// `rate` units of a possible `one_units()`, and `rtt` is in nanoseconds.
pub proof fn law_window_formula(target: nat, rtt: nat, rate: nat)
    requires
        target <= u64::MAX,
        0 < rtt,
        rtt / NANOS_PER_SEC as nat <= u64::MAX,
        0 < rate <= one_units(),
    ensures
        ({
            let exact_num = 2 * target * rtt * one_units();
            let exact_den = NANOS_PER_SEC as nat * rate;
            let window = flight(target, rtt, finite(rate));
            let n: nat = 0x4_0000_0000_0000;
            &&& window * exact_den * n <= exact_num * (n + 1)
            &&& window == u64::MAX || exact_num * (n - 1) < (window + 1) * exact_den * n
        }),
{
    if target > 0 {
        lemma_window_formula(target, rtt, rate);
    } else {
        let n: nat = 0x4_0000_0000_0000;
        let exact_num = 2 * target * rtt * one_units();
        let exact_den = NANOS_PER_SEC as nat * rate;
        lemma_near_seconds(rtt);
        lemma_no_target(rtt, rate);
        assert(exact_num == 0 && 0 * exact_den * n == 0 && 0 * (n - 1) == 0 && (0 + 1) * exact_den
            * n > 0 && 0 * (n + 1) == 0) by (nonlinear_arith)
            requires
                exact_num == 2 * 0 * rtt * one_units(),
                exact_den == 1_000_000_000 * rate,
                rate > 0,
                n > 0,
        ;
    }
}

/// The pace is `8 * target / rate`, rounded down, up to one part in 2 to the power of 50,
/// or the greatest 64-bit number where that is smaller. The rate is `rate` units of a
/// possible `one_units()`.
pub proof fn law_pace_formula(target: nat, rate: nat)
    requires
        target <= u64::MAX,
        0 < rate <= one_units(),
    ensures
        ({
            let exact_num = 8 * target * one_units();
            let rounded_pace = pace(target, finite(rate));
            let n: nat = 0x4_0000_0000_0000;
            &&& rounded_pace * rate * n <= exact_num * (n + 1)
            &&& rounded_pace == u64::MAX || exact_num * (n - 1) < (rounded_pace + 1) * rate * n
        }),
{
    if target > 0 {
        lemma_pace_formula(target, rate);
    } else {
        let n: nat = 0x4_0000_0000_0000;
        let exact_num = 8 * target * one_units();
        lemma_near_seconds(1);
        lemma_no_target(1, rate);
        assert(exact_num == 0 && 0 * rate * n == 0 && 0 * (n - 1) == 0 && (0 + 1) * rate * n > 0 && 0
            * (n + 1) == 0) by (nonlinear_arith)
            requires
                exact_num == 8 * 0 * one_units(),
                rate > 0,
                n > 0,
        ;
    }
}

} // verus!
