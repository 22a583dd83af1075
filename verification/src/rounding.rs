//! Facts about rounding to a significand.
use vstd::arithmetic::div_mod::{
    lemma_fundamental_div_mod, lemma_fundamental_div_mod_converse, lemma_mod_bound,
};
use vstd::arithmetic::power2::{
    lemma_pow2_adds, lemma_pow2_pos, lemma_pow2_strictly_increases, lemma_pow2_unfold, pow2,
};
use vstd::prelude::*;

use crate::datum::{bit_len, excess, half_even, nearest};

verus! {

pub(crate) proof fn lemma_pow2_values()
    ensures
        pow2(0) == 1,
        pow2(1) == 2,
        pow2(11) == 0x800,
        pow2(52) == 0x10_0000_0000_0000,
        pow2(53) == 0x20_0000_0000_0000,
        pow2(63) == 0x8000_0000_0000_0000,
        pow2(64) == 0x1_0000_0000_0000_0000,
{
    vstd::arithmetic::power2::lemma2_to64();
    vstd::arithmetic::power2::lemma2_to64_rest();
}

pub(crate) proof fn lemma_pow2_le(a: nat, b: nat)
    requires
        a <= b,
    ensures
        pow2(a) <= pow2(b),
{
    if a < b {
        lemma_pow2_strictly_increases(a, b);
    }
}

/// `bit_len(n)` counts the binary digits of `n`.
pub(crate) proof fn lemma_bit_len(n: nat)
    ensures
        n < pow2(bit_len(n)),
        n > 0 ==> bit_len(n) > 0 && pow2((bit_len(n) - 1) as nat) <= n,
    decreases n,
{
    lemma_pow2_values();
    if n > 0 {
        lemma_bit_len(n / 2);
        lemma_pow2_unfold(bit_len(n));
        if n / 2 > 0 {
            lemma_pow2_unfold((bit_len(n) - 1) as nat);
        }
    }
}

pub(crate) proof fn lemma_bit_len_unique(n: nat, len: nat)
    requires
        n < pow2(len),
        len > 0 ==> pow2((len - 1) as nat) <= n,
    ensures
        bit_len(n) == len,
{
    lemma_bit_len(n);
    lemma_pow2_values();
    let b = bit_len(n);
    if len > 0 {
        lemma_pow2_pos((len - 1) as nat);
    }
    if b < len {
        lemma_pow2_le(b, (len - 1) as nat);
    }
    if len < b {
        lemma_pow2_le(len, (b - 1) as nat);
    }
}

pub(crate) proof fn lemma_bit_len_le(a: nat, b: nat)
    requires
        a <= b,
    ensures
        bit_len(a) <= bit_len(b),
{
    lemma_bit_len(a);
    lemma_bit_len(b);
    if bit_len(b) < bit_len(a) {
        lemma_pow2_le(bit_len(b), (bit_len(a) - 1) as nat);
    }
}

/// A floor lies between the same integers as the ratio.
pub(crate) proof fn lemma_floor(p: nat, q: nat)
    requires
        q > 0,
    ensures
        p / q * q <= p < (p / q + 1) * q,
        p == p / q * q + p % q,
        p % q < q,
{
    lemma_fundamental_div_mod(p as int, q as int);
    lemma_mod_bound(p as int, q as int);
    assert(p / q * q == q * (p / q)) by (nonlinear_arith);
    assert((p / q + 1) * q == p / q * q + q) by (nonlinear_arith);
}

pub(crate) proof fn lemma_floor_unique(p: nat, q: nat, f: nat)
    requires
        q > 0,
        f * q <= p < (f + 1) * q,
    ensures
        p / q == f,
        p % q == p - f * q,
{
    assert((f + 1) * q == f * q + q) by (nonlinear_arith);
    lemma_fundamental_div_mod_converse(p as int, q as int, f as int, p - f * q);
}

pub(crate) proof fn lemma_floor_zero(q: nat)
    requires
        q > 0,
    ensures
        0nat / q == 0,
        0nat % q == 0,
{
    assert(0 * q == 0 && (0 + 1) * q == q) by (nonlinear_arith);
    lemma_floor_unique(0, q, 0);
}

/// Ratios compare as their floors do, weakly.
pub(crate) proof fn lemma_floor_monotonic(p1: nat, q1: nat, p2: nat, q2: nat)
    requires
        q1 > 0,
        q2 > 0,
        p1 * q2 <= p2 * q1,
    ensures
        p1 / q1 <= p2 / q2,
{
    lemma_floor(p1, q1);
    lemma_floor(p2, q2);
    let f1 = p1 / q1;
    let f2 = p2 / q2;
    if f1 > f2 {
        assert(p1 * q2 >= f1 * q1 * q2) by (nonlinear_arith)
            requires
                p1 >= f1 * q1,
        ;
        assert(p2 * q1 < (f2 + 1) * q2 * q1) by (nonlinear_arith)
            requires
                p2 < (f2 + 1) * q2,
                q1 > 0,
        ;
        assert((f2 + 1) * q2 * q1 <= f1 * q1 * q2) by (nonlinear_arith)
            requires
                f2 + 1 <= f1,
        ;
        assert(false);
    }
}

/// Rounding to an integer keeps the order.
pub(crate) proof fn lemma_half_even_monotonic(p1: nat, q1: nat, p2: nat, q2: nat)
    requires
        q1 > 0,
        q2 > 0,
        p1 * q2 <= p2 * q1,
    ensures
        half_even(p1, q1) <= half_even(p2, q2),
{
    lemma_floor_monotonic(p1, q1, p2, q2);
    lemma_floor(p1, q1);
    lemma_floor(p2, q2);
    let f = p1 / q1;
    let r1 = p1 % q1;
    let r2 = p2 % q2;
    if f == p2 / q2 {
        assert(r1 * q2 <= r2 * q1) by (nonlinear_arith)
            requires
                p1 == f * q1 + r1,
                p2 == f * q2 + r2,
                p1 * q2 <= p2 * q1,
        ;
        if 2 * r1 >= q1 {
            assert(2 * r2 >= q2) by (nonlinear_arith)
                requires
                    2 * r1 >= q1,
                    r1 * q2 <= r2 * q1,
                    q1 > 0,
            ;
            if 2 * r2 == q2 {
                assert(2 * r1 <= q1) by (nonlinear_arith)
                    requires
                        2 * r2 == q2,
                        r1 * q2 <= r2 * q1,
                        q2 > 0,
                ;
            }
        }
    }
}

pub(crate) proof fn lemma_half_even_at_most(p: nat, q: nat, m: nat)
    requires
        q > 0,
        p <= m * q,
    ensures
        half_even(p, q) <= m,
{
    lemma_half_even_whole(m, q);
    assert(p * q <= (m * q) * q) by (nonlinear_arith)
        requires
            p <= m * q,
    ;
    lemma_half_even_monotonic(p, q, m * q, q);
}

pub(crate) proof fn lemma_half_even_at_least(p: nat, q: nat, m: nat)
    requires
        q > 0,
        m * q <= p,
    ensures
        m <= half_even(p, q),
{
    lemma_half_even_whole(m, q);
    assert((m * q) * q <= p * q) by (nonlinear_arith)
        requires
            m * q <= p,
    ;
    lemma_half_even_monotonic(m * q, q, p, q);
}

/// A whole number is rounded to itself.
pub(crate) proof fn lemma_half_even_whole(m: nat, q: nat)
    requires
        q > 0,
    ensures
        half_even(m * q, q) == m,
{
    assert((m + 1) * q == m * q + q) by (nonlinear_arith);
    lemma_floor_unique(m * q, q, m);
}

/// The significand of a nearest number has at most 53 digits, up to a carry,
/// and exactly 53 where some had to be dropped.
pub(crate) proof fn lemma_nearest_significand(p: nat, q: nat)
    requires
        q > 0,
    ensures
        ({
            let k = excess(bit_len(p / q));
            let m = half_even(p, q * pow2(k));
            &&& q * pow2(k) > 0
            &&& m <= pow2(53)
            &&& k > 0 ==> pow2(52) <= m
        }),
{
    let f = p / q;
    let len = bit_len(f);
    let k = excess(len);
    lemma_pow2_pos(k);
    assert(q * pow2(k) > 0) by (nonlinear_arith)
        requires
            q > 0,
            pow2(k) > 0,
    ;
    lemma_bit_len(f);
    lemma_floor(p, q);
    lemma_pow2_le(len, 53 + k);
    lemma_pow2_adds(53, k);
    assert(p <= pow2(53) * (q * pow2(k))) by (nonlinear_arith)
        requires
            p < (f + 1) * q,
            f + 1 <= pow2(53) * pow2(k),
    ;
    lemma_half_even_at_most(p, q * pow2(k), pow2(53));
    if k > 0 {
        lemma_pow2_adds(52, k);
        assert(pow2(52) * (q * pow2(k)) <= p) by (nonlinear_arith)
            requires
                f * q <= p,
                pow2(52) * pow2(k) <= f,
        ;
        lemma_half_even_at_least(p, q * pow2(k), pow2(52));
    }
}

/// Rounding to a significand keeps the order.
pub(crate) proof fn lemma_nearest_monotonic(p1: nat, q1: nat, p2: nat, q2: nat)
    requires
        q1 > 0,
        q2 > 0,
        p1 * q2 <= p2 * q1,
    ensures
        nearest(p1, q1) <= nearest(p2, q2),
{
    lemma_floor_monotonic(p1, q1, p2, q2);
    lemma_bit_len_le(p1 / q1, p2 / q2);
    let k1 = excess(bit_len(p1 / q1));
    let k2 = excess(bit_len(p2 / q2));
    lemma_nearest_significand(p1, q1);
    lemma_nearest_significand(p2, q2);
    let m1 = half_even(p1, q1 * pow2(k1));
    let m2 = half_even(p2, q2 * pow2(k2));
    if k1 == k2 {
        assert(p1 * (q2 * pow2(k1)) <= p2 * (q1 * pow2(k1))) by (nonlinear_arith)
            requires
                p1 * q2 <= p2 * q1,
        ;
        lemma_half_even_monotonic(p1, q1 * pow2(k1), p2, q2 * pow2(k1));
        assert(m1 * pow2(k1) <= m2 * pow2(k1)) by (nonlinear_arith)
            requires
                m1 <= m2,
        ;
    } else {
        lemma_pow2_adds(53, k1);
        lemma_pow2_adds(52, k2);
        lemma_pow2_le(53 + k1, 52 + k2);
        assert(m1 * pow2(k1) <= pow2(53) * pow2(k1)) by (nonlinear_arith)
            requires
                m1 <= pow2(53),
        ;
        assert(pow2(52) * pow2(k2) <= m2 * pow2(k2)) by (nonlinear_arith)
            requires
                pow2(52) <= m2,
        ;
    }
}

/// Equal ratios have the same nearest number.
pub(crate) proof fn lemma_nearest_ratio(p1: nat, q1: nat, p2: nat, q2: nat)
    requires
        q1 > 0,
        q2 > 0,
        p1 * q2 == p2 * q1,
    ensures
        nearest(p1, q1) == nearest(p2, q2),
{
    lemma_nearest_monotonic(p1, q1, p2, q2);
    lemma_nearest_monotonic(p2, q2, p1, q1);
}

/// A number that fits a significand is its own nearest number.
pub(crate) proof fn lemma_nearest_exact(m: nat, k: nat, q: nat)
    requires
        q > 0,
        m < pow2(53),
    ensures
        nearest(m * pow2(k) * q, q) == m * pow2(k),
{
    let n = m * pow2(k);
    lemma_pow2_pos(k);
    assert((n + 1) * q == n * q + q) by (nonlinear_arith);
    lemma_floor_unique(n * q, q, n);
    let kk = excess(bit_len(n));
    lemma_bit_len(n);
    lemma_pow2_adds(53, k);
    assert(n < pow2(53 + k)) by (nonlinear_arith)
        requires
            n == m * pow2(k),
            m < pow2(53),
            pow2(53 + k) == pow2(53) * pow2(k),
            pow2(k) > 0,
    ;
    if bit_len(n) > 53 + k {
        lemma_pow2_le(53 + k, (bit_len(n) - 1) as nat);
    }
    let rest = (k - kk) as nat;
    lemma_pow2_adds(rest, kk);
    lemma_pow2_pos(kk);
    let s = m * pow2(rest);
    assert(n == s * pow2(kk)) by (nonlinear_arith)
        requires
            n == m * pow2(k),
            s == m * pow2(rest),
            pow2(k) == pow2(rest) * pow2(kk),
    ;
    assert(n * q == s * (q * pow2(kk))) by (nonlinear_arith)
        requires
            n == s * pow2(kk),
    ;
    assert(q * pow2(kk) > 0) by (nonlinear_arith)
        requires
            q > 0,
            pow2(kk) > 0,
    ;
    lemma_half_even_whole(s, q * pow2(kk));
}

pub(crate) proof fn lemma_nearest_at_most(p: nat, q: nat, m: nat, k: nat)
    requires
        q > 0,
        m < pow2(53),
        p <= m * pow2(k) * q,
    ensures
        nearest(p, q) <= m * pow2(k),
{
    lemma_nearest_exact(m, k, q);
    assert(p * q <= m * pow2(k) * q * q) by (nonlinear_arith)
        requires
            p <= m * pow2(k) * q,
    ;
    lemma_nearest_monotonic(p, q, m * pow2(k) * q, q);
}

pub(crate) proof fn lemma_nearest_at_least(p: nat, q: nat, m: nat, k: nat)
    requires
        q > 0,
        m < pow2(53),
        m * pow2(k) * q <= p,
    ensures
        m * pow2(k) <= nearest(p, q),
{
    lemma_nearest_exact(m, k, q);
    assert(m * pow2(k) * q * q <= p * q) by (nonlinear_arith)
        requires
            m * pow2(k) * q <= p,
    ;
    lemma_nearest_monotonic(m * pow2(k) * q, q, p, q);
}

/// A significand that is less than half a step off is the nearest one.
pub(crate) proof fn lemma_nearest_within_half(p: nat, q: nat, k: nat, m: nat)
    requires
        q > 0,
        pow2(52 + k) * q <= p < pow2(53 + k) * q,
        (2 * m - 1) * (q * pow2(k)) < 2 * p < (2 * m + 1) * (q * pow2(k)),
    ensures
        nearest(p, q) == m * pow2(k),
{
    let f = p / q;
    lemma_floor(p, q);
    assert(pow2(52 + k) <= f) by (nonlinear_arith)
        requires
            pow2(52 + k) * q <= p,
            p < (f + 1) * q,
            q > 0,
    ;
    assert(f < pow2(53 + k)) by (nonlinear_arith)
        requires
            f * q <= p,
            p < pow2(53 + k) * q,
            q > 0,
    ;
    lemma_bit_len_unique(f, 53 + k);
    let step = q * pow2(k);
    lemma_pow2_pos(k);
    assert(step > 0) by (nonlinear_arith)
        requires
            step == q * pow2(k),
            q > 0,
            pow2(k) > 0,
    ;
    let floor = p / step;
    let rest = p % step;
    lemma_floor(p, step);
    if 2 * rest < step {
        assert(2 * m + 1 > 2 * floor && 2 * m - 1 < 2 * floor + 1) by (nonlinear_arith)
            requires
                p == floor * step + rest,
                2 * rest < step,
                (2 * m - 1) * step < 2 * p,
                2 * p < (2 * m + 1) * step,
                step > 0,
                rest >= 0,
        ;
    } else if 2 * rest > step {
        assert(2 * m + 1 > 2 * floor + 1 && 2 * m - 1 < 2 * floor + 2) by (nonlinear_arith)
            requires
                p == floor * step + rest,
                2 * rest > step,
                rest < step,
                (2 * m - 1) * step < 2 * p,
                2 * p < (2 * m + 1) * step,
                step > 0,
        ;
    } else {
        assert(2 * m + 1 > 2 * floor + 1 && 2 * m - 1 < 2 * floor + 1) by (nonlinear_arith)
            requires
                p == floor * step + rest,
                2 * rest == step,
                (2 * m - 1) * step < 2 * p,
                2 * p < (2 * m + 1) * step,
                step > 0,
        ;
    }
}

/// How far `n` units are from `p / q` units, in steps of one `q`-th.
pub open spec fn distance(p: nat, q: nat, n: nat) -> nat {
    if p >= n * q {
        (p - n * q) as nat
    } else {
        (n * q - p) as nat
    }
}

/// No integer is nearer than the one that is rounded to, and with a tie that one is even.
proof fn lemma_half_even_is_nearest(p: nat, q: nat, j: nat)
    requires
        q > 0,
    ensures
        distance(p, q, half_even(p, q)) <= distance(p, q, j),
        distance(p, q, half_even(p, q)) == distance(p, q, j) && j != half_even(p, q)
            ==> half_even(p, q) % 2 == 0,
        2 * distance(p, q, half_even(p, q)) <= q,
{
    let f = p / q;
    let r = p % q;
    lemma_floor(p, q);
    assert((f + 1) * q == f * q + q) by (nonlinear_arith);
    if j < f {
        assert(j * q + q <= f * q) by (nonlinear_arith)
            requires
                j + 1 <= f,
        ;
    } else if j > f + 1 {
        assert(f * q + 2 * q <= j * q) by (nonlinear_arith)
            requires
                f + 2 <= j,
        ;
    }
}

/// `nearest` keeps its word: no number that fits a significand is nearer to `p / q`,
/// and where another one is as near, the significand is even.
pub proof fn law_nearest(p: nat, q: nat, m: nat, k: nat)
    requires
        q > 0,
        m < pow2(53),
    ensures
        distance(p, q, nearest(p, q)) <= distance(p, q, m * pow2(k)),
        distance(p, q, nearest(p, q)) == distance(p, q, m * pow2(k)) && m * pow2(k) != nearest(p, q)
            ==> half_even(p, q * pow2(excess(bit_len(p / q)))) % 2 == 0,
{
    let kk = excess(bit_len(p / q));
    let c = pow2(kk);
    let step = q * c;
    let h = half_even(p, step);
    lemma_nearest_significand(p, q);
    assert(nearest(p, q) * q == h * step) by (nonlinear_arith)
        requires
            nearest(p, q) == h * c,
            step == q * c,
    ;
    let s = m * pow2(k);
    if k >= kk {
        let j = m * pow2((k - kk) as nat);
        lemma_pow2_adds((k - kk) as nat, kk);
        lemma_pow2_pos(kk);
        assert(s == j * c) by (nonlinear_arith)
            requires
                s == m * pow2(k),
                j == m * pow2((k - kk) as nat),
                pow2(k) == pow2((k - kk) as nat) * c,
        ;
        assert(s * q == j * step) by (nonlinear_arith)
            requires
                s == j * c,
                step == q * c,
        ;
        lemma_half_even_is_nearest(p, step, j);
    } else {
        // The number is below the least one that keeps all its digits.
        let j = pow2(52);
        lemma_floor(p, q);
        lemma_bit_len(p / q);
        lemma_pow2_adds(52, kk);
        lemma_pow2_adds(53, k);
        lemma_pow2_pos(k);
        lemma_pow2_le(53 + k, 52 + kk);
        assert(s < pow2(53) * pow2(k)) by (nonlinear_arith)
            requires
                s == m * pow2(k),
                m < pow2(53),
                pow2(k) > 0,
        ;
        assert(s * q < j * step) by (nonlinear_arith)
            requires
                s < j * c,
                step == q * c,
                q > 0,
        ;
        assert(j * step <= p) by (nonlinear_arith)
            requires
                j * c <= p / q,
                p / q * q <= p,
                step == q * c,
        ;
        lemma_half_even_is_nearest(p, step, j);
    }
}

/// The relative error of rounding is at most half a unit of the last of 53 digits.
pub(crate) proof fn lemma_nearest_error(p: nat, q: nat)
    requires
        q > 0,
        pow2(52) * q <= p,
    ensures
        nearest(p, q) * q * pow2(53) <= p * (pow2(53) + 1),
        p * (pow2(53) - 1) <= nearest(p, q) * q * pow2(53),
{
    let kk = excess(bit_len(p / q));
    let c = pow2(kk);
    let step = q * c;
    let h = half_even(p, step);
    lemma_nearest_significand(p, q);
    lemma_half_even_is_nearest(p, step, 0);
    assert(nearest(p, q) * q == h * step) by (nonlinear_arith)
        requires
            nearest(p, q) == h * c,
            step == q * c,
    ;
    lemma_pow2_values();
    assert(pow2(52) * step <= p) by {
        if kk > 0 {
            lemma_floor(p, q);
            lemma_bit_len(p / q);
            lemma_pow2_adds(52, kk);
            assert(pow2(52) * step <= p) by (nonlinear_arith)
                requires
                    pow2(52) * c <= p / q,
                    p / q * q <= p,
                    step == q * c,
            ;
        } else {
            assert(step == q) by (nonlinear_arith)
                requires
                    step == q * c,
                    c == 1,
            ;
        }
    }
    let d = distance(p, step, h);
    assert(d * pow2(53) <= p) by (nonlinear_arith)
        requires
            2 * d <= step,
            pow2(52) * step <= p,
            pow2(53) == 2 * pow2(52),
    ;
    let n = h * step;
    assert(n * pow2(53) <= p * (pow2(53) + 1) && p * (pow2(53) - 1) <= n * pow2(53))
        by (nonlinear_arith)
        requires
            d * pow2(53) <= p,
            p - d <= n <= p + d,
    ;
}

} // verus!
