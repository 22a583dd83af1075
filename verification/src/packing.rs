//! Facts that connect a wide significand and its scale with the number nearest to a ratio.
//!
//! An operation computes `sig`, the integer part of its exact result in steps of 2 to the
//! power of `scale` units, and `sticky`, which tells whether anything was left over.
use vstd::arithmetic::power2::{lemma_pow2_adds, lemma_pow2_pos, lemma_pow2_unfold, pow2};
use vstd::prelude::*;

use crate::datum::{bit_len, excess, half_even, nearest};
use crate::rounding::{
    lemma_bit_len, lemma_bit_len_unique, lemma_floor, lemma_floor_unique, lemma_half_even_monotonic,
    lemma_half_even_whole, lemma_pow2_le, lemma_pow2_values,
};

verus! {

/// Numerator of `p / q` units, counted in steps of 2 to the power of `scale` units.
pub open spec fn step_num(p: nat, scale: int) -> nat {
    if scale >= 0 {
        p
    } else {
        p * pow2((-scale) as nat)
    }
}

/// Denominator of `p / q` units, counted in steps of 2 to the power of `scale` units.
pub open spec fn step_den(q: nat, scale: int) -> nat {
    if scale >= 0 {
        q * pow2(scale as nat)
    } else {
        q
    }
}

/// `sig` and `sticky` are the integer part and the trace of the rest of `p / q` units,
/// counted in steps of 2 to the power of `scale` units.
pub open spec fn is_wide(p: nat, q: nat, sig: nat, sticky: bool, scale: int) -> bool {
    &&& q > 0
    &&& step_num(p, scale) / step_den(q, scale) == sig
    &&& sticky <==> step_num(p, scale) % step_den(q, scale) != 0
}

/// `sig`, with a rest where `sticky`, rounded after its last `drop` binary digits are cut off.
pub open spec fn cut(sig: nat, sticky: bool, drop: nat) -> nat {
    let floor = sig / pow2(drop);
    let low = sig % pow2(drop);
    if 2 * low < pow2(drop) || (2 * low == pow2(drop) && !sticky && floor % 2 == 0) {
        floor
    } else {
        floor + 1
    }
}

pub(crate) proof fn lemma_step_den_positive(q: nat, scale: int)
    requires
        q > 0,
    ensures
        step_den(q, scale) > 0,
{
    if scale >= 0 {
        lemma_pow2_pos(scale as nat);
        assert(q * pow2(scale as nat) > 0) by (nonlinear_arith)
            requires
                q > 0,
                pow2(scale as nat) > 0,
        ;
    }
}

/// A ratio given by other terms is as wide as the exact result.
pub(crate) proof fn lemma_is_wide(p: nat, q: nat, a: nat, b: nat, scale: int)
    requires
        q > 0,
        b > 0,
        step_num(p, scale) * b == a * step_den(q, scale),
    ensures
        is_wide(p, q, a / b, a % b != 0, scale),
{
    let n = step_num(p, scale);
    let d = step_den(q, scale);
    lemma_step_den_positive(q, scale);
    let f = a / b;
    let r = a % b;
    lemma_floor(a, b);
    assert((n - f * d) * b == r * d) by (nonlinear_arith)
        requires
            n * b == a * d,
            a == f * b + r,
    ;
    assert(0 <= n - f * d < d) by (nonlinear_arith)
        requires
            (n - f * d) * b == r * d,
            0 <= r < b,
            d > 0,
    ;
    assert((f + 1) * d == f * d + d) by (nonlinear_arith);
    lemma_floor_unique(n, d, f);
    assert(n - f * d == 0 <==> r == 0) by (nonlinear_arith)
        requires
            (n - f * d) * b == r * d,
            b > 0,
            d > 0,
    ;
}

/// How many digits the nearest number drops follows from the digits of the wide significand.
pub(crate) proof fn lemma_wide_excess(p: nat, q: nat, sig: nat, sticky: bool, scale: int)
    requires
        is_wide(p, q, sig, sticky, scale),
        sig > 0,
    ensures
        excess(bit_len(p / q)) == (if bit_len(sig) + scale > 53 {
            bit_len(sig) + scale - 53
        } else {
            0
        }),
{
    let len = bit_len(sig);
    let f = p / q;
    lemma_bit_len(sig);
    lemma_step_den_positive(q, scale);
    lemma_floor(p, q);
    lemma_floor(step_num(p, scale), step_den(q, scale));
    if scale >= 0 {
        let c = pow2(scale as nat);
        lemma_pow2_pos(scale as nat);
        assert(sig * c <= f) by (nonlinear_arith)
            requires
                sig * (q * c) <= p,
                p < (f + 1) * q,
                q > 0,
        ;
        assert(f < (sig + 1) * c) by (nonlinear_arith)
            requires
                f * q <= p,
                p < (sig + 1) * (q * c),
                q > 0,
        ;
        lemma_pow2_adds((len - 1) as nat, scale as nat);
        lemma_pow2_adds(len, scale as nat);
        let total = (len + scale) as nat;
        assert(pow2((total - 1) as nat) <= f) by (nonlinear_arith)
            requires
                pow2((total - 1) as nat) == pow2((len - 1) as nat) * c,
                pow2((len - 1) as nat) <= sig,
                sig * c <= f,
        ;
        assert(f < pow2(total)) by (nonlinear_arith)
            requires
                pow2(total) == pow2(len) * c,
                sig + 1 <= pow2(len),
                f < (sig + 1) * c,
        ;
        lemma_bit_len_unique(f, total);
    } else {
        let t = (-scale) as nat;
        let c = pow2(t);
        lemma_pow2_pos(t);
        assert(f * c <= sig) by (nonlinear_arith)
            requires
                f * q <= p,
                p * c < (sig + 1) * q,
                q > 0,
                c > 0,
        ;
        assert(sig < (f + 1) * c) by (nonlinear_arith)
            requires
                sig * q <= p * c,
                p < (f + 1) * q,
                q > 0,
                c > 0,
        ;
        if len <= t {
            lemma_pow2_le(len, t);
            assert(f == 0) by (nonlinear_arith)
                requires
                    f * c <= sig,
                    sig < c,
            ;
        } else {
            let total = (len - t) as nat;
            lemma_pow2_adds(total, t);
            lemma_pow2_adds((total - 1) as nat, t);
            assert(f < pow2(total)) by (nonlinear_arith)
                requires
                    f * c <= sig,
                    sig < pow2(total) * c,
                    c > 0,
            ;
            assert(pow2((total - 1) as nat) <= f) by (nonlinear_arith)
                requires
                    pow2((total - 1) as nat) * c <= sig,
                    sig < (f + 1) * c,
                    c > 0,
            ;
            lemma_bit_len_unique(f, total);
        }
    }
}

/// Cutting the wide significand rounds the exact result.
pub(crate) proof fn lemma_wide_cut(p: nat, q: nat, sig: nat, sticky: bool, scale: int, k: nat, drop: nat)
    requires
        is_wide(p, q, sig, sticky, scale),
        k == drop + scale,
        sticky ==> drop > 0,
    ensures
        half_even(p, q * pow2(k)) == cut(sig, sticky, drop),
{
    let n = step_num(p, scale);
    let d = step_den(q, scale);
    let c = pow2(drop);
    lemma_pow2_pos(drop);
    lemma_pow2_pos(k);
    lemma_step_den_positive(q, scale);
    assert(q * pow2(k) > 0) by (nonlinear_arith)
        requires
            q > 0,
            pow2(k) > 0,
    ;
    assert(d * c > 0) by (nonlinear_arith)
        requires
            d > 0,
            c > 0,
    ;
    // The two ratios are the same.
    assert(p * (d * c) == n * (q * pow2(k))) by {
        if scale >= 0 {
            lemma_pow2_adds(scale as nat, drop);
            assert(d * c == q * pow2(k)) by (nonlinear_arith)
                requires
                    d == q * pow2(scale as nat),
                    pow2(k) == pow2(scale as nat) * c,
            ;
        } else {
            let t = (-scale) as nat;
            lemma_pow2_adds(k, t);
            assert(p * (q * c) == (p * pow2(t)) * (q * pow2(k))) by (nonlinear_arith)
                requires
                    c == pow2(k) * pow2(t),
            ;
        }
    }
    lemma_half_even_monotonic(p, q * pow2(k), n, d * c);
    lemma_half_even_monotonic(n, d * c, p, q * pow2(k));
    // The integer part and the rest of the second ratio.
    let floor = sig / c;
    let low = sig % c;
    let r = n % d;
    lemma_floor(n, d);
    lemma_floor(sig, c);
    let rest = low * d + r;
    assert(n == floor * (d * c) + rest) by (nonlinear_arith)
        requires
            n == sig * d + r,
            sig == floor * c + low,
            rest == low * d + r,
    ;
    assert(rest < d * c) by (nonlinear_arith)
        requires
            rest == low * d + r,
            r < d,
            low + 1 <= c,
    ;
    assert((floor + 1) * (d * c) == floor * (d * c) + d * c) by (nonlinear_arith);
    lemma_floor_unique(n, d * c, floor);
    if drop == 0 {
        lemma_pow2_values();
    } else {
        lemma_pow2_unfold(drop);
        if 2 * low < c {
            assert(2 * rest < d * c) by (nonlinear_arith)
                requires
                    rest == low * d + r,
                    2 * low + 2 <= c,
                    r < d,
            ;
        } else if 2 * low == c {
            assert(2 * rest == d * c + 2 * r) by (nonlinear_arith)
                requires
                    rest == low * d + r,
                    2 * low == c,
            ;
        } else {
            assert(2 * rest > d * c) by (nonlinear_arith)
                requires
                    rest == low * d + r,
                    2 * low > c,
                    d > 0,
            ;
        }
    }
}

/// Where no digit is dropped, the exact result is a whole significand.
pub(crate) proof fn lemma_wide_pad(p: nat, q: nat, sig: nat, scale: int, k: nat, pad: nat)
    requires
        is_wide(p, q, sig, false, scale),
        scale == k + pad,
    ensures
        half_even(p, q * pow2(k)) == sig * pow2(pad),
{
    lemma_step_den_positive(q, scale);
    lemma_floor(p, step_den(q, scale));
    lemma_pow2_adds(k, pad);
    lemma_pow2_pos(k);
    assert(q * pow2(k) > 0) by (nonlinear_arith)
        requires
            q > 0,
            pow2(k) > 0,
    ;
    assert(p == (sig * pow2(pad)) * (q * pow2(k))) by (nonlinear_arith)
        requires
            p == sig * (q * pow2(scale as nat)),
            pow2(scale as nat) == pow2(k) * pow2(pad),
    ;
    lemma_half_even_whole(sig * pow2(pad), q * pow2(k));
}

} // verus!
