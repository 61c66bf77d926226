//! What holds of rounding to binary64 as such: it keeps the order of numbers, and it leaves a
//! number alone that already is a binary64 number.
use crate::binary64::{
    excess, f_add, f_int, f_mul, f_ratio, f_trunc, half_even, nearest, one,
};
use vstd::arithmetic::div_mod::{
    lemma_div_denominator, lemma_fundamental_div_mod, lemma_fundamental_div_mod_converse,
    lemma_mod_bound,
};
use vstd::arithmetic::power2::{
    lemma2_to64, lemma_pow2_adds, lemma_pow2_pos, lemma_pow2_strictly_increases,
    lemma_pow2_unfold, pow2,
};
use vstd::prelude::*;

verus! {

/// A fraction that is at most another has at most its integer part.
proof fn lemma_floor_monotone(a: nat, b: nat, c: nat, d: nat)
    requires
        b > 0,
        d > 0,
        a * d <= c * b,
    ensures
        a / b <= c / d,
{
    lemma_fundamental_div_mod(a as int, b as int);
    lemma_mod_bound(a as int, b as int);
    lemma_fundamental_div_mod(c as int, d as int);
    lemma_mod_bound(c as int, d as int);
    let q = a / b;
    let r = a % b;
    let k = c / d;
    let t = c % d;
    if q > k {
        assert(false) by (nonlinear_arith)
            requires
                a == b * q + r,
                c == d * k + t,
                r >= 0,
                t < d,
                a * d <= c * b,
                q >= k + 1,
                b > 0,
                d > 0,
        ;
    }
}

/// Rounding to a whole number keeps the order of fractions.
proof fn lemma_half_even_monotone(a: nat, b: nat, c: nat, d: nat)
    requires
        b > 0,
        d > 0,
        a * d <= c * b,
    ensures
        half_even(a, b) <= half_even(c, d),
{
    lemma_floor_monotone(a, b, c, d);
    lemma_fundamental_div_mod(a as int, b as int);
    lemma_mod_bound(a as int, b as int);
    lemma_fundamental_div_mod(c as int, d as int);
    lemma_mod_bound(c as int, d as int);
    let q = a / b;
    let r = a % b;
    let t = c % d;
    if q == c / d {
        assert(r * d <= t * b) by (nonlinear_arith)
            requires
                a == b * q + r,
                c == d * q + t,
                a * d <= c * b,
        ;
        if 2 * r >= b {
            assert(2 * t >= d) by (nonlinear_arith)
                requires
                    r * d <= t * b,
                    2 * r >= b,
                    b > 0,
                    d > 0,
            ;
        }
        if 2 * r > b {
            assert(2 * t > d) by (nonlinear_arith)
                requires
                    r * d <= t * b,
                    2 * r > b,
                    b > 0,
                    d > 0,
            ;
        }
    }
}

/// A larger number has at least as many excess bits.
proof fn lemma_excess_monotone(p: nat, q: nat)
    requires
        p <= q,
    ensures
        excess(p) <= excess(q),
    decreases q,
{
    if p >= 0x20_0000_0000_0000 {
        lemma_excess_monotone(p / 2, q / 2);
    }
}

/// Without its excess bits, a number has a significand of 53 bits, with its top bit set if
/// there are excess bits at all.
pub proof fn lemma_excess_bounds(q: nat)
    ensures
        q < 0x20_0000_0000_0000 * pow2(excess(q)),
        excess(q) > 0 ==> q >= 0x10_0000_0000_0000 * pow2(excess(q)),
    decreases q,
{
    lemma2_to64();
    if q >= 0x20_0000_0000_0000 {
        let e = excess(q);
        lemma_excess_bounds(q / 2);
        lemma_pow2_unfold(e);
        let half = pow2((e - 1) as nat);
        if e == 1 {
            assert(half == 1);
        }
    }
}

/// A number of at most `53 + s` bits has at most `s` excess bits.
proof fn lemma_excess_at_most(q: nat, s: nat)
    requires
        q < 0x20_0000_0000_0000 * pow2(s),
    ensures
        excess(q) <= s,
{
    lemma_excess_bounds(q);
    let e = excess(q);
    if e > s {
        lemma_pow2_unfold(e);
        if e - 1 > s {
            lemma_pow2_strictly_increases(s, (e - 1) as nat);
        }
    }
}

/// Rounding keeps the order of numbers.
pub proof fn nearest_monotone(a: nat, b: nat, c: nat, d: nat)
    requires
        b > 0,
        d > 0,
        a * d <= c * b,
    ensures
        nearest(a, b) <= nearest(c, d),
{
    lemma_floor_monotone(a, b, c, d);
    let q = a / b;
    let k = c / d;
    let e = excess(q);
    let f = excess(k);
    let s = pow2(e);
    let t = pow2(f);
    lemma_excess_monotone(q, k);
    lemma_pow2_pos(e);
    lemma_pow2_pos(f);
    assert(b * s > 0 && d * t > 0) by (nonlinear_arith)
        requires
            b > 0,
            d > 0,
            s > 0,
            t > 0,
    ;
    let h = half_even(a, b * s);
    let g = half_even(c, d * t);
    if e == f {
        assert(a * (d * s) <= c * (b * s)) by (nonlinear_arith)
            requires
                a * d <= c * b,
                s > 0,
        ;
        lemma_half_even_monotone(a, b * s, c, d * s);
        assert(h * s <= g * s) by (nonlinear_arith)
            requires
                h <= g,
                s > 0,
        ;
    } else {
        lemma_excess_bounds(q);
        lemma_excess_bounds(k);
        lemma_div_denominator(a as int, b as int, s as int);
        lemma_div_denominator(c as int, d as int, t as int);
        lemma_fundamental_div_mod(q as int, s as int);
        lemma_mod_bound(q as int, s as int);
        lemma_fundamental_div_mod(k as int, t as int);
        lemma_mod_bound(k as int, t as int);
        assert(q / s < 0x20_0000_0000_0000) by (nonlinear_arith)
            requires
                q < 0x20_0000_0000_0000 * s,
                s * (q / s) <= q,
                s > 0,
        ;
        assert(k / t >= 0x10_0000_0000_0000) by (nonlinear_arith)
            requires
                k >= 0x10_0000_0000_0000 * t,
                k < t * (k / t) + t,
                t > 0,
        ;
        lemma_pow2_unfold(f);
        if f - 1 > e {
            lemma_pow2_strictly_increases(e, (f - 1) as nat);
        }
        assert(h * s <= g * t) by (nonlinear_arith)
            requires
                h <= 0x20_0000_0000_0000,
                g >= 0x10_0000_0000_0000,
                t >= 2 * s,
                s > 0,
        ;
    }
}

/// Rounding leaves a number alone that has a significand of at most 53 bits.
pub proof fn nearest_exact(m: nat, s: nat, den: nat)
    requires
        m < 0x20_0000_0000_0000,
        den > 0,
    ensures
        nearest(m * pow2(s) * den, den) == m * pow2(s),
{
    let v = m * pow2(s);
    let num = v * den;
    lemma_pow2_pos(s);
    assert(num == den * v) by (nonlinear_arith)
        requires
            num == v * den,
    ;
    lemma_fundamental_div_mod_converse(num as int, den as int, v as int, 0);
    assert(v < 0x20_0000_0000_0000 * pow2(s)) by (nonlinear_arith)
        requires
            v == m * pow2(s),
            m < 0x20_0000_0000_0000,
            pow2(s) > 0,
    ;
    lemma_excess_at_most(v, s);
    let e = excess(v);
    let step = pow2(e);
    let rest = pow2((s - e) as nat);
    lemma_pow2_pos(e);
    lemma_pow2_adds(e, (s - e) as nat);
    let w = m * rest;
    assert(v == w * step) by (nonlinear_arith)
        requires
            v == m * pow2(s),
            pow2(s) == step * rest,
            w == m * rest,
    ;
    assert(num == (den * step) * w) by (nonlinear_arith)
        requires
            num == den * v,
            v == w * step,
    ;
    assert(den * step > 0) by (nonlinear_arith)
        requires
            den > 0,
            step > 0,
    ;
    lemma_fundamental_div_mod_converse(num as int, (den * step) as int, w as int, 0);
}

/// An integer of at most 53 bits is a binary64 number.
pub proof fn f_int_exact(n: nat)
    requires
        n < 0x20_0000_0000_0000,
    ensures
        f_int(n) == n * one(),
{
    nearest_exact(n, 1074, 1);
    assert(n * one() * 1 == n * one());
}

/// A larger integer is not rounded to a smaller number.
pub proof fn f_int_monotone(n: nat, k: nat)
    requires
        n <= k,
    ensures
        f_int(n) <= f_int(k),
{
    assert(n * one() * 1 <= k * one() * 1) by (nonlinear_arith)
        requires
            n <= k,
    ;
    nearest_monotone(n * one(), 1, k * one(), 1);
}

/// A larger quotient of integers is not rounded to a smaller number.
pub proof fn f_ratio_monotone(a: nat, b: nat, c: nat, d: nat)
    requires
        b > 0,
        d > 0,
        a * d <= c * b,
    ensures
        f_ratio(a, b) <= f_ratio(c, d),
{
    assert((a * one()) * d <= (c * one()) * b) by (nonlinear_arith)
        requires
            a * d <= c * b,
    ;
    nearest_monotone(a * one(), b, c * one(), d);
}

/// Larger factors do not give a smaller product.
pub proof fn f_mul_monotone(x: nat, y: nat, v: nat, w: nat)
    requires
        x <= v,
        y <= w,
    ensures
        f_mul(x, y) <= f_mul(v, w),
{
    lemma_pow2_pos(1074);
    assert((x * y) * one() <= (v * w) * one()) by (nonlinear_arith)
        requires
            x <= v,
            y <= w,
    ;
    nearest_monotone(x * y, one(), v * w, one());
}

/// Larger terms do not give a smaller sum.
pub proof fn f_add_monotone(x: nat, y: nat, v: nat, w: nat)
    requires
        x <= v,
        y <= w,
    ensures
        f_add(x, y) <= f_add(v, w),
{
    nearest_monotone(x + y, 1, v + w, 1);
}

/// The integer part of a larger number is not smaller.
pub proof fn f_trunc_monotone(x: nat, y: nat)
    requires
        x <= y,
    ensures
        f_trunc(x) <= f_trunc(y),
{
    lemma_pow2_pos(1074);
    assert(x * one() <= y * one()) by (nonlinear_arith)
        requires
            x <= y,
    ;
    lemma_floor_monotone(x, one(), y, one());
}

/// The integer part of a whole number is that number.
pub proof fn f_trunc_int(n: nat)
    requires
        n <= u64::MAX,
    ensures
        f_trunc(n * one()) == n,
{
    lemma_pow2_pos(1074);
    assert(n * one() == one() * n) by (nonlinear_arith);
    lemma_fundamental_div_mod_converse((n * one()) as int, one() as int, n as int, 0);
}

/// A product of a short significand and a power of two is a binary64 number.
pub proof fn f_mul_exact(m: nat, a: nat, b: nat)
    requires
        m < 0x20_0000_0000_0000,
        a + b >= 1074,
    ensures
        f_mul(m * pow2(a), pow2(b)) == m * pow2((a + b - 1074) as nat),
{
    let c = (a + b - 1074) as nat;
    lemma_pow2_pos(1074);
    lemma_pow2_adds(a, b);
    lemma_pow2_adds(c, 1074);
    assert((m * pow2(a)) * pow2(b) == m * pow2(c) * one()) by (nonlinear_arith)
        requires
            pow2(a) * pow2(b) == pow2(c) * one(),
    ;
    nearest_exact(m, c, one());
}

/// A quotient of a short significand and a power of two is a binary64 number.
pub proof fn f_ratio_exact(m: nat, k: nat, d: nat)
    requires
        m < 0x20_0000_0000_0000,
        k <= 1074,
        d == pow2(k),
    ensures
        f_ratio(m, d) == m * pow2((1074 - k) as nat),
{
    let c = (1074 - k) as nat;
    lemma_pow2_pos(k);
    lemma_pow2_adds(c, k);
    assert(m * one() == m * pow2(c) * d) by (nonlinear_arith)
        requires
            one() == pow2(c) * d,
    ;
    nearest_exact(m, c, d);
}

} // verus!
