//! How near binary64 arithmetic stays to the exact one.
use crate::binary64::{
    excess, f_add, f_div, f_int, f_mul, f_ratio, f_sub, f_trunc, half_even, nearest, one,
};
use crate::rounding::lemma_excess_bounds;
use vstd::arithmetic::div_mod::{
    lemma_div_multiples_vanish, lemma_fundamental_div_mod, lemma_mod_bound,
    lemma_mod_multiples_basic,
};
use vstd::arithmetic::power2::{
    lemma2_to64, lemma_pow2_adds, lemma_pow2_pos, lemma_pow2_strictly_increases, pow2,
};
use vstd::prelude::*;

verus! {

/// 2^53, the number of significands of a binary64 number.
pub open spec fn fine() -> nat {
    0x20_0000_0000_0000
}

/// Rounding to a whole number goes at most half a unit away.
proof fn lemma_half_even_close(num: nat, den: nat)
    requires
        den > 0,
    ensures
        2 * (half_even(num, den) * den) <= 2 * num + den,
        2 * num <= 2 * (half_even(num, den) * den) + den,
{
    lemma_fundamental_div_mod(num as int, den as int);
    lemma_mod_bound(num as int, den as int);
    let q = num / den;
    let r = num % den;
    assert(q * den == den * q) by (nonlinear_arith);
    assert((q + 1) * den == den * q + den) by (nonlinear_arith);
}

/// Rounding a number that is not tiny changes it by at most one part in 2^53.
pub proof fn nearest_is_close(num: nat, den: nat)
    requires
        den > 0,
        num == 0 || num >= 0x10_0000_0000_0000 * den,
    ensures
        fine() * (nearest(num, den) * den) <= (fine() + 1) * num,
        fine() * (nearest(num, den) * den) + num >= fine() * num,
{
    let q = num / den;
    let e = excess(q);
    let step = pow2(e);
    lemma_pow2_pos(e);
    let unit = den * step;
    assert(unit > 0) by (nonlinear_arith)
        requires
            unit == den * step,
            den > 0,
            step > 0,
    ;
    lemma_half_even_close(num, unit);
    let h = half_even(num, unit);
    let y = nearest(num, den);
    assert(y * den == h * unit) by (nonlinear_arith)
        requires
            y == h * step,
            unit == den * step,
    ;
    lemma_fundamental_div_mod(num as int, den as int);
    lemma_mod_bound(num as int, den as int);
    if num == 0 {
        assert(q == 0) by (nonlinear_arith)
            requires
                num == den * q + num % den,
                num == 0,
                den > 0,
                num % den >= 0,
        ;
        assert(e == 0);
        lemma2_to64();
        assert(unit == den) by (nonlinear_arith)
            requires
                unit == den * step,
                step == 1,
        ;
        assert(h == 0) by {
            assert(0nat / den == 0 && 0nat % den == 0) by (nonlinear_arith)
                requires
                    den > 0,
            ;
        }
        assert(0 * unit == 0);
    } else {
        lemma_excess_bounds(q);
        assert(num >= 0x10_0000_0000_0000 * unit) by {
            if e == 0 {
                lemma2_to64();
                assert(unit == den) by (nonlinear_arith)
                    requires
                        unit == den * step,
                        step == 1,
                ;
            } else {
                assert(num >= 0x10_0000_0000_0000 * unit) by (nonlinear_arith)
                    requires
                        num >= den * q,
                        q >= 0x10_0000_0000_0000 * step,
                        unit == den * step,
                        den > 0,
                ;
            }
        }
    }
    let v = y * den;
    let f = fine();
    assert(f * v <= (f + 1) * num && f * v + num >= f * num) by (nonlinear_arith)
        requires
            f == 0x20_0000_0000_0000,
            num == 0 ==> v == 0,
            num != 0 ==> 2 * v <= 2 * num + unit && 2 * num <= 2 * v + unit && num
                >= 0x10_0000_0000_0000 * unit,
    ;
}

/// Every number of at most 53 significant bits is at least as far from a number as its rounding:
/// rounding gives one of the nearest.
pub proof fn nearest_is_nearest(num: nat, den: nat, m: nat, s: nat)
    requires
        den > 0,
        m < 0x20_0000_0000_0000,
    ensures
        ({
            let off = nearest(num, den) * den - num;
            let other = (m * pow2(s)) * den - num;
            (if off >= 0 {
                off
            } else {
                -off
            }) <= (if other >= 0 {
                other
            } else {
                -other
            })
        }),
{
    let q = num / den;
    let e = excess(q);
    let step = pow2(e);
    lemma_pow2_pos(e);
    lemma_pow2_pos(s);
    let unit = den * step;
    assert(unit > 0) by (nonlinear_arith)
        requires
            unit == den * step,
            den > 0,
            step > 0,
    ;
    lemma_half_even_close(num, unit);
    let h = half_even(num, unit);
    let y = nearest(num, den);
    assert(y * den == h * unit) by (nonlinear_arith)
        requires
            y == h * step,
            unit == den * step,
    ;
    lemma_fundamental_div_mod(num as int, den as int);
    lemma_mod_bound(num as int, den as int);
    lemma_excess_bounds(q);
    let v = m * pow2(s);
    let off = y * den - num;
    if s >= e {
        // A multiple of the step: no multiple is nearer.
        let w = m * pow2((s - e) as nat);
        lemma_pow2_adds((s - e) as nat, e);
        assert(v == w * step) by (nonlinear_arith)
            requires
                v == m * pow2(s),
                pow2(s) == pow2((s - e) as nat) * step,
                w == m * pow2((s - e) as nat),
        ;
        assert(v * den == w * unit) by (nonlinear_arith)
            requires
                v == w * step,
                unit == den * step,
        ;
        lemma_multiples(num, unit, h, w);
    } else {
        // Below the numbers with this step, the least of which is a multiple of it.
        lemma_pow2_strictly_increases(s, e);
        lemma_pow2_adds(1, (e - 1) as nat);
        lemma2_to64();
        if s < e - 1 {
            lemma_pow2_strictly_increases(s, (e - 1) as nat);
        }
        assert(2 * pow2(s) <= step);
        let least = 0x10_0000_0000_0000 * unit;
        assert(v * den <= least) by (nonlinear_arith)
            requires
                v == m * pow2(s),
                m < 0x20_0000_0000_0000,
                2 * pow2(s) <= step,
                unit == den * step,
                least == 0x10_0000_0000_0000 * unit,
                den > 0,
        ;
        assert(num >= least) by (nonlinear_arith)
            requires
                num >= den * q,
                q >= 0x10_0000_0000_0000 * step,
                unit == den * step,
                least == 0x10_0000_0000_0000 * unit,
                den > 0,
        ;
        lemma_multiples(num, unit, h, 0x10_0000_0000_0000);
    }
}

/// Of the multiples of a unit none is nearer than one that is within half a unit.
proof fn lemma_multiples(num: nat, unit: nat, h: nat, w: nat)
    requires
        unit > 0,
        2 * (h * unit) <= 2 * num + unit,
        2 * num <= 2 * (h * unit) + unit,
    ensures
        ({
            let off = h * unit - num;
            let other = w * unit - num;
            (if off >= 0 {
                off
            } else {
                -off
            }) <= (if other >= 0 {
                other
            } else {
                -other
            })
        }),
{
    if w > h {
        assert(w * unit >= h * unit + unit) by (nonlinear_arith)
            requires
                w >= h + 1,
                unit > 0,
        ;
    } else if w < h {
        assert(w * unit + unit <= h * unit) by (nonlinear_arith)
            requires
                w + 1 <= h,
                unit > 0,
        ;
    }
}

/// Of two numbers that are equally near, the one with the even significand is taken.
pub proof fn ties_go_to_the_even_one(num: nat, den: nat)
    requires
        den > 0,
    ensures
        ({
            let step = pow2(excess(num / den));
            let y = nearest(num, den);
            &&& y % step == 0
            &&& (y * den - num == num - (y - step) * den || num - y * den == (y + step) * den - num)
                ==> (y / step) % 2 == 0
        }),
{
    let step = pow2(excess(num / den));
    lemma_pow2_pos(excess(num / den));
    let unit = den * step;
    assert(unit > 0) by (nonlinear_arith)
        requires
            unit == den * step,
            den > 0,
            step > 0,
    ;
    let h = half_even(num, unit);
    let y = nearest(num, den);
    assert(y == h * step);
    lemma_mod_multiples_basic(h as int, step as int);
    lemma_div_multiples_vanish(h as int, step as int);
    assert(step * h == y) by (nonlinear_arith)
        requires
            y == h * step,
    ;
    assert(y * den == h * unit) by (nonlinear_arith)
        requires
            y == h * step,
            unit == den * step,
    ;
    assert((y - step) * den == y * den - unit) by (nonlinear_arith)
        requires
            unit == den * step,
    ;
    assert((y + step) * den == y * den + unit) by (nonlinear_arith)
        requires
            unit == den * step,
    ;
    lemma_fundamental_div_mod(num as int, unit as int);
    lemma_mod_bound(num as int, unit as int);
    let k = num / unit;
    let r = num % unit;
    assert(k * unit == unit * k) by (nonlinear_arith);
    assert((k + 1) * unit == unit * k + unit) by (nonlinear_arith);
}

/// The integer part of a number is the whole number that it is at least, and less than one above;
/// no more than `u64::MAX`.
pub proof fn the_integer_part(x: nat)
    ensures
        f_trunc(x) * one() <= x,
        f_trunc(x) < 0xffff_ffff_ffff_ffff ==> x < (f_trunc(x) + 1) * one(),
{
    lemma_pow2_pos(1074);
    lemma_fundamental_div_mod(x as int, one() as int);
    lemma_mod_bound(x as int, one() as int);
    let q = x / one();
    let r = f_trunc(x);
    assert(r * one() <= q * one()) by (nonlinear_arith)
        requires
            r <= q,
    ;
    assert(q * one() == one() * q) by (nonlinear_arith);
    assert((q + 1) * one() == one() * q + one()) by (nonlinear_arith);
}

// Numbers that stand for fractions

/// Whether a number is `a / b` to within `n` parts in 2^53.
pub open spec fn close(x: nat, a: nat, b: nat, n: nat) -> bool {
    &&& fine() * (x * b) <= (fine() + n) * (a * one())
    &&& fine() * (x * b) + n * (a * one()) >= fine() * (a * one())
}

proof fn lemma_one_is_large()
    ensures
        one() >= 0x1_0000_0000_0000_0000,
{
    lemma2_to64();
    lemma_pow2_strictly_increases(64, 1074);
}

/// Integers, and quotients of them, are close.
pub proof fn ratios_are_close(n: nat, d: nat)
    requires
        0 < d < 2048,
    ensures
        close(f_ratio(n, d), n, d, 1),
{
    lemma_one_is_large();
    let num = n * one();
    assert(num == 0 || num >= 0x10_0000_0000_0000 * d) by (nonlinear_arith)
        requires
            num == n * one(),
            one() >= 0x1_0000_0000_0000_0000,
            d < 2048,
    ;
    nearest_is_close(num, d);
}

pub proof fn ints_are_close(n: nat)
    ensures
        close(f_int(n), n, 1, 1),
{
    ratios_are_close(n, 1);
}

/// What is close is so with more room.
pub proof fn close_with_room(x: nat, a: nat, b: nat, n: nat, m: nat)
    requires
        close(x, a, b, n),
        n <= m,
    ensures
        close(x, a, b, m),
{
    let t = a * one();
    assert((fine() + n) * t <= (fine() + m) * t) by (nonlinear_arith)
        requires
            n <= m,
    ;
    assert(n * t <= m * t) by (nonlinear_arith)
        requires
            n <= m,
    ;
}

/// The room that a product of two close numbers takes, once it is rounded.
proof fn lemma_room(n: nat, m: nat)
    requires
        n <= 1000,
        m <= 1000,
    ensures
        (fine() + 1) * ((fine() + n) * (fine() + m)) <= fine() * fine() * (fine() + n + m + 2),
        (fine() - 1) * ((fine() - n) * (fine() - m)) >= fine() * fine() * (fine() - n - m - 2),
        fine() - n - m - 2 > 0,
{
    let f = fine() as int;
    let a = n as int;
    let b = m as int;
    assert(a * b <= 1_000_000 && a * b >= 0) by (nonlinear_arith)
        requires
            0 <= a <= 1000,
            0 <= b <= 1000,
    ;
    assert((f + a) * (f + b) == f * f + f * (a + b) + a * b) by (nonlinear_arith);
    assert((f - a) * (f - b) == f * f - f * (a + b) + a * b) by (nonlinear_arith);
    let p = (f + a) * (f + b);
    let q = (f - a) * (f - b);
    assert((f + 1) * p == f * p + p) by (nonlinear_arith);
    assert((f - 1) * q == f * q - q) by (nonlinear_arith);
    let s = a + b;
    let r = a * b;
    assert(f * p == f * f * f + f * f * s + f * r) by (nonlinear_arith)
        requires
            p == f * f + f * s + r,
    ;
    assert(f * q == f * f * f - f * f * s + f * r) by (nonlinear_arith)
        requires
            q == f * f - f * s + r,
    ;
    assert(f * f * (f + a + b + 2) == f * f * f + f * f * s + 2 * (f * f)) by (nonlinear_arith)
        requires
            s == a + b,
    ;
    assert(f * f * (f - a - b - 2) == f * f * f - f * f * s - 2 * (f * f)) by (nonlinear_arith)
        requires
            s == a + b,
    ;
}

/// Two fractions that are close to two others, multiplied.
proof fn lemma_product(x: nat, a: nat, n: nat, y: nat, c: nat, m: nat)
    requires
        n <= 1000,
        m <= 1000,
        fine() * x <= (fine() + n) * a,
        fine() * x + n * a >= fine() * a,
        fine() * y <= (fine() + m) * c,
        fine() * y + m * c >= fine() * c,
    ensures
        fine() * fine() * (x * y) <= ((fine() + n) * (fine() + m)) * (a * c),
        fine() * fine() * (x * y) >= ((fine() - n) * (fine() - m)) * (a * c),
{
    let f = fine() as int;
    let fx = f * x;
    let fy = f * y;
    let ua = (f + n) * a;
    let uc = (f + m) * c;
    let la = (f - n) * a;
    let lc = (f - m) * c;
    assert(la == f * a - n * a) by (nonlinear_arith)
        requires
            la == (f - n) * a,
    ;
    assert(lc == f * c - m * c) by (nonlinear_arith)
        requires
            lc == (f - m) * c,
    ;
    assert(la >= 0 && lc >= 0) by (nonlinear_arith)
        requires
            la == (f - n) * a,
            lc == (f - m) * c,
            f > n,
            f > m,
            a >= 0,
            c >= 0,
    ;
    assert(fx * fy <= ua * uc && la * lc <= fx * fy) by (nonlinear_arith)
        requires
            0 <= la <= fx <= ua,
            0 <= lc <= fy <= uc,
    ;
    assert(fx * fy == f * f * (x * y)) by (nonlinear_arith)
        requires
            fx == f * x,
            fy == f * y,
    ;
    assert(ua * uc == ((f + n) * (f + m)) * (a * c)) by (nonlinear_arith)
        requires
            ua == (f + n) * a,
            uc == (f + m) * c,
    ;
    assert(la * lc == ((f - n) * (f - m)) * (a * c)) by (nonlinear_arith)
        requires
            la == (f - n) * a,
            lc == (f - m) * c,
    ;
}

/// The rounded product of close numbers is close to the product.
pub proof fn products_are_close(x: nat, a: nat, b: nat, n: nat, y: nat, c: nat, d: nat, m: nat)
    requires
        close(x, a, b, n),
        close(y, c, d, m),
        b > 0,
        d > 0,
        n <= 1000,
        m <= 1000,
        x * y == 0 || x * y >= 0x10_0000_0000_0000 * one(),
    ensures
        close(f_mul(x, y), a * c, b * d, n + m + 2),
{
    lemma_pow2_pos(1074);
    let o = one();
    let f = fine();
    let z = f_mul(x, y);
    let p = x * y;
    nearest_is_close(p, o);
    lemma_product(x * b, a * o, n, y * d, c * o, m);
    lemma_room(n, m);
    let bd = b * d;
    let ac = a * c;
    let pp = p * bd;
    assert((x * b) * (y * d) == pp) by (nonlinear_arith)
        requires
            pp == p * bd,
            p == x * y,
            bd == b * d,
    ;
    let t = (ac * o) * o;
    assert((a * o) * (c * o) == t) by (nonlinear_arith)
        requires
            t == (ac * o) * o,
            ac == a * c,
    ;
    let zb = (z * bd) * o;
    assert(f * zb <= (f + 1) * pp && f * zb + pp >= f * pp) by (nonlinear_arith)
        requires
            zb == (z * bd) * o,
            pp == p * bd,
            f * (z * o) <= (f + 1) * p,
            f * (z * o) + p >= f * p,
    ;
    lemma_combine(zb, pp, t, n, m);
    let k = n + m + 2;
    let v = z * bd;
    let w = ac * o;
    assert(f * v <= (f + k) * w) by (nonlinear_arith)
        requires
            f * (v * o) <= (f + k) * (w * o),
            o > 0,
    ;
    assert(f * v + k * w >= f * w) by (nonlinear_arith)
        requires
            f * (v * o) + k * (w * o) >= f * (w * o),
            o > 0,
    ;
}

/// From a rounded value to the exact one it stands for.
proof fn lemma_combine(z: nat, p: nat, t: nat, n: nat, m: nat)
    requires
        n <= 1000,
        m <= 1000,
        fine() * z <= (fine() + 1) * p,
        fine() * z + p >= fine() * p,
        fine() * fine() * p <= ((fine() + n) * (fine() + m)) * t,
        fine() * fine() * p >= ((fine() - n) * (fine() - m)) * t,
    ensures
        fine() * z <= (fine() + n + m + 2) * t,
        fine() * z + (n + m + 2) * t >= fine() * t,
{
    lemma_room(n, m);
    let f = fine() as int;
    let ff = f * f;
    let up = (f + n) * (f + m);
    let low = (f - n) * (f - m);
    let k = n + m + 2;
    let fz = f * z;
    assert(ff * fz <= (f + 1) * (ff * p)) by (nonlinear_arith)
        requires
            fz <= (f + 1) * p,
            ff >= 0,
    ;
    assert((f + 1) * (ff * p) <= (f + 1) * (up * t)) by (nonlinear_arith)
        requires
            ff * p <= up * t,
            f >= 0,
    ;
    assert((f + 1) * (up * t) == ((f + 1) * up) * t) by (nonlinear_arith);
    assert(((f + 1) * up) * t <= (ff * (f + k)) * t) by (nonlinear_arith)
        requires
            (f + 1) * up <= ff * (f + k),
            t >= 0,
    ;
    assert((ff * (f + k)) * t == ff * ((f + k) * t)) by (nonlinear_arith);
    assert(fz <= (f + k) * t) by (nonlinear_arith)
        requires
            ff * fz <= ff * ((f + k) * t),
            ff > 0,
    ;
    assert(fz >= (f - 1) * p) by (nonlinear_arith)
        requires
            fz + p >= f * p,
    ;
    assert(ff * fz >= (f - 1) * (ff * p)) by (nonlinear_arith)
        requires
            fz >= (f - 1) * p,
            ff >= 0,
    ;
    assert((f - 1) * (ff * p) >= (f - 1) * (low * t)) by (nonlinear_arith)
        requires
            ff * p >= low * t,
            f >= 1,
    ;
    assert((f - 1) * (low * t) == ((f - 1) * low) * t) by (nonlinear_arith);
    assert(((f - 1) * low) * t >= (ff * (f - k)) * t) by (nonlinear_arith)
        requires
            (f - 1) * low >= ff * (f - k),
            t >= 0,
    ;
    assert((ff * (f - k)) * t == ff * ((f - k) * t)) by (nonlinear_arith);
    assert(fz >= (f - k) * t) by (nonlinear_arith)
        requires
            ff * fz >= ff * ((f - k) * t),
            ff > 0,
    ;
    assert((f - k) * t == f * t - k * t) by (nonlinear_arith);
}

/// The rounded sum of close numbers is close to the sum.
pub proof fn sums_are_close(x: nat, a: nat, b: nat, y: nat, c: nat, d: nat, n: nat)
    requires
        close(x, a, b, n),
        close(y, c, d, n),
        b > 0,
        d > 0,
        n <= 1000,
        x + y == 0 || x + y >= 0x10_0000_0000_0000,
    ensures
        close(f_add(x, y), a * d + c * b, b * d, n + 2),
{
    let o = one();
    let f = fine();
    let z = f_add(x, y);
    let p = x + y;
    nearest_is_close(p, 1);
    assert(z * 1 == z);
    let bd = b * d;
    let pp = p * bd;
    let t = (a * d + c * b) * o;
    let xb = x * b;
    let yd = y * d;
    let ao = a * o;
    let co = c * o;
    assert(pp == xb * d + yd * b) by (nonlinear_arith)
        requires
            pp == p * bd,
            p == x + y,
            bd == b * d,
            xb == x * b,
            yd == y * d,
    ;
    assert(t == ao * d + co * b) by (nonlinear_arith)
        requires
            t == (a * d + c * b) * o,
            ao == a * o,
            co == c * o,
    ;
    let g = f + n;
    assert(f * pp <= g * t) by {
        assert((f * xb) * d <= (g * ao) * d) by (nonlinear_arith)
            requires
                f * xb <= g * ao,
        ;
        assert((f * yd) * b <= (g * co) * b) by (nonlinear_arith)
            requires
                f * yd <= g * co,
        ;
        assert(f * pp == (f * xb) * d + (f * yd) * b) by (nonlinear_arith)
            requires
                pp == xb * d + yd * b,
        ;
        assert(g * t == (g * ao) * d + (g * co) * b) by (nonlinear_arith)
            requires
                t == ao * d + co * b,
        ;
    }
    assert(f * pp + n * t >= f * t) by {
        assert((f * xb + n * ao) * d >= (f * ao) * d) by (nonlinear_arith)
            requires
                f * xb + n * ao >= f * ao,
        ;
        assert((f * yd + n * co) * b >= (f * co) * b) by (nonlinear_arith)
            requires
                f * yd + n * co >= f * co,
        ;
        assert(f * pp == (f * xb) * d + (f * yd) * b) by (nonlinear_arith)
            requires
                pp == xb * d + yd * b,
        ;
        assert(n * t == (n * ao) * d + (n * co) * b) by (nonlinear_arith)
            requires
                t == ao * d + co * b,
        ;
        assert(f * t == (f * ao) * d + (f * co) * b) by (nonlinear_arith)
            requires
                t == ao * d + co * b,
        ;
        assert((f * xb + n * ao) * d == (f * xb) * d + (n * ao) * d) by (nonlinear_arith);
        assert((f * yd + n * co) * b == (f * yd) * b + (n * co) * b) by (nonlinear_arith);
    }
    let zb = z * bd;
    assert(f * zb <= (f + 1) * pp && f * zb + pp >= f * pp) by (nonlinear_arith)
        requires
            zb == z * bd,
            pp == p * bd,
            f * z <= (f + 1) * p,
            f * z + p >= f * p,
    ;
    // The other factor of a product is one here.
    assert(f * f * pp <= ((f + n) * (f + 0)) * t) by (nonlinear_arith)
        requires
            f * pp <= (f + n) * t,
            f >= 0,
    ;
    let fi = f as int;
    assert(fi * fi * pp >= ((fi - n) * (fi - 0)) * t) by (nonlinear_arith)
        requires
            fi * pp + n * t >= fi * t,
            fi >= 0,
    ;
    lemma_combine(zb, pp, t, n, 0);
}

/// The rounded difference of close numbers, where what is left is large enough.
pub proof fn differences_are_close(
    x: nat,
    a: nat,
    n: nat,
    y: nat,
    c: nat,
    m: nat,
    b: nat,
    k: nat,
)
    requires
        close(x, a, b, n),
        close(y, c, b, m),
        b > 0,
        x >= y,
        a >= c,
        k <= 1000,
        n * a + m * c <= k * (a - c),
        x - y >= 0x10_0000_0000_0000,
    ensures
        close(f_sub(x, y), (a - c) as nat, b, k + 2),
{
    let o = one();
    let f = fine() as int;
    let z = f_sub(x, y);
    let p = (x - y) as nat;
    nearest_is_close(p, 1);
    assert(z * 1 == z);
    let pp = p * b;
    let e = (a - c) as nat;
    let t = e * o;
    let ao = a * o;
    let co = c * o;
    assert(pp == x * b - y * b) by (nonlinear_arith)
        requires
            pp == p * b,
            p == x - y,
    ;
    assert(t == ao - co) by (nonlinear_arith)
        requires
            t == e * o,
            e == a - c,
            ao == a * o,
            co == c * o,
    ;
    assert(n * ao + m * co <= k * t) by (nonlinear_arith)
        requires
            n * a + m * c <= k * e,
            t == e * o,
            ao == a * o,
            co == c * o,
    ;
    assert(f * pp <= (f + k) * t && f * pp + k * t >= f * t) by (nonlinear_arith)
        requires
            pp == x * b - y * b,
            t == ao - co,
            f * (x * b) <= (f + n) * ao,
            f * (x * b) + n * ao >= f * ao,
            f * (y * b) <= (f + m) * co,
            f * (y * b) + m * co >= f * co,
            n * ao + m * co <= k * t,
    ;
    let zb = z * b;
    assert(f * zb <= (f + 1) * pp && f * zb + pp >= f * pp) by (nonlinear_arith)
        requires
            zb == z * b,
            pp == p * b,
            f * z <= (f + 1) * p,
            f * z + p >= f * p,
    ;
    assert(f * f * pp <= ((f + k) * (f + 0)) * t) by (nonlinear_arith)
        requires
            f * pp <= (f + k) * t,
            f >= 0,
    ;
    assert(f * f * pp >= ((f - k) * (f - 0)) * t) by (nonlinear_arith)
        requires
            f * pp + k * t >= f * t,
            f >= 0,
    ;
    lemma_combine(zb, pp, t, k, 0);
}

/// The rounded quotient of two rounded integers is close to the quotient.
pub proof fn quotients_are_close(a: nat, c: nat)
    requires
        0 < c <= 0xffff_ffff_ffff_ffff,
    ensures
        close(f_div(f_int(a), f_int(c)), a, c, 5),
{
    let o = one();
    let f = fine() as int;
    let x = f_int(a);
    let y = f_int(c);
    lemma_one_is_large();
    ints_are_close(a);
    ints_are_close(c);
    assert(x * 1 == x && y * 1 == y);
    let ao = a * o;
    let co = c * o;
    assert(co >= o) by (nonlinear_arith)
        requires
            co == c * o,
            c >= 1,
    ;
    assert(y > 0) by (nonlinear_arith)
        requires
            f * y + co >= f * co,
            f > 1,
            co > 0,
    ;
    let num = x * o;
    assert(num == 0 || num >= 0x10_0000_0000_0000 * y) by {
        if a == 0 {
            assert(ao == 0) by (nonlinear_arith)
                requires
                    ao == a * o,
                    a == 0,
            ;
            assert(x == 0) by (nonlinear_arith)
                requires
                    f * x <= (f + 1) * ao,
                    ao == 0,
                    f > 0,
            ;
            assert(0 * o == 0);
        } else {
            assert(ao >= o) by (nonlinear_arith)
                requires
                    ao == a * o,
                    a >= 1,
            ;
            assert(2 * x >= o) by (nonlinear_arith)
                requires
                    f * x + ao >= f * ao,
                    ao >= o,
                    f > 2,
            ;
            assert(y <= 2 * co) by (nonlinear_arith)
                requires
                    f * y <= (f + 1) * co,
                    f > 1,
                    co >= 0,
            ;
            lemma_large_enough(x, y, c);
        }
    }
    nearest_is_close(num, y);
    let z = f_div(x, y);
    // Held against the exact quotient: what is divided by may be off the other way.
    let zy = z * y;
    let u = z * c;
    assert(f * zy <= (f + 1) * num && f * zy + num >= f * num);
    assert(f * y <= (f + 1) * co && f * y + co >= f * co);
    assert(f * x <= (f + 1) * ao && f * x + ao >= f * ao);
    lemma_quotient(z, y, c, x, a, o);
}

proof fn lemma_large_enough(x: nat, y: nat, c: nat)
    requires
        2 * x >= one(),
        y <= 2 * (c * one()),
        c <= 0xffff_ffff_ffff_ffff,
    ensures
        x * one() >= 0x10_0000_0000_0000 * y,
{
    let o = one();
    lemma2_to64();
    lemma_pow2_adds(64, 64);
    lemma_pow2_adds(128, 946);
    lemma_pow2_pos(946);
    assert(o >= 0x1_0000_0000_0000_0000 * 0x1_0000_0000_0000_0000) by (nonlinear_arith)
        requires
            o == (0x1_0000_0000_0000_0000 * 0x1_0000_0000_0000_0000) * pow2(946),
            pow2(946) >= 1,
    ;
    let co = c * o;
    assert(co <= 0x1_0000_0000_0000_0000 * o) by (nonlinear_arith)
        requires
            co == c * o,
            c <= 0x1_0000_0000_0000_0000,
    ;
    assert(2 * (x * o) >= o * o) by (nonlinear_arith)
        requires
            2 * x >= o,
    ;
    assert(o * o >= (0x1_0000_0000_0000_0000 * 0x1_0000_0000_0000_0000) * o) by (nonlinear_arith)
        requires
            o >= 0x1_0000_0000_0000_0000 * 0x1_0000_0000_0000_0000,
    ;
}

proof fn lemma_quotient(z: nat, y: nat, c: nat, x: nat, a: nat, o: nat)
    requires
        o == one(),
        o > 0,
        c > 0,
        y > 0,
        fine() * (z * y) <= (fine() + 1) * (x * o),
        fine() * (z * y) + x * o >= fine() * (x * o),
        fine() * y <= (fine() + 1) * (c * o),
        fine() * y + c * o >= fine() * (c * o),
        fine() * x <= (fine() + 1) * (a * o),
        fine() * x + a * o >= fine() * (a * o),
    ensures
        close(z, a, c, 5),
{
    let f = fine() as int;
    let w = z * c;
    let t = a * o;
    let xo = x * o;
    let zy = z * y;
    // z * c * o lies between z * y times what y may be off.
    assert(f * zy <= (f + 1) * (w * o) && f * zy >= (f - 1) * (w * o)) by (nonlinear_arith)
        requires
            zy == z * y,
            w == z * c,
            f * y <= (f + 1) * (c * o),
            f * y + c * o >= f * (c * o),
    ;
    assert(f * xo <= (f + 1) * (t * o) && f * xo >= (f - 1) * (t * o)) by (nonlinear_arith)
        requires
            xo == x * o,
            f * x <= (f + 1) * t,
            f * x + t >= f * t,
    ;
    let wo = w * o;
    let to = t * o;
    assert(f * zy <= (f + 1) * xo && f * zy >= (f - 1) * xo) by (nonlinear_arith)
        requires
            f * zy <= (f + 1) * xo,
            f * zy + xo >= f * xo,
    ;
    // (f - 1) w o <= f z y <= (f + 1) x o, and f x o <= (f + 1) t o.
    assert(f * ((f - 1) * wo) <= (f + 1) * ((f + 1) * to)) by (nonlinear_arith)
        requires
            (f - 1) * wo <= f * zy,
            f * zy <= (f + 1) * xo,
            f * xo <= (f + 1) * to,
            f > 1,
    ;
    assert(f * wo <= (f + 5) * to) by (nonlinear_arith)
        requires
            f * ((f - 1) * wo) <= (f + 1) * ((f + 1) * to),
            f == 0x20_0000_0000_0000,
            to >= 0,
            wo >= 0,
    ;
    assert(f * ((f + 1) * wo) >= (f - 1) * ((f - 1) * to)) by (nonlinear_arith)
        requires
            (f + 1) * wo >= f * zy,
            f * zy >= (f - 1) * xo,
            f * xo >= (f - 1) * to,
            f > 1,
    ;
    assert(f * wo + 5 * to >= f * to) by (nonlinear_arith)
        requires
            f * ((f + 1) * wo) >= (f - 1) * ((f - 1) * to),
            f == 0x20_0000_0000_0000,
            to >= 0,
            wo >= 0,
    ;
    assert(f * w <= (f + 5) * t && f * w + 5 * t >= f * t) by (nonlinear_arith)
        requires
            f * (w * o) <= (f + 5) * (t * o),
            f * (w * o) + 5 * (t * o) >= f * (t * o),
            o > 0,
    ;
}

/// The integer part of a number that is close to a fraction.
pub proof fn integer_parts_are_close(x: nat, a: nat, b: nat, n: nat)
    requires
        close(x, a, b, n),
        b > 0,
    ensures
        fine() * (f_trunc(x) * b) <= (fine() + n) * a,
        f_trunc(x) < 0xffff_ffff_ffff_ffff && a > 0 ==> fine() * ((f_trunc(x) + 1) * b) + n * a
            > fine() * a,
{
    lemma_pow2_pos(1074);
    the_integer_part(x);
    let o = one();
    let f = fine();
    let r = f_trunc(x);
    let rb = r * b;
    let xb = x * b;
    assert(rb * o <= xb) by (nonlinear_arith)
        requires
            rb == r * b,
            xb == x * b,
            r * o <= x,
    ;
    assert(f * rb <= (f + n) * a) by (nonlinear_arith)
        requires
            rb * o <= xb,
            f * xb <= (f + n) * (a * o),
            o > 0,
    ;
    if r < 0xffff_ffff_ffff_ffff {
        let sb = (r + 1) * b;
        assert(xb < sb * o) by (nonlinear_arith)
            requires
                sb == (r + 1) * b,
                xb == x * b,
                x < (r + 1) * o,
                b > 0,
        ;
        assert(f * sb + n * a > f * a) by (nonlinear_arith)
            requires
                xb < sb * o,
                f * xb + n * (a * o) >= f * (a * o),
                o > 0,
                f > 0,
        ;
    }
}

} // verus!
