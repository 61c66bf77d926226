//! What the bounds of a move come to as fractions of the clock and the increment: the rounding of
//! the arithmetic changes them by no more than a few parts in 2^53.
use crate::accuracy::{
    close, close_with_room, differences_are_close, fine, integer_parts_are_close, ints_are_close,
    products_are_close, quotients_are_close, ratios_are_close, sums_are_close,
};
use crate::binary64::{f_add, f_int, f_mul, f_ratio, f_trunc, one};
use crate::rounding::{
    f_int_exact, f_int_monotone, f_mul_exact, f_mul_monotone, f_ratio_exact, f_ratio_monotone,
    f_trunc_int, f_trunc_monotone, nearest_exact, nearest_monotone,
};
use crate::time::{
    bounds, clock_left, cyclic_hard, fischer_hard, fischer_soft, hard_cap, larger,
    lemma_late_discount, move_factor, quarter, share, smaller, soft_cap, Limits,
};
use vstd::arithmetic::power2::{
    lemma2_to64, lemma2_to64_rest, lemma_pow2_adds, lemma_pow2_pos,
    lemma_pow2_strictly_increases, lemma_pow2_unfold, pow2,
};
use vstd::prelude::*;

verus! {

/// Whether a whole number is at most a fraction, up to forty parts in 2^53.
pub open spec fn at_most(r: int, a: int, b: int) -> bool {
    0x20_0000_0000_0000 * (r * b) <= (0x20_0000_0000_0000 + 40) * a
}

/// Whether a whole number and one more exceed a fraction, up to forty parts in 2^53.
pub open spec fn at_least(r: int, a: int, b: int) -> bool {
    0x20_0000_0000_0000 * ((r + 1) * b) > (0x20_0000_0000_0000 - 40) * a
}

/// The weight of a move by its number, in thousandths: 1200 up to the tenth move, 1000 up to the
/// fortieth, and from there on 850 less 5 for each move, of which 20 count.
pub open spec fn weight(fullmove_number: int) -> int {
    if fullmove_number <= 10 {
        1200
    } else if fullmove_number <= 40 {
        1000
    } else if fullmove_number <= 60 {
        850 - 5 * (fullmove_number - 40)
    } else {
        750
    }
}

/// Whether a number is zero or not too small.
spec fn sizable(x: nat, e: nat) -> bool {
    x == 0 || x >= pow2(e)
}

proof fn lemma_sizable_int(n: nat)
    ensures
        sizable(f_int(n), 1074),
        n > 0 ==> f_int(n) >= one(),
{
    if n > 0 {
        f_int_monotone(1, n);
        f_int_exact(1);
    } else {
        f_int_exact(0);
        assert(0 * one() == 0);
    }
}

/// A fraction that is at least a power of two is rounded to no less.
proof fn lemma_sizable_ratio(n: nat, d: nat, k: nat)
    requires
        k <= 6,
        d > 0,
        d <= n * pow2(k),
    ensures
        f_ratio(n, d) >= pow2((1074 - k) as nat),
{
    lemma_pow2_pos(k);
    assert(1 * d <= n * pow2(k));
    f_ratio_monotone(1, pow2(k), n, d);
    f_ratio_exact(1, k, pow2(k));
}

/// A product of sizable numbers is sizable, and large enough for its rounding to be close.
proof fn lemma_sizable_product(x: nat, e: nat, y: nat, g: nat)
    requires
        sizable(x, e),
        sizable(y, g),
        e + g >= 1200,
    ensures
        x * y == 0 || x * y >= 0x10_0000_0000_0000 * one(),
        sizable(f_mul(x, y), (e + g - 1074) as nat),
{
    if x == 0 || y == 0 {
        assert(x * y == 0) by (nonlinear_arith)
            requires
                x == 0 || y == 0,
        ;
        lemma_zero_factor(x);
        lemma_zero_factor(y);
    } else {
        lemma_pow2_adds(e, g);
        lemma2_to64();
        lemma2_to64_rest();
        lemma_pow2_adds(52, 1074);
        lemma_pow2_strictly_increases(1126, e + g);
        assert(x * y >= pow2(e) * pow2(g)) by (nonlinear_arith)
            requires
                x >= pow2(e),
                y >= pow2(g),
        ;
        f_mul_monotone(1 * pow2(e), pow2(g), x, y);
        f_mul_exact(1, e, g);
    }
}

proof fn lemma_mul_zero()
    ensures
        f_mul(0, 0) == 0,
{
    lemma_pow2_pos(1074);
    nearest_exact(0, 0, one());
    assert(0 * pow2(0) == 0);
    assert(0 * one() == 0);
}

proof fn lemma_zero_factor(y: nat)
    ensures
        f_mul(0, y) == 0,
        f_mul(y, 0) == 0,
{
    lemma_mul_zero();
    assert(0 * y == 0 && y * 0 == 0);
}

/// A larger numerator and denominator make the same fraction.
proof fn lemma_scaled_fraction(x: nat, a: nat, b: nat, n: nat, k: nat)
    requires
        close(x, a, b, n),
    ensures
        close(x, a * k, b * k, n),
{
    let f = fine();
    let o = one();
    let u = f * (x * b);
    let v = (f + n) * (a * o);
    let w = n * (a * o);
    let t = f * (a * o);
    assert(u * k <= v * k && u * k + w * k >= t * k) by (nonlinear_arith)
        requires
            u <= v,
            u + w >= t,
    ;
    assert(f * (x * (b * k)) == u * k) by (nonlinear_arith)
        requires
            u == f * (x * b),
    ;
    assert((f + n) * ((a * k) * o) == v * k) by (nonlinear_arith)
        requires
            v == (f + n) * (a * o),
    ;
    assert(n * ((a * k) * o) == w * k) by (nonlinear_arith)
        requires
            w == n * (a * o),
    ;
    assert(f * ((a * k) * o) == t * k) by (nonlinear_arith)
        requires
            t == f * (a * o),
    ;
}

proof fn lemma_factor(fullmove_number: nat)
    ensures
        close(move_factor(fullmove_number), weight(fullmove_number as int) as nat, 1000, 4),
        move_factor(fullmove_number) >= pow2(1072),
{
    lemma2_to64();
    if fullmove_number <= 10 {
        ratios_are_close(12, 10);
        lemma_scaled_fraction(f_ratio(12, 10), 12, 10, 1, 100);
        close_with_room(f_ratio(12, 10), 1200, 1000, 1, 4);
        lemma_sizable_ratio(12, 10, 2);
    } else if fullmove_number <= 40 {
        ints_are_close(1);
        lemma_scaled_fraction(f_int(1), 1, 1, 1, 1000);
        close_with_room(f_int(1), 1000, 1000, 1, 4);
        f_int_exact(1);
        lemma_pow2_strictly_increases(1072, 1074);
    } else {
        let late = if fullmove_number <= 60 {
            (fullmove_number - 40) as nat
        } else {
            20
        };
        let x = f_ratio(85, 100);
        let p = f_ratio(5, 1000);
        let y = f_mul(p, f_int(late));
        lemma_late_discount(late);
        ratios_are_close(85, 100);
        lemma_scaled_fraction(x, 85, 100, 1, 10);
        ratios_are_close(5, 1000);
        ints_are_close(late);
        lemma_sizable_int(late);
        assert(p >= pow2(1066)) by {
            f_ratio_monotone(1, 256, 5, 1000);
            f_ratio_exact(1, 8, 256);
        }
        lemma_sizable_product(p, 1066, f_int(late), 1074);
        products_are_close(p, 5, 1000, 1, f_int(late), late, 1, 1);
        assert(x - y >= pow2(1072));
        lemma_one_step();
        differences_are_close(x, 850, 1, y, 5 * late, 4, 1000, 2);
        nearest_monotone(pow2(1072), 1, (x - y) as nat, 1);
        nearest_exact(1, 1072, 1);
        assert(1 * pow2(1072) * 1 == pow2(1072));
    }
}

proof fn lemma_one_step()
    ensures
        pow2(1072) >= 0x10_0000_0000_0000,
        pow2(900) >= 0x10_0000_0000_0000,
{
    lemma2_to64();
    lemma2_to64_rest();
    lemma_pow2_strictly_increases(52, 1072);
    lemma_pow2_strictly_increases(52, 900);
}

/// A part of an integer.
proof fn lemma_part(n: nat, a: nat, b: nat)
    requires
        0 < b < 2048,
        b <= 32 * a,
    ensures
        close(f_mul(f_int(n), f_ratio(a, b)), n * a, b, 4),
        sizable(f_mul(f_int(n), f_ratio(a, b)), 1069),
{
    lemma2_to64();
    ints_are_close(n);
    ratios_are_close(a, b);
    lemma_sizable_int(n);
    lemma_sizable_ratio(a, b, 5);
    lemma_sizable_product(f_int(n), 1074, f_ratio(a, b), 1069);
    products_are_close(f_int(n), n, 1, 1, f_ratio(a, b), a, b, 1);
    assert(1 * b == b);
}

/// A sum of two sizable parts.
proof fn lemma_total(x: nat, a: nat, b: nat, y: nat, c: nat, d: nat, n: nat)
    requires
        close(x, a, b, n),
        close(y, c, d, n),
        b > 0,
        d > 0,
        n <= 38,
        sizable(x, 900),
        sizable(y, 900),
    ensures
        close(f_add(x, y), a * d + c * b, b * d, n + 2),
{
    lemma_one_step();
    sums_are_close(x, a, b, y, c, d, n);
}

/// The integer part of what is close to a fraction.
proof fn lemma_whole(x: nat, a: nat, b: nat, n: nat)
    requires
        close(x, a, b, n),
        b > 0,
        n <= 40,
    ensures
        at_most(f_trunc(x) as int, a as int, b as int),
        f_trunc(x) == 0xffff_ffff_ffff_ffff || at_least(f_trunc(x) as int, a as int, b as int),
{
    integer_parts_are_close(x, a, b, n);
    let f = fine() as int;
    assert((f + n) * a <= (f + 40) * a && (f - n) * a >= (f - 40) * a) by (nonlinear_arith)
        requires
            n <= 40,
            a >= 0,
    ;
    assert((f - n) * a == f * a - n * a) by (nonlinear_arith);
    if a == 0 {
        let r = f_trunc(x) as int;
        assert((r + 1) * b > 0) by (nonlinear_arith)
            requires
                r >= 0,
                b > 0,
        ;
        assert((f - 40) * a == 0) by (nonlinear_arith)
            requires
                a == 0,
        ;
    }
}

/// The quarter of a clock.
proof fn lemma_quarter(left: u64)
    ensures
        at_most(f_trunc(quarter(left)) as int, left as int, 4),
        at_least(f_trunc(quarter(left)) as int, left as int, 4),
        f_trunc(quarter(left)) < 0xffff_ffff_ffff_ffff,
{
    lemma_part(left as nat, 25, 100);
    let q = f_trunc(quarter(left));
    let l = left as int;
    let f = fine() as int;
    integer_parts_are_close(quarter(left), left as nat * 25, 100, 4);
    assert(q < 0xffff_ffff_ffff_ffff) by (nonlinear_arith)
        requires
            f * (q * 100) <= (f + 4) * (l * 25),
            f == 0x20_0000_0000_0000,
            0 <= l <= 0xffff_ffff_ffff_ffff,
    ;
    lemma_whole(quarter(left), left as nat * 25, 100, 4);
    let r = q as int;
    assert(at_most(r, l * 25, 100) && at_least(r, l * 25, 100));
    assert(0x20_0000_0000_0000 * (r * 4) <= (0x20_0000_0000_0000 + 40) * l) by (nonlinear_arith)
        requires
            0x20_0000_0000_0000 * (r * 100) <= (0x20_0000_0000_0000 + 40) * (l * 25),
    ;
    assert(0x20_0000_0000_0000 * ((r + 1) * 4) > (0x20_0000_0000_0000 - 40) * l)
        by (nonlinear_arith)
        requires
            0x20_0000_0000_0000 * ((r + 1) * 100) > (0x20_0000_0000_0000 - 40) * (l * 25),
    ;
}

/// Whether the soft bound is what a fraction `a / b` comes to: at most that, or the minimum
/// thinking time of 50 ms; at most a quarter of the clock less a tenth of a second, or the minimum;
/// at most the clock; and no less than the least of these.
pub open spec fn soft_is(soft: int, left: int, a: int, b: int) -> bool {
    &&& soft <= left
    &&& soft <= 50 || (at_most(soft, a, b) && at_most(soft + 100, left, 4))
    &&& soft == left || (soft >= 50 && (at_least(soft, a, b) || at_least(soft + 100, left, 4)))
}

/// Whether the hard bound is what a fraction `a / b` comes to, up to `gap`: at most that, or `floor`,
/// or a tenth of a second past the soft bound; at most a quarter of the clock, or the minimum
/// thinking time; at most the clock; and no less than the least of these.
pub open spec fn hard_is(
    hard: int,
    soft: int,
    left: int,
    a: int,
    b: int,
    gap: int,
    floor: int,
) -> bool {
    &&& hard <= left
    &&& hard <= 50 || at_most(hard, left, 4)
    &&& hard <= soft + 100 || hard <= floor || at_most(hard, a, b)
    &&& hard == left || (hard >= 50 && at_least(hard, left, 4)) || (hard >= soft + 100 && at_least(
        hard + gap,
        a,
        b,
    ))
}

/// The soft bound, from what is asked for.
proof fn lemma_soft(wanted: nat, soft: u64, left: u64, a: nat, b: nat, n: nat)
    requires
        close(wanted, a, b, n),
        b > 0,
        n <= 40,
        soft == smaller(
            smaller(
                f_trunc(larger(wanted, f_int(50))) as nat,
                soft_cap(left) as nat,
            ),
            left as nat,
        ),
    ensures
        soft_is(soft as int, left as int, a as int, b as int),
{
    lemma_whole(wanted, a, b, n);
    lemma_quarter(left);
    f_int_exact(50);
    f_trunc_int(50);
    if wanted >= f_int(50) {
        f_trunc_monotone(f_int(50), wanted);
    } else {
        f_trunc_monotone(wanted, f_int(50));
    }
    let w = f_trunc(wanted) as int;
    let s = soft as int;
    let q = f_trunc(quarter(left)) as int;
    let bi = b as int;
    let ai = a as int;
    // The minimum is at least what is wanted where it takes its place.
    if s >= w {
        lemma_at_least_monotone(w, s, ai, bi);
    }
    if s <= w {
        lemma_at_most_monotone(s, w, ai, bi);
    }
    if s + 100 >= q {
        lemma_at_least_monotone(q, s + 100, left as int, 4);
    }
    if s + 100 <= q {
        lemma_at_most_monotone(s + 100, q, left as int, 4);
    }
}

proof fn lemma_at_least_monotone(r: int, s: int, a: int, b: int)
    requires
        at_least(r, a, b),
        r <= s,
        b > 0,
    ensures
        at_least(s, a, b),
{
    assert((r + 1) * b <= (s + 1) * b) by (nonlinear_arith)
        requires
            r <= s,
            b > 0,
    ;
}

proof fn lemma_at_most_monotone(r: int, s: int, a: int, b: int)
    requires
        at_most(s, a, b),
        r <= s,
        b > 0,
    ensures
        at_most(r, a, b),
{
    assert(r * b <= s * b) by (nonlinear_arith)
        requires
            r <= s,
            b > 0,
    ;
}

/// The hard bound, from what is asked for.
proof fn lemma_hard(
    wanted: u64,
    hard_bound: u64,
    hard: u64,
    soft: u64,
    left: u64,
    a: int,
    b: int,
    gap: int,
    floor: int,
)
    requires
        wanted <= floor || at_most(wanted as int, a, b),
        wanted == 0xffff_ffff_ffff_ffff || at_least(wanted + gap, a, b),
        b > 0,
        gap >= 0,
        hard_bound == smaller(wanted as nat, f_trunc(quarter(left)) as nat),
        hard == smaller(
            smaller(larger(hard_bound as nat, (soft + 100) as nat), hard_cap(left) as nat),
            left as nat,
        ),
        soft <= left,
    ensures
        hard_is(hard as int, soft as int, left as int, a, b, gap, floor),
{
    lemma_quarter(left);
    let h = hard as int;
    let w = wanted as int;
    let q = f_trunc(quarter(left)) as int;
    if h <= w && !(wanted <= floor) {
        lemma_at_most_monotone(h, w, a, b);
    }
    if h >= w {
        if wanted < 0xffff_ffff_ffff_ffff {
            lemma_at_least_monotone(w + gap, h + gap, a, b);
        }
    }
    if h >= q {
        lemma_at_least_monotone(q, h, left as int, 4);
    }
    if h <= q {
        lemma_at_most_monotone(h, q, left as int, 4);
    }
}

/// In a game with increment the soft bound is 3.5% of the clock, by the weight of the move, and
/// 60% of the increment, and the hard bound four times that, each within its limits.
pub proof fn fischer_bounds_are_accurate(
    main: u64,
    inc: u64,
    fullmove_number: usize,
    move_overhead: u64,
)
    ensures
        ({
            let left = if main >= move_overhead {
                main - move_overhead
            } else {
                0
            };
            let (soft, hard) = bounds(Limits::Fischer(main, inc), fullmove_number, move_overhead);
            let a = 350 * weight(fullmove_number as int) * left + 6_000_000 * inc;
            &&& soft_is(soft as int, left, a, 10_000_000)
            &&& hard_is(hard as int, soft as int, left, 4 * a, 10_000_000, 4, 200)
        }),
{
    let left = clock_left(main, move_overhead);
    let n = left as nat;
    let w = weight(fullmove_number as int) as nat;
    let factor = move_factor(fullmove_number as nat);
    let part = f_mul(f_int(n), f_ratio(35, 1000));
    lemma_part(n, 35, 1000);
    lemma_factor(fullmove_number as nat);
    lemma_sizable_product(part, 1069, factor, 1072);
    products_are_close(part, n * 35, 1000, 4, factor, w, 1000, 4);
    let base = f_mul(part, factor);
    let bonus = f_mul(f_int(inc as nat), f_ratio(6, 10));
    lemma_part(inc as nat, 6, 10);
    close_with_room(bonus, inc as nat * 6, 10, 4, 10);
    lemma_pow2_strictly_increases(900, 1067);
    lemma_pow2_strictly_increases(900, 1069);
    let ab = (n * 35) * w;
    lemma_total(base, ab, 1_000_000, bonus, inc as nat * 6, 10, 10);
    let all = f_add(base, bonus);
    let a = ab * 10 + (inc as nat * 6) * 1_000_000;
    assert(a == 350 * w * n + 6_000_000 * inc) by (nonlinear_arith)
        requires
            a == ab * 10 + (inc as nat * 6) * 1_000_000,
            ab == (n * 35) * w,
    ;
    let (soft, hard) = bounds(Limits::Fischer(main, inc), fullmove_number, move_overhead);
    lemma_soft(all, soft, left, a, 10_000_000, 12);
    let fs = fischer_soft(left, inc, fullmove_number as nat);
    lemma_four_times(fs, all, a);
    let four = f_mul(f_int(fs as nat), f_int(4));
    lemma_trunc_smaller(four, quarter(left));
    lemma_hard(
        f_trunc(four),
        fischer_hard(left, fs),
        hard,
        soft,
        left,
        4 * a as int,
        10_000_000,
        4,
        200,
    );
}

proof fn lemma_trunc_smaller(x: nat, y: nat)
    ensures
        f_trunc(smaller(x, y)) == smaller(f_trunc(x) as nat, f_trunc(y) as nat),
{
    if x >= y {
        f_trunc_monotone(y, x);
    } else {
        f_trunc_monotone(x, y);
    }
}

/// Four times a soft bound.
proof fn lemma_four_times(fs: u64, all: nat, a: nat)
    requires
        close(all, a, 10_000_000, 12),
        fs == f_trunc(larger(all, f_int(50))),
    ensures
        ({
            let h = f_trunc(f_mul(f_int(fs as nat), f_int(4)));
            &&& h <= 200 || at_most(h as int, 4 * (a as int), 10_000_000)
            &&& h == 0xffff_ffff_ffff_ffff || at_least(h + 4, 4 * (a as int), 10_000_000)
        }),
{
    let n = fs as nat;
    let x = f_mul(f_int(n), f_int(4));
    let h = f_trunc(x) as int;
    let f = fine() as int;
    ints_are_close(n);
    ints_are_close(4);
    lemma_sizable_int(n);
    lemma_sizable_int(4);
    lemma_sizable_product(f_int(n), 1074, f_int(4), 1074);
    products_are_close(f_int(n), n, 1, 1, f_int(4), 4, 1, 1);
    integer_parts_are_close(x, n * 4, 1, 4);
    integer_parts_are_close(all, a, 10_000_000, 12);
    f_int_exact(50);
    f_trunc_int(50);
    let w = f_trunc(all) as int;
    if all >= f_int(50) {
        f_trunc_monotone(f_int(50), all);
    } else {
        f_trunc_monotone(all, f_int(50));
    }
    assert(n >= 50 && n >= w && (n == 50 || n == w));
    if n == 50 {
        // 200 is a number that needs no rounding.
        f_int_exact(4);
        lemma2_to64();
        lemma_pow2_adds(2, 1074);
        f_mul_exact(50, 1074, 1076);
        let o = one();
        assert(pow2(1076) == 4 * o);
        assert(x == 50 * pow2(1076));
        assert(x == 200 * o) by (nonlinear_arith)
            requires
                x == 50 * pow2(1076),
                pow2(1076) == 4 * o,
        ;
        f_trunc_int(200);
        assert(h == 200);
    } else {
        let d: int = 10_000_000;
        let ai = a as int;
        let ni = n as int;
        assert(at_most(h, 4 * ai, d)) by {
            assert(f * (h * 1) <= (f + 4) * (ni * 4));
            assert(f * (ni * d) <= (f + 12) * ai);
            assert(f * (h * d) <= (f + 40) * (4 * ai)) by (nonlinear_arith)
                requires
                    f * (h * 1) <= (f + 4) * (ni * 4),
                    f * (ni * d) <= (f + 12) * ai,
                    f == 0x20_0000_0000_0000,
                    d == 10_000_000,
                    ai >= 0,
                    h >= 0,
                    ni >= 0,
            ;
        }
    }
    if h < 0xffff_ffff_ffff_ffff {
        let d: int = 10_000_000;
        let ai = a as int;
        let ni = n as int;
        assert(ni < 0xffff_ffff_ffff_ffff) by {
            assert(f * ((h + 1) * 1) + 4 * (ni * 4) > f * (ni * 4));
        }
        assert(f * ((ni + 1) * d) + 12 * ai >= f * ai) by {
            if ai > 0 {
                assert(f * ((w + 1) * d) + 12 * ai > f * ai);
                assert((w + 1) * d <= (ni + 1) * d);
            }
        }
        assert(f * ((h + 1) * 1) + 4 * (ni * 4) > f * (ni * 4));
        assert(f * ((h + 4 + 1) * d) > (f - 40) * (4 * ai)) by (nonlinear_arith)
            requires
                f * ((h + 1) * 1) + 4 * (ni * 4) > f * (ni * 4),
                f * ((ni + 1) * d) + 12 * ai >= f * ai,
                f == 0x20_0000_0000_0000,
                d == 10_000_000,
                ai >= 0,
                ni >= 50,
                h >= 0,
        ;
    }
}

/// A share of a clock.
proof fn lemma_share(left: u64, moves: u64) -> (pq: (nat, nat))
    ensures
        pq == (if moves > 0 {
            (left as nat, moves as nat)
        } else {
            (left as nat * 5, 100nat)
        }),
        close(share(left, moves), pq.0, pq.1, 5),
        sizable(share(left, moves), 1000),
        pq.1 > 0,
{
    lemma_pow2_strictly_increases(1000, 1009);
    lemma_pow2_strictly_increases(1000, 1069);
    if moves > 0 {
        quotients_are_close(left as nat, moves as nat);
        let x = f_int(left as nat);
        let y = f_int(moves as nat);
        lemma_sizable_int(left as nat);
        lemma_sizable_int(moves as nat);
        lemma_pow2_pos(1074);
        if left == 0 {
            f_int_exact(0);
            assert(0 * one() == 0);
            nearest_exact(0, 0, y);
            assert(0 * pow2(0) == 0 && 0 * y == 0);
        } else {
            let o = one();
            lemma2_to64();
            lemma_pow2_unfold(65);
            lemma_pow2_adds(64, 1074);
            let top: nat = 0x1_0000_0000_0000_0000;
            nearest_exact(1, 1138, 1);
            assert(top * o == 1 * pow2(1138) * 1);
            f_int_monotone(moves as nat, top);
            assert(y <= pow2(1138));
            lemma_pow2_adds(1009, 65);
            lemma_pow2_adds(1138, 1009);
            lemma_pow2_adds(1074, 1074);
            lemma_pow2_strictly_increases(2147, 2148);
            let p = pow2(1009);
            assert(p * y <= pow2(1138) * p) by (nonlinear_arith)
                requires
                    y <= pow2(1138),
            ;
            assert(x * o >= o * o) by (nonlinear_arith)
                requires
                    x >= o,
            ;
            nearest_monotone(p, 1, x * o, y);
            nearest_exact(1, 1009, 1);
            assert(1 * p * 1 == p);
        }
        (left as nat, moves as nat)
    } else {
        lemma_part(left as nat, 5, 100);
        close_with_room(share(left, moves), left as nat * 5, 100, 4, 5);
        (left as nat * 5, 100)
    }
}

/// A multiple of a share and a part of the increment.
proof fn lemma_share_and_bonus(
    left: u64,
    inc: u64,
    moves: u64,
    p: nat,
    q: nat,
    u: nat,
    v: nat,
)
    requires
        close(share(left, moves), p, q, 5),
        sizable(share(left, moves), 1000),
        q > 0,
        10 <= 32 * u,
        10 <= 32 * v,
    ensures
        close(
            f_add(
                f_mul(share(left, moves), f_ratio(u, 10)),
                f_mul(f_int(inc as nat), f_ratio(v, 10)),
            ),
            (p * u) * 10 + (inc as nat * v) * (q * 10),
            (q * 10) * 10,
            10,
        ),
{
    lemma2_to64();
    let x = share(left, moves);
    ratios_are_close(u, 10);
    lemma_sizable_ratio(u, 10, 5);
    lemma_sizable_product(x, 1000, f_ratio(u, 10), 1069);
    products_are_close(x, p, q, 5, f_ratio(u, 10), u, 10, 1);
    lemma_part(inc as nat, v, 10);
    close_with_room(f_mul(f_int(inc as nat), f_ratio(v, 10)), inc as nat * v, 10, 4, 8);
    lemma_pow2_strictly_increases(900, 995);
    lemma_pow2_strictly_increases(900, 1069);
    lemma_total(
        f_mul(x, f_ratio(u, 10)),
        p * u,
        q * 10,
        f_mul(f_int(inc as nat), f_ratio(v, 10)),
        inc as nat * v,
        10,
        8,
    );
}

/// In a game with moves to go the soft bound is 80% of a share of the clock and 60% of the
/// increment, and the hard bound 3.5 shares and 80% of the increment, each within its limits. A
/// share is what the clock shows for each of the moves, or a twentieth where their number is not
/// known.
pub proof fn cyclic_bounds_are_accurate(
    main: u64,
    inc: u64,
    moves: u64,
    fullmove_number: usize,
    move_overhead: u64,
)
    ensures
        ({
            let left = if main >= move_overhead {
                main - move_overhead
            } else {
                0
            };
            let (soft, hard) = bounds(
                Limits::Cyclic(main, inc, moves),
                fullmove_number,
                move_overhead,
            );
            let p = if moves > 0 {
                left
            } else {
                5 * left
            };
            let q = if moves > 0 {
                moves as int
            } else {
                100
            };
            &&& soft_is(soft as int, left, 80 * p + 60 * (inc * q), 100 * q)
            &&& hard_is(hard as int, soft as int, left, 350 * p + 80 * (inc * q), 100 * q, 0, 0)
        }),
{
    let left = clock_left(main, move_overhead);
    let (p, q) = lemma_share(left, moves);
    let i = inc as nat;
    lemma_share_and_bonus(left, inc, moves, p, q, 8, 6);
    lemma_share_and_bonus(left, inc, moves, p, q, 35, 8);
    let a = (p * 8) * 10 + (i * 6) * (q * 10);
    let c = (p * 35) * 10 + (i * 8) * (q * 10);
    let b = (q * 10) * 10;
    assert(a == 80 * p + 60 * (i * q)) by (nonlinear_arith)
        requires
            a == (p * 8) * 10 + (i * 6) * (q * 10),
    ;
    assert(c == 350 * p + 80 * (i * q)) by (nonlinear_arith)
        requires
            c == (p * 35) * 10 + (i * 8) * (q * 10),
    ;
    let (soft, hard) = bounds(Limits::Cyclic(main, inc, moves), fullmove_number, move_overhead);
    let bonus = f_mul(f_int(i), f_ratio(6, 10));
    lemma_soft(
        f_add(f_mul(share(left, moves), f_ratio(8, 10)), bonus),
        soft,
        left,
        a,
        b,
        10,
    );
    let wanted = f_add(
        f_mul(share(left, moves), f_ratio(35, 10)),
        f_mul(f_int(i), f_ratio(8, 10)),
    );
    lemma_whole(wanted, c, b, 10);
    lemma_trunc_smaller(wanted, quarter(left));
    lemma_hard(
        f_trunc(wanted),
        cyclic_hard(left, inc, moves),
        hard,
        soft,
        left,
        c as int,
        b as int,
        0,
        0,
    );
}

} // verus!
