//! Binary64 arithmetic (IEEE 754, round to nearest, ties to even) on non-negative finite
//! numbers, carried out with integers.
//!
//! Every finite binary64 number is a whole number of units of 2^-1074, so a non-negative one is
//! modelled by the natural number that counts its units. Rounding is then one function,
//! [`nearest`], and each operation is the exact result, rounded.
use vstd::arithmetic::div_mod::{
    lemma_breakdown, lemma_div_denominator, lemma_fundamental_div_mod,
    lemma_fundamental_div_mod_converse, lemma_mod_bound,
};
use vstd::arithmetic::power2::{
    lemma2_to64, lemma2_to64_rest, lemma_pow2_adds, lemma_pow2_pos,
    lemma_pow2_strictly_increases, lemma_pow2_unfold, pow2,
};
use vstd::prelude::*;

verus! {

/// The number of units in the number one.
pub open spec fn one() -> nat {
    pow2(1074)
}

/// How many low bits of `q` lie below a significand of 53 bits.
pub open spec fn excess(q: nat) -> nat
    decreases q,
{
    if q < 0x20_0000_0000_0000 {
        0
    } else {
        1 + excess(q / 2)
    }
}

/// The whole number nearest to `num / den`; of two equally near ones, the even one.
pub open spec fn half_even(num: nat, den: nat) -> nat {
    let q = num / den;
    let r = num % den;
    if 2 * r < den || (2 * r == den && q % 2 == 0) {
        q
    } else {
        q + 1
    }
}

/// The binary64 number nearest to `num / den` units, ties to even.
pub open spec fn nearest(num: nat, den: nat) -> nat {
    let step = pow2(excess(num / den));
    half_even(num, den * step) * step
}

/// The binary64 number nearest to the integer `n`.
pub open spec fn f_int(n: nat) -> nat {
    nearest(n * one(), 1)
}

/// The binary64 number nearest to the quotient of two integers, as of a decimal literal.
pub open spec fn f_ratio(n: nat, d: nat) -> nat {
    nearest(n * one(), d)
}

/// Rounded product.
pub open spec fn f_mul(x: nat, y: nat) -> nat {
    nearest(x * y, one())
}

/// Rounded sum.
pub open spec fn f_add(x: nat, y: nat) -> nat {
    nearest(x + y, 1)
}

/// Rounded difference of `x` and a `y` that is at most `x`.
pub open spec fn f_sub(x: nat, y: nat) -> nat {
    nearest((x - y) as nat, 1)
}

/// Rounded quotient.
pub open spec fn f_div(x: nat, y: nat) -> nat {
    nearest(x * one(), y)
}

/// The integer part, at most `u64::MAX`.
pub open spec fn f_trunc(x: nat) -> u64 {
    if x / one() <= u64::MAX {
        (x / one()) as u64
    } else {
        u64::MAX
    }
}

/// Doubling the unit of a quotient halves it, and keeps track of what is cut off.
proof fn lemma_halve(num: nat, unit: nat)
    requires
        unit > 0,
    ensures
        num / (unit * 2) == (num / unit) / 2,
        num % (unit * 2) == unit * ((num / unit) % 2) + num % unit,
{
    lemma_div_denominator(num as int, unit as int, 2);
    lemma_breakdown(num as int, unit as int, 2);
}

/// A number of which `s` low bits leave between 53 and 54 bits has an excess of `s + 1`.
proof fn lemma_excess(q: nat, s: nat)
    requires
        0x20_0000_0000_0000 <= q / pow2(s) < 0x40_0000_0000_0000,
    ensures
        excess(q) == s + 1,
    decreases s,
{
    lemma_pow2_pos(s);
    if s == 0 {
        lemma2_to64();
        assert(q / 1 == q);
        assert(excess(q / 2) == 0);
    } else {
        let t = (s - 1) as nat;
        lemma_pow2_pos(t);
        lemma_pow2_unfold(s);
        lemma_div_denominator(q as int, 2, pow2(t) as int);
        assert(2 * pow2(t) == pow2(s));
        lemma_excess(q / 2, t);
        assert(q >= 0x20_0000_0000_0000) by {
            lemma_fundamental_div_mod(q as int, pow2(s) as int);
            assert(q >= pow2(s) * (q / pow2(s)));
            assert(pow2(s) * (q / pow2(s)) >= q / pow2(s)) by (nonlinear_arith)
                requires
                    pow2(s) >= 1,
                    q / pow2(s) >= 0,
            ;
        }
    }
}

/// What rounding does to a quotient of 54 bits.
proof fn lemma_round(num: nat, den: nat, s: nat, n: nat)
    requires
        den > 0,
        n == num / (den * pow2(s)),
        0x20_0000_0000_0000 <= n < 0x40_0000_0000_0000,
    ensures
        excess(num / den) == s + 1,
        nearest(num, den) == pow2(s + 1) * (if n % 2 == 1 && (num % (den * pow2(s)) != 0 || (n / 2)
            % 2 == 1) {
            n / 2 + 1
        } else {
            n / 2
        }),
{
    lemma_pow2_pos(s);
    let unit = den * pow2(s);
    assert(unit > 0) by (nonlinear_arith)
        requires
            den > 0,
            pow2(s) > 0,
            unit == den * pow2(s),
    ;
    lemma_div_denominator(num as int, den as int, pow2(s) as int);
    lemma_excess(num / den, s);
    lemma_pow2_unfold(s + 1);
    let step = pow2(s + 1);
    assert(den * step == unit * 2) by (nonlinear_arith)
        requires
            step == 2 * pow2(s),
            unit == den * pow2(s),
    ;
    lemma_halve(num, unit);
    let r = num % unit;
    assert(0 <= r < unit) by {
        lemma_fundamental_div_mod(num as int, unit as int);
        lemma_mod_bound(num as int, unit as int);
    }
    let big = num % (unit * 2);
    if n % 2 == 1 {
        assert(big == unit + r) by (nonlinear_arith)
            requires
                big == unit * (n % 2) + r,
                n % 2 == 1,
        ;
    } else {
        assert(big == r) by (nonlinear_arith)
            requires
                big == unit * (n % 2) + r,
                n % 2 == 0,
        ;
    }
    let h = half_even(num, den * step);
    assert(nearest(num, den) == h * step);
    assert(h * step == step * h) by (nonlinear_arith);
}

/// A common factor cancels from a quotient and stays in its remainder.
proof fn lemma_scaled(a: nat, d: nat, p: nat)
    requires
        d > 0,
        p > 0,
    ensures
        d * p > 0,
        (a * p) / (d * p) == a / d,
        (a * p) % (d * p) == (a % d) * p,
        ((a * p) % (d * p) != 0) == (a % d != 0),
{
    let q = a / d;
    let r = a % d;
    lemma_fundamental_div_mod(a as int, d as int);
    lemma_mod_bound(a as int, d as int);
    assert(a * p == q * (d * p) + r * p) by (nonlinear_arith)
        requires
            a == d * q + r,
    ;
    assert(0 <= r * p < d * p) by (nonlinear_arith)
        requires
            0 <= r < d,
            p > 0,
    ;
    lemma_fundamental_div_mod_converse(
        (a * p) as int,
        (d * p) as int,
        q as int,
        (r * p) as int,
    );
    assert((r * p != 0) == (r != 0)) by (nonlinear_arith)
        requires
            p > 0,
    ;
}

/// The units of a quotient of integers, in `2^1010` units.
proof fn lemma_ratio(n: nat, d: nat)
    requires
        d > 0,
    ensures
        (n * one()) / (d * pow2(1010)) == (n * 0x1_0000_0000_0000_0000) / d,
        ((n * one()) % (d * pow2(1010)) != 0) == ((n * 0x1_0000_0000_0000_0000) % d != 0),
{
    let p = pow2(1010);
    lemma_pow2_pos(1010);
    lemma2_to64();
    lemma_pow2_adds(64, 1010);
    assert(n * one() == (n * 0x1_0000_0000_0000_0000) * p) by (nonlinear_arith)
        requires
            one() == 0x1_0000_0000_0000_0000 * p,
    ;
    lemma_scaled((n * 0x1_0000_0000_0000_0000) as nat, d, p);
}

/// `2^k` as a machine integer.
fn power(k: u32) -> (r: u128)
    requires
        k < 128,
    ensures
        r == pow2(k as nat),
{
    let mut r: u128 = 1;
    let mut i: u32 = 0;
    proof {
        lemma2_to64();
    }
    while i < k
        invariant
            i <= k < 128,
            r == pow2(i as nat),
        decreases k - i,
    {
        proof {
            lemma_pow2_unfold((i + 1) as nat);
            if i + 1 < 127 {
                lemma_pow2_strictly_increases((i + 1) as nat, 127);
            }
            lemma_power_127();
        }
        r = 2 * r;
        i = i + 1;
    }
    r
}

proof fn lemma_power_127()
    ensures
        pow2(127) == 0x8000_0000_0000_0000_0000_0000_0000_0000,
{
    lemma2_to64();
    lemma2_to64_rest();
    lemma_pow2_adds(63, 64);
}

/// Zero is its own rounding.
proof fn lemma_nearest_zero(den: nat)
    requires
        den > 0,
    ensures
        nearest(0, den) == 0,
{
    assert(0nat / den == 0) by (nonlinear_arith)
        requires
            den > 0,
    ;
    lemma_pow2_pos(0);
    let step = pow2(excess(0));
    lemma_pow2_pos(excess(0));
    assert(den * step > 0) by (nonlinear_arith)
        requires
            den > 0,
            step > 0,
    ;
    let d = den * step;
    assert(0nat / d == 0 && 0nat % d == 0) by (nonlinear_arith)
        requires
            d > 0,
    ;
    assert(0 * step == 0);
}

/// A non-negative finite binary64 number: `significand * 2^shift` units.
#[derive(Clone, Copy)]
pub struct Binary64 {
    significand: u64,
    shift: u32,
}

impl View for Binary64 {
    type V = nat;

    closed spec fn view(&self) -> nat {
        (self.significand * pow2(self.shift as nat)) as nat
    }
}

impl Binary64 {
    /// A number other than zero has a significand of exactly 53 bits.
    pub closed spec fn wf(self) -> bool {
        self.significand == 0 || 0x10_0000_0000_0000 <= self.significand < 0x20_0000_0000_0000
    }

    /// The exponent of the unit of the significand.
    pub closed spec fn exponent(self) -> int {
        self.shift as int
    }

    fn zero() -> (r: Self)
        ensures
            r.wf(),
            r@ == 0,
            r.exponent() == 1022,
    {
        let r = Binary64 { significand: 0, shift: 1022 };
        assert(0 * pow2(1022) == 0);
        r
    }

    /// Rounds the number of which `n` is the whole number of `2^shift` units and of which
    /// `sticky` tells whether anything is left over.
    fn round(n: u128, sticky: bool, shift: u32, Ghost(num): Ghost<nat>, Ghost(den): Ghost<nat>)
        -> (r: Self)
        requires
            den > 0,
            0x20_0000_0000_0000 <= n,
            n == num / (den * pow2(shift as nat)),
            sticky == (num % (den * pow2(shift as nat)) != 0),
            shift <= 0x1000,
        ensures
            r.wf(),
            r.significand != 0,
            r@ == nearest(num, den),
            shift + 1 <= r.shift <= shift + 76,
    {
        let mut n: u128 = n;
        let mut sticky = sticky;
        let ghost first = shift;
        let mut shift: u32 = shift;
        let ghost mut left: int = 75;
        proof {
            assert(n < 0x40_0000_0000_0000 * pow2(74)) by {
                lemma2_to64();
                lemma_pow2_adds(64, 10);
                assert(pow2(74) == 0x1_0000_0000_0000_0000 * 1024);
            }
            left = 74;
        }
        while n >= 0x40_0000_0000_0000
            invariant
                den > 0,
                0x20_0000_0000_0000 <= n,
                0 <= left <= 74,
                n < 0x40_0000_0000_0000 * pow2(left as nat),
                shift == first + (74 - left),
                first <= 0x1000,
                n == num / (den * pow2(shift as nat)),
                sticky == (num % (den * pow2(shift as nat)) != 0),
            decreases n,
        {
            proof {
                if left == 0 {
                    lemma2_to64();
                }
                lemma_pow2_unfold(left as nat);
                let unit = den * pow2(shift as nat);
                lemma_pow2_pos(shift as nat);
                assert(unit > 0) by (nonlinear_arith)
                    requires
                        den > 0,
                        pow2(shift as nat) > 0,
                        unit == den * pow2(shift as nat),
                ;
                lemma_pow2_unfold((shift + 1) as nat);
                assert(den * pow2((shift + 1) as nat) == unit * 2) by (nonlinear_arith)
                    requires
                        unit == den * pow2(shift as nat),
                        pow2((shift + 1) as nat) == 2 * pow2(shift as nat),
                ;
                lemma_halve(num, unit);
                let bit = (num / unit) % 2;
                assert(bit == 0 || bit == 1);
                assert(unit * bit == (if bit == 1 { unit as int } else { 0 })) by (nonlinear_arith)
                    requires
                        bit == 0 || bit == 1,
                ;
                left = left - 1;
            }
            sticky = sticky || n % 2 == 1;
            n = n / 2;
            shift = shift + 1;
        }
        proof {
            lemma_round(num, den, shift as nat, n as nat);
        }
        let mut significand: u64 = (n / 2) as u64;
        if n % 2 == 1 && (sticky || significand % 2 == 1) {
            significand = significand + 1;
        }
        shift = shift + 1;
        proof {
            let value = significand * pow2(shift as nat);
            assert(nearest(num, den) == value) by (nonlinear_arith)
                requires
                    nearest(num, den) == pow2(shift as nat) * significand,
                    value == significand * pow2(shift as nat),
            ;
        }
        if significand == 0x20_0000_0000_0000 {
            proof {
                lemma_pow2_unfold((shift + 1) as nat);
                assert(0x20_0000_0000_0000 * pow2(shift as nat) == 0x10_0000_0000_0000 * pow2(
                    (shift + 1) as nat,
                ));
            }
            Binary64 { significand: 0x10_0000_0000_0000, shift: shift + 1 }
        } else {
            Binary64 { significand, shift }
        }
    }

    /// The quotient of two integers.
    pub fn ratio(n: u64, d: u64) -> (r: Self)
        requires
            0 < d < 2048,
        ensures
            r.wf(),
            r@ == f_ratio(n as nat, d as nat),
            1011 <= r.exponent() <= 1086,
    {
        if n == 0 {
            proof {
                lemma_nearest_zero(d as nat);
                assert(0 * one() == 0);
            }
            return Binary64::zero();
        }
        let scaled: u128 = n as u128 * 0x1_0000_0000_0000_0000;
        let whole: u128 = scaled / (d as u128);
        assert(whole >= 0x20_0000_0000_0000) by (nonlinear_arith)
            requires
                scaled >= 0x1_0000_0000_0000_0000,
                0 < d < 2048,
                whole == scaled / (d as u128),
        ;
        proof {
            lemma_ratio(n as nat, d as nat);
        }
        let rest: u128 = scaled % (d as u128);
        Binary64::round(
            whole,
            rest != 0,
            1010,
            Ghost((n * one()) as nat),
            Ghost(d as nat),
        )
    }

    /// An integer.
    pub fn from_u64(n: u64) -> (r: Self)
        ensures
            r.wf(),
            r@ == f_int(n as nat),
            1011 <= r.exponent() <= 1086,
    {
        Binary64::ratio(n, 1)
    }

    /// The product of two numbers.
    pub fn times(self, other: Self) -> (r: Self)
        requires
            self.wf(),
            other.wf(),
            600 <= self.exponent() <= 2000,
            600 <= other.exponent() <= 2000,
        ensures
            r.wf(),
            r@ == f_mul(self@, other@),
            r.exponent() == 1022 || self.exponent() + other.exponent() - 1073 <= r.exponent()
                <= self.exponent() + other.exponent() - 998,
    {
        let ghost x = self@;
        let ghost y = other@;
        let ghost p = pow2(self.shift as nat);
        let ghost q = pow2(other.shift as nat);
        proof {
            lemma_pow2_pos(1074);
            lemma_pow2_pos(self.shift as nat);
            lemma_pow2_pos(other.shift as nat);
        }
        if self.significand == 0 || other.significand == 0 {
            proof {
                assert(x * y == 0) by (nonlinear_arith)
                    requires
                        x == self.significand * p,
                        y == other.significand * q,
                        self.significand == 0 || other.significand == 0,
                ;
                lemma_nearest_zero(one());
            }
            return Binary64::zero();
        }
        let m: u64 = self.significand;
        let k: u64 = other.significand;
        assert(0x100_0000_0000_0000_0000_0000_0000 <= m * k < 0x400_0000_0000_0000_0000_0000_0000)
            by (nonlinear_arith)
            requires
                0x10_0000_0000_0000 <= m < 0x20_0000_0000_0000,
                0x10_0000_0000_0000 <= k < 0x20_0000_0000_0000,
        ;
        let product: u128 = m as u128 * k as u128;
        let shift: u32 = self.shift + other.shift - 1074;
        proof {
            lemma_pow2_adds(self.shift as nat, other.shift as nat);
            lemma_pow2_adds(1074, shift as nat);
            lemma_pow2_pos((1074 + shift) as nat);
            let unit = pow2((1074 + shift) as nat);
            assert(x * y == product * unit) by (nonlinear_arith)
                requires
                    x == m * p,
                    y == k * q,
                    product == m * k,
                    unit == p * q,
            ;
            lemma_scaled(product as nat, 1, unit);
        }
        Binary64::round(product, false, shift, Ghost(x * y), Ghost(one()))
    }

    /// The quotient of two numbers, the second not zero.
    pub fn over(self, other: Self) -> (r: Self)
        requires
            self.wf(),
            other.wf(),
            other@ > 0,
            600 <= self.exponent() <= 2000,
            600 <= other.exponent() <= 1500,
        ensures
            r.wf(),
            r@ == f_div(self@, other@),
            r.exponent() == 1022 || self.exponent() - other.exponent() + 1000 <= r.exponent()
                <= self.exponent() - other.exponent() + 1075,
    {
        let ghost x = self@;
        let ghost y = other@;
        let ghost p = pow2(self.shift as nat);
        let ghost q = pow2(other.shift as nat);
        proof {
            lemma_pow2_pos(self.shift as nat);
            lemma_pow2_pos(other.shift as nat);
            assert(other.significand != 0) by (nonlinear_arith)
                requires
                    y == other.significand * q,
                    y > 0,
            ;
        }
        if self.significand == 0 {
            proof {
                assert(x == 0) by (nonlinear_arith)
                    requires
                        x == 0 * p,
                ;
                assert(0 * one() == 0);
                lemma_nearest_zero(y);
            }
            return Binary64::zero();
        }
        let m: u64 = self.significand;
        let k: u64 = other.significand;
        let scaled: u128 = m as u128 * 0x800_0000_0000_0000_0000;
        let whole: u128 = scaled / (k as u128);
        assert(whole >= 0x20_0000_0000_0000) by (nonlinear_arith)
            requires
                scaled >= 0x10_0000_0000_0000 * 0x800_0000_0000_0000_0000,
                0 < k < 0x20_0000_0000_0000,
                whole == scaled / (k as u128),
        ;
        let rest: u128 = scaled % (k as u128);
        let shift: u32 = self.shift + 999 - other.shift;
        proof {
            lemma2_to64();
            lemma_pow2_adds(64, 11);
            assert(pow2(75) == 0x800_0000_0000_0000_0000);
            let unit = pow2((self.shift + 999) as nat);
            lemma_pow2_pos((self.shift + 999) as nat);
            lemma_pow2_adds(self.shift as nat, 999);
            lemma_pow2_adds(75, 999);
            lemma_pow2_adds(other.shift as nat, shift as nat);
            let step = pow2(shift as nat);
            assert(x * one() == scaled * unit) by (nonlinear_arith)
                requires
                    x == m * p,
                    one() == 0x800_0000_0000_0000_0000 * pow2(999),
                    unit == p * pow2(999),
                    scaled == m * 0x800_0000_0000_0000_0000,
            ;
            assert(y * step == k * unit) by (nonlinear_arith)
                requires
                    y == k * q,
                    unit == q * step,
            ;
            lemma_scaled(scaled as nat, k as nat, unit);
        }
        Binary64::round(whole, rest != 0, shift, Ghost(x * one()), Ghost(y))
    }

    /// The whole number of `2^target` units in a number, and whether anything is left over.
    fn in_units(self, target: u32) -> (r: (u128, bool))
        requires
            self.wf(),
            self.exponent() <= target + 74,
            target <= 0x1000,
        ensures
            r.0 == self@ / pow2(target as nat),
            r.1 == (self@ % pow2(target as nat) != 0),
            r.0 < 0x8000_0000_0000_0000_0000_0000_0000_0000,
    {
        let m: u128 = self.significand as u128;
        proof {
            lemma_pow2_pos(target as nat);
            lemma_pow2_pos(self.shift as nat);
        }
        if self.shift >= target {
            let k: u32 = self.shift - target;
            let up: u128 = power(k);
            proof {
                lemma_pow2_adds(k as nat, target as nat);
                lemma2_to64();
                lemma_pow2_adds(64, 10);
                if k < 74 {
                    lemma_pow2_strictly_increases(k as nat, 74);
                }
                assert(m * up < 0x8000_0000_0000_0000_0000_0000_0000_0000) by (nonlinear_arith)
                    requires
                        m < 0x20_0000_0000_0000,
                        up <= 0x400_0000_0000_0000_0000,
                ;
                let unit = pow2(target as nat);
                assert(self@ == (m * up) * unit) by (nonlinear_arith)
                    requires
                        self@ == m * (up * unit),
                ;
                lemma_scaled((m * up) as nat, 1, unit);
            }
            (m * up, false)
        } else {
            let k: u32 = target - self.shift;
            let ghost p = pow2(self.shift as nat);
            proof {
                lemma_pow2_adds(k as nat, self.shift as nat);
                lemma_pow2_pos(k as nat);
                lemma_scaled(m as nat, pow2(k as nat), p);
                assert(pow2(target as nat) == pow2(k as nat) * p);
            }
            if k < 128 {
                let down: u128 = power(k);
                (m / down, m % down != 0)
            } else {
                proof {
                    lemma_power_127();
                    lemma_pow2_strictly_increases(127, k as nat);
                    let big = pow2(k as nat);
                    assert(m as nat / big == 0 && m as nat % big == m) by (nonlinear_arith)
                        requires
                            0 <= m < big,
                    ;
                }
                (0, m != 0)
            }
        }
    }

    /// Whether a number is at least another.
    pub fn at_least(self, other: Self) -> (r: bool)
        requires
            self.wf(),
            other.wf(),
        ensures
            r == (self@ >= other@),
    {
        let m: u64 = self.significand;
        let k: u64 = other.significand;
        let ghost p = pow2(self.shift as nat);
        let ghost q = pow2(other.shift as nat);
        proof {
            lemma_pow2_pos(self.shift as nat);
            lemma_pow2_pos(other.shift as nat);
            if self.shift > other.shift {
                lemma_doubled(self.shift as nat, other.shift as nat);
            } else if self.shift < other.shift {
                lemma_doubled(other.shift as nat, self.shift as nat);
            }
        }
        if k == 0 {
            assert(m * p >= 0) by (nonlinear_arith)
                requires
                    p > 0,
            ;
            assert(0 * q == 0);
            true
        } else if m == 0 {
            assert(k * q > 0) by (nonlinear_arith)
                requires
                    k > 0,
                    q > 0,
            ;
            assert(0 * p == 0);
            false
        } else if self.shift > other.shift {
            assert(m * p >= k * q) by (nonlinear_arith)
                requires
                    p >= 2 * q,
                    q > 0,
                    m >= 0x10_0000_0000_0000,
                    0 <= k < 0x20_0000_0000_0000,
            ;
            true
        } else if self.shift < other.shift {
            assert(m * p < k * q) by (nonlinear_arith)
                requires
                    q >= 2 * p,
                    p > 0,
                    k >= 0x10_0000_0000_0000,
                    0 <= m < 0x20_0000_0000_0000,
            ;
            false
        } else {
            assert((m >= k) == (m * p >= k * p)) by (nonlinear_arith)
                requires
                    p > 0,
            ;
            m >= k
        }
    }

    /// The sum of two numbers.
    pub fn plus(self, other: Self) -> (r: Self)
        requires
            self.wf(),
            other.wf(),
            200 <= self.exponent() <= 3000,
            200 <= other.exponent() <= 3000,
        ensures
            r.wf(),
            r@ == f_add(self@, other@),
            100 <= r.exponent() <= 3100,
    {
        if self.significand == 0 && other.significand == 0 {
            proof {
                assert(0 * pow2(self.shift as nat) == 0);
                assert(0 * pow2(other.shift as nat) == 0);
                lemma_nearest_zero(1);
            }
            return Binary64::zero();
        }
        let first = self.at_least(other);
        let big = if first { self } else { other };
        let small = if first { other } else { self };
        let ghost x = big@;
        let ghost y = small@;
        proof {
            assert(x + y == self@ + other@);
            if small.significand != 0 {
                lemma_order(big, small);
            }
        }
        let small = if small.significand == 0 { Binary64 { significand: 0, shift: big.shift } } else {
            small
        };
        proof {
            assert(0 * pow2(big.shift as nat) == 0);
            assert(small@ == y);
        }
        let target: u32 = big.shift - 74;
        let (a, _) = big.in_units(target);
        let (b, rest) = small.in_units(target);
        let ghost unit = pow2(target as nat);
        proof {
            lemma_top(big);
            lemma_pow2_pos(target as nat);
            lemma_fundamental_div_mod(y as int, unit as int);
            lemma_mod_bound(y as int, unit as int);
            let r = y % unit;
            assert(x + y == (a + b) * unit + r) by (nonlinear_arith)
                requires
                    x == a * unit,
                    y == unit * b + r,
            ;
            lemma_fundamental_div_mod_converse(
                (x + y) as int,
                unit as int,
                (a + b) as int,
                r as int,
            );
        }
        Binary64::round(a + b, rest, target, Ghost(x + y), Ghost(1))
    }

    /// The difference of a number and one that is less.
    pub fn minus(self, other: Self) -> (r: Self)
        requires
            self.wf(),
            other.wf(),
            self@ > other@,
            200 <= self.exponent() <= 3000,
            200 <= other.exponent() <= 3000,
        ensures
            r.wf(),
            r@ == f_sub(self@, other@),
            self.exponent() - 73 <= r.exponent() <= self.exponent() + 2,
    {
        let ghost x = self@;
        let ghost y = other@;
        let other = if other.significand == 0 {
            Binary64 { significand: 0, shift: self.shift }
        } else {
            other
        };
        proof {
            assert(0 * pow2(self.shift as nat) == 0);
            assert(0 * pow2(other.shift as nat) == 0);
            assert(other@ == y);
            assert(self.significand != 0);
            if other.significand != 0 {
                lemma_order(self, other);
            }
        }
        let target: u32 = self.shift - 74;
        let (a, _) = self.in_units(target);
        let (b, rest) = other.in_units(target);
        let ghost unit = pow2(target as nat);
        proof {
            lemma_top(self);
            lemma_pow2_pos(target as nat);
            lemma_fundamental_div_mod(y as int, unit as int);
            lemma_mod_bound(y as int, unit as int);
            let r = y % unit;
            assert(a * unit > unit * b + r);
            assert(a > b) by (nonlinear_arith)
                requires
                    a * unit > unit * b + r,
                    r >= 0,
                    unit > 0,
            ;
            lemma_gap(self, other, a as nat, b as nat);
            let whole = if rest { a - b - 1 } else { a - b };
            let left = if rest { unit - r } else { 0 };
            assert(x - y == whole * unit + left) by (nonlinear_arith)
                requires
                    x == a * unit,
                    y == unit * b + r,
                    whole == (if rest { a - b - 1 } else { a - b }),
                    left == (if rest { unit - r } else { 0 }),
                    rest == (r != 0),
            ;
            lemma_fundamental_div_mod_converse(x - y, unit as int, whole, left);
        }
        let whole: u128 = if rest { a - b - 1 } else { a - b };
        Binary64::round(whole, rest, target, Ghost((x - y) as nat), Ghost(1))
    }

    /// The larger of two numbers.
    pub fn max(self, other: Self) -> (r: Self)
        requires
            self.wf(),
            other.wf(),
        ensures
            r.wf(),
            r@ == (if self@ >= other@ { self@ } else { other@ }),
    {
        if self.at_least(other) { self } else { other }
    }

    /// The smaller of two numbers.
    pub fn min(self, other: Self) -> (r: Self)
        requires
            self.wf(),
            other.wf(),
        ensures
            r.wf(),
            r@ == (if self@ >= other@ { other@ } else { self@ }),
    {
        if self.at_least(other) { other } else { self }
    }

    /// The integer part of a number, at most `u64::MAX`.
    pub fn trunc(self) -> (r: u64)
        requires
            self.wf(),
        ensures
            r == f_trunc(self@),
    {
        if self.shift > 1085 {
            proof {
                lemma_pow2_pos(1074);
                if self.significand == 0 {
                    assert(0 * pow2(self.shift as nat) == 0);
                    assert(0nat / one() == 0) by (nonlinear_arith)
                        requires
                            one() > 0,
                    ;
                } else {
                    let up = (self.shift - 1074) as nat;
                    let m = self.significand;
                    lemma_pow2_adds(up, 1074);
                    lemma2_to64();
                    if up > 12 {
                        lemma_pow2_strictly_increases(12, up);
                    }
                    let whole = (m * pow2(up)) as nat;
                    assert(self@ == whole * one()) by (nonlinear_arith)
                        requires
                            self@ == m * (pow2(up) * one()),
                            whole == m * pow2(up),
                    ;
                    assert(whole > u64::MAX) by (nonlinear_arith)
                        requires
                            m >= 0x10_0000_0000_0000,
                            pow2(up) >= 4096,
                            whole == m * pow2(up),
                    ;
                    lemma_scaled(whole, 1, one());
                }
            }
            if self.significand == 0 { 0 } else { u64::MAX }
        } else {
            let (whole, _) = self.in_units(1074);
            if whole <= u64::MAX as u128 { whole as u64 } else { u64::MAX }
        }
    }
}

/// A power of two with a larger exponent is at least twice the other.
proof fn lemma_doubled(high: nat, low: nat)
    requires
        high > low,
    ensures
        pow2(high) >= 2 * pow2(low),
        high > low + 1 ==> pow2(high) >= 4 * pow2(low),
{
    lemma_pow2_unfold(low + 1);
    lemma_pow2_unfold(low + 2);
    if high > low + 1 {
        if high > low + 2 {
            lemma_pow2_strictly_increases(low + 2, high);
        }
    }
}

/// Of two numbers other than zero, the larger has the larger exponent.
proof fn lemma_order(big: Binary64, small: Binary64)
    requires
        big.wf(),
        small.wf(),
        big@ >= small@,
        small.significand != 0,
    ensures
        big.significand != 0,
        big.shift >= small.shift,
{
    let m = big.significand;
    let k = small.significand;
    let p = pow2(big.shift as nat);
    let q = pow2(small.shift as nat);
    lemma_pow2_pos(big.shift as nat);
    lemma_pow2_pos(small.shift as nat);
    assert(k * q > 0) by (nonlinear_arith)
        requires
            k > 0,
            q > 0,
    ;
    if m == 0 {
        assert(0 * p == 0);
    }
    if big.shift < small.shift {
        lemma_doubled(small.shift as nat, big.shift as nat);
        assert(m * p < k * q) by (nonlinear_arith)
            requires
                q >= 2 * p,
                p > 0,
                k >= 0x10_0000_0000_0000,
                0 <= m < 0x20_0000_0000_0000,
        ;
    }
}

/// A number in units that lie 74 bits below its own.
proof fn lemma_top(x: Binary64)
    requires
        x.shift >= 74,
    ensures
        x@ == (x.significand * 0x400_0000_0000_0000_0000) * pow2((x.shift - 74) as nat),
        x@ / pow2((x.shift - 74) as nat) == x.significand * 0x400_0000_0000_0000_0000,
        pow2(x.shift as nat) == 0x400_0000_0000_0000_0000 * pow2((x.shift - 74) as nat),
{
    let t = (x.shift - 74) as nat;
    let unit = pow2(t);
    lemma_pow2_pos(t);
    lemma2_to64();
    lemma_pow2_adds(64, 10);
    lemma_pow2_adds(74, t);
    let m = x.significand;
    let a = (m * 0x400_0000_0000_0000_0000) as nat;
    assert(x@ == a * unit) by (nonlinear_arith)
        requires
            x@ == m * (0x400_0000_0000_0000_0000 * unit),
            a == m * 0x400_0000_0000_0000_0000,
    ;
    lemma_scaled(a, 1, unit);
}

/// Two different numbers are many units of `2^-74` of the larger one's apart.
proof fn lemma_gap(x: Binary64, y: Binary64, a: nat, b: nat)
    requires
        x.wf(),
        y.wf(),
        x.significand != 0,
        x.shift >= 74,
        y.shift <= x.shift,
        a == x@ / pow2((x.shift - 74) as nat),
        b == y@ / pow2((x.shift - 74) as nat),
        a > b,
    ensures
        a - b > 0x20_0000_0000_0000,
{
    let t = (x.shift - 74) as nat;
    let unit = pow2(t);
    let m = x.significand;
    let k = y.significand;
    let q = pow2(y.shift as nat);
    lemma_pow2_pos(t);
    lemma_pow2_pos(y.shift as nat);
    lemma_top(x);
    lemma_fundamental_div_mod(y@ as int, unit as int);
    lemma_mod_bound(y@ as int, unit as int);
    if x.shift > y.shift + 1 {
        lemma_doubled(x.shift as nat, y.shift as nat);
        assert(b < 0x2000_0000_0000_0000_0000_0000_0000_0000) by (nonlinear_arith)
            requires
                unit * b <= k * q,
                4 * q <= 0x400_0000_0000_0000_0000 * unit,
                0 <= k < 0x20_0000_0000_0000,
                unit > 0,
                q > 0,
        ;
    } else if x.shift == y.shift {
        lemma_top(y);
    } else {
        lemma_pow2_unfold(x.shift as nat);
        let c = (k * 0x200_0000_0000_0000_0000) as nat;
        assert(y@ == c * unit) by (nonlinear_arith)
            requires
                y@ == k * q,
                2 * q == 0x400_0000_0000_0000_0000 * unit,
                c == k * 0x200_0000_0000_0000_0000,
        ;
        lemma_scaled(c, 1, unit);
    }
}

} // verus!
