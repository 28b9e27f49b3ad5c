//! Single-precision numbers by their bit patterns.
//!
//! Gains, gates and synth settings are single-precision numbers. The library keeps each as the
//! IEEE-754 bit pattern it has, so a value passes through unchanged to the last bit, and what
//! little arithmetic is done on one (ordering, clamping, scaling to whole ticks) is integer
//! arithmetic on the pattern.

use vstd::arithmetic::power2::{lemma2_to64, lemma2_to64_rest, lemma_pow2_pos, lemma_pow2_strictly_increases, lemma_pow2_unfold, pow2};
use vstd::prelude::*;

verus! {

/// The pattern of positive infinity; a larger magnitude is not a number.
pub const INFINITY_BITS: u32 = 0x7F80_0000;

/// The pattern of 0.05.
pub const TWENTIETH_BITS: u32 = 0x3D4C_CCCD;

/// The pattern of 1.
pub const ONE_BITS: u32 = 0x3F80_0000;

/// A single-precision number, by its bit pattern.
#[derive(Copy, Clone, Debug)]
pub struct Single {
    pub bits: u32,
}

/// `p / 2^s`, rounded to the nearest whole number, a half to the even one.
pub open spec fn half_even(p: nat, s: nat) -> nat {
    let q = p / pow2(s);
    let twice = 2 * (p % pow2(s));
    if twice > pow2(s) || (twice == pow2(s) && q % 2 == 1) {
        q + 1
    } else {
        q
    }
}

/// `p / 2^k`, rounded to the nearest whole number, a half upwards.
pub open spec fn half_up(p: nat, k: nat) -> nat {
    (2 * p + pow2(k)) / (2 * pow2(k))
}

/// By how many bits `p` is longer than the 24 of a single-precision significand.
pub open spec fn excess(p: nat) -> nat
    decreases p,
{
    if p < 0x100_0000 {
        0
    } else {
        1 + excess(p / 2)
    }
}

impl Single {
    /// The pattern without its sign.
    pub open spec fn magnitude(self) -> int {
        self.bits as int % 0x8000_0000
    }

    pub open spec fn negative(self) -> bool {
        self.bits >= 0x8000_0000
    }

    pub open spec fn nan(self) -> bool {
        self.magnitude() > INFINITY_BITS
    }

    pub open spec fn infinite(self) -> bool {
        self.magnitude() == INFINITY_BITS
    }

    /// A whole number that orders as the value does; both zeros have 0.
    pub open spec fn order(self) -> int {
        if self.negative() {
            -self.magnitude()
        } else {
            self.magnitude()
        }
    }

    /// `self < other`, as numbers.
    pub open spec fn below(self, other: Single) -> bool {
        !self.nan() && !other.nan() && self.order() < other.order()
    }

    /// `self == other`, as numbers.
    pub open spec fn equals(self, other: Single) -> bool {
        !self.nan() && !other.nan() && self.order() == other.order()
    }

    /// The value kept within `lo..=hi`; what is not a number stays as it is.
    pub open spec fn within(self, lo: Single, hi: Single) -> Single {
        if self.below(lo) {
            lo
        } else if hi.below(self) {
            hi
        } else {
            self
        }
    }

    /// The significand: the size of a finite value is `significand * 2^power`.
    pub open spec fn significand(self) -> nat {
        let m = self.magnitude();
        (if m < 0x80_0000 {
            m
        } else {
            m % 0x80_0000 + 0x80_0000
        }) as nat
    }

    /// The power of two that scales the significand.
    pub open spec fn power(self) -> int {
        let m = self.magnitude();
        if m < 0x80_0000 {
            -149
        } else {
            m / 0x80_0000 - 150
        }
    }

    /// `n` times the size of a value below 2^23, rounded to the nearest whole number, a half
    /// upwards.
    pub open spec fn nearest_multiple(self, n: nat) -> nat {
        half_up(n * self.significand(), (-self.power()) as nat)
    }

    /// `n` times the size of a value below 2^16, first rounded to single precision as every
    /// single-precision product is, then to the nearest whole number, a half upwards.
    pub open spec fn nearest_product(self, n: nat) -> nat {
        let p = n * self.significand();
        let s = excess(p);
        half_up(half_even(p, s) * pow2(s), (-self.power()) as nat)
    }

    /// `n` times the size of a value up to 1, first rounded to single precision as every
    /// single-precision product is, then with its fraction cut off.
    pub open spec fn whole_product(self, n: nat) -> nat {
        let p = n * self.significand();
        let s = excess(p);
        half_even(p, s) * pow2(s) / pow2((-self.power()) as nat)
    }

    /// The product with `factor` is not a number.
    pub open spec fn product_nan(self, factor: Single) -> bool {
        ||| self.nan()
        ||| factor.nan()
        ||| self.infinite() && factor.magnitude() == 0
        ||| factor.infinite() && self.magnitude() == 0
    }

    /// The single-precision product with `factor`, where it is a number, kept within 0.05 and 1.
    pub open spec fn product_within(self, factor: Single) -> Single {
        let p = self.significand() * factor.significand();
        let s = excess(p);
        let e = self.power() + factor.power() + s;
        let bits = (e + 149) * 0x80_0000 + half_even(p, s);
        if self.negative() != factor.negative() || self.magnitude() == 0 || factor.magnitude()
            == 0 {
            Single { bits: TWENTIETH_BITS }
        } else if self.infinite() || factor.infinite() {
            Single { bits: ONE_BITS }
        } else if e < -28 {
            Single { bits: TWENTIETH_BITS }
        } else if e >= -23 {
            Single { bits: ONE_BITS }
        } else if bits < TWENTIETH_BITS {
            Single { bits: TWENTIETH_BITS }
        } else {
            Single { bits: bits as u32 }
        }
    }

    pub fn is_nan(self) -> (r: bool)
        ensures
            r == self.nan(),
    {
        self.bits % 0x8000_0000 > INFINITY_BITS
    }

    fn order_key(self) -> (r: i64)
        ensures
            r == self.order(),
    {
        let m: i64 = (self.bits % 0x8000_0000) as i64;
        if self.bits >= 0x8000_0000 {
            -m
        } else {
            m
        }
    }

    /// Whether `self < other`.
    pub fn less(self, other: Single) -> (r: bool)
        ensures
            r == self.below(other),
    {
        !self.is_nan() && !other.is_nan() && self.order_key() < other.order_key()
    }

    /// Whether `self == other`.
    pub fn same(self, other: Single) -> (r: bool)
        ensures
            r == self.equals(other),
    {
        !self.is_nan() && !other.is_nan() && self.order_key() == other.order_key()
    }

    /// The value kept within `lo..=hi`.
    pub fn clamp(self, lo: Single, hi: Single) -> (r: Single)
        ensures
            r == self.within(lo, hi),
    {
        if self.less(lo) {
            lo
        } else if hi.less(self) {
            hi
        } else {
            self
        }
    }

    fn mantissa(self) -> (r: u64)
        ensures
            r == self.significand(),
            r < 0x100_0000,
    {
        let m: u32 = self.bits % 0x8000_0000;
        if m < 0x80_0000 {
            m as u64
        } else {
            (m % 0x80_0000 + 0x80_0000) as u64
        }
    }

    fn exponent(self) -> (r: i32)
        ensures
            r == self.power(),
            -149 <= r <= 105,
    {
        let m: u32 = self.bits % 0x8000_0000;
        if m < 0x80_0000 {
            -149
        } else {
            (m / 0x80_0000) as i32 - 150
        }
    }

    /// `n` times the size of the value, to the nearest whole number.
    pub fn scaled(self, n: u64) -> (r: u64)
        requires
            self.magnitude() < 0x4B00_0000,
            n <= 3840,
        ensures
            r == self.nearest_multiple(n as nat),
            r <= n * 0x80_0000,
    {
        let m: u64 = self.mantissa();
        assert(n * m <= 3840 * 0xFF_FFFF) by (nonlinear_arith)
            requires
                n <= 3840,
                m < 0x100_0000,
        ;
        let p: u64 = n * m;
        let k: u32 = (-self.exponent()) as u32;
        let r: u64 = rounded_shift(p, k);
        proof {
            lemma_half_up_bound(p as nat, k as nat);
            if k == 1 {
                lemma2_to64();
            }
            assert(n * m <= n * 0xFF_FFFF) by (nonlinear_arith)
                requires
                    m < 0x100_0000,
            ;
        }
        r
    }

    /// `n` times the size of the value as a single-precision product, to the nearest whole number.
    pub fn scaled_product(self, n: u64) -> (r: u64)
        requires
            self.magnitude() < 0x4780_0000,
            n <= 255,
        ensures
            r == self.nearest_product(n as nat),
    {
        let m: u64 = self.mantissa();
        assert(n * m <= 255 * 0xFF_FFFF) by (nonlinear_arith)
            requires
                n <= 255,
                m < 0x100_0000,
        ;
        let p: u64 = n * m;
        let s: u32 = excess_bits(p);
        proof {
            lemma2_to64();
            lemma_excess(p as nat);
            lemma_excess_small(p as nat, 8);
        }
        let q: u64 = even_shift(p, s);
        let unit: u64 = power_of_two(s);
        proof {
            lemma_pow2_bounds(s as nat, 8);
        }
        assert(q * unit <= 0x100_0001 * 0x100) by (nonlinear_arith)
            requires
                q <= 0x100_0001,
                unit <= 0x100,
        ;
        let k: u32 = (-self.exponent()) as u32;
        rounded_shift(q * unit, k)
    }
}

impl Single {
    /// `n` times the size of the value as a single-precision product, its fraction cut off.
    pub fn cut_product(self, n: u64) -> (r: u64)
        requires
            self.magnitude() <= ONE_BITS,
            n <= 255,
        ensures
            r == self.whole_product(n as nat),
            r <= 255,
    {
        let m: u64 = self.mantissa();
        assert(n * m <= 255 * 0xFF_FFFF) by (nonlinear_arith)
            requires
                n <= 255,
                m < 0x100_0000,
        ;
        let p: u64 = n * m;
        let s: u32 = excess_bits(p);
        proof {
            lemma2_to64();
            lemma_excess(p as nat);
            lemma_excess_small(p as nat, 8);
        }
        let q: u64 = even_shift(p, s);
        let unit: u64 = power_of_two(s);
        proof {
            lemma_pow2_bounds(s as nat, 8);
        }
        assert(q * unit <= 0x100_0001 * 0x100) by (nonlinear_arith)
            requires
                q <= 0x100_0001,
                unit <= 0x100,
        ;
        let k: u32 = (-self.exponent()) as u32;
        let whole: u64 = q * unit;
        proof {
            lemma_rounded_product_bound(self, n as nat);
        }
        if k >= 40 {
            proof {
                lemma_pow2_bounds(40, k as nat);
                lemma2_to64_rest();
                vstd::arithmetic::div_mod::lemma_basic_div(whole as int, pow2(k as nat) as int);
            }
            0
        } else {
            whole / power_of_two(k)
        }
    }

    /// The product with `factor`, kept within 0.05 and 1.
    pub fn damped(self, factor: Single) -> (r: Single)
        ensures
            self.product_nan(factor) ==> r.nan(),
            !self.product_nan(factor) ==> r == self.product_within(factor),
    {
        let a: u32 = self.bits % 0x8000_0000;
        let b: u32 = factor.bits % 0x8000_0000;
        if a > INFINITY_BITS || b > INFINITY_BITS || (a == INFINITY_BITS && b == 0) || (b
            == INFINITY_BITS && a == 0) {
            return Single { bits: 0x7FC0_0000 };
        }
        if (self.bits >= 0x8000_0000) != (factor.bits >= 0x8000_0000) || a == 0 || b == 0 {
            return Single { bits: TWENTIETH_BITS };
        }
        if a == INFINITY_BITS || b == INFINITY_BITS {
            return Single { bits: ONE_BITS };
        }
        let m: u64 = self.mantissa();
        let n: u64 = factor.mantissa();
        assert(m * n <= 0xFF_FFFF * 0xFF_FFFF) by (nonlinear_arith)
            requires
                m < 0x100_0000,
                n < 0x100_0000,
        ;
        let p: u64 = m * n;
        let s: u32 = excess_bits(p);
        proof {
            lemma_excess(p as nat);
        }
        let e: i32 = self.exponent() + factor.exponent() + s as i32;
        let q: u64 = even_shift(p, s);
        if e < -28 {
            Single { bits: TWENTIETH_BITS }
        } else if e >= -23 {
            Single { bits: ONE_BITS }
        } else {
            let bits: u32 = (e + 149) as u32 * 0x80_0000 + q as u32;
            if bits < TWENTIETH_BITS {
                Single { bits: TWENTIETH_BITS }
            } else {
                Single { bits }
            }
        }
    }
}

impl PartialEq for Single {
    fn eq(&self, other: &Self) -> (r: bool) {
        self.same(*other)
    }
}

impl vstd::std_specs::cmp::PartialEqSpecImpl for Single {
    open spec fn obeys_eq_spec() -> bool {
        true
    }

    open spec fn eq_spec(&self, other: &Single) -> bool {
        self.equals(*other)
    }
}

proof fn lemma_pow2_bounds(s: nat, t: nat)
    requires
        s <= t,
    ensures
        0 < pow2(s) <= pow2(t),
{
    lemma_pow2_pos(s);
    if s < t {
        lemma_pow2_strictly_increases(s, t);
    }
}

proof fn lemma_half_up_bound(p: nat, k: nat)
    requires
        k >= 1,
    ensures
        half_up(p, k) <= (p + 1) / 2,
{
    lemma_pow2_bounds(1, k);
    lemma2_to64();
    let u = pow2(k) as int;
    let h = half_up(p, k) as int;
    assert(h * (2 * u) <= 2 * p + u) by (nonlinear_arith)
        requires
            h == (2 * p + u) / (2 * u),
            u >= 2,
    ;
    assert(2 * h <= p + 1) by (nonlinear_arith)
        requires
            h * (2 * u) <= 2 * p + u,
            u >= 2,
            h >= 0,
            p >= 0,
    ;
}

/// 2^k.
fn power_of_two(k: u32) -> (r: u64)
    requires
        k < 63,
    ensures
        r == pow2(k as nat),
        0 < r <= 0x4000_0000_0000_0000,
    decreases k,
{
    proof {
        lemma2_to64();
    }
    if k == 0 {
        1
    } else {
        proof {
            lemma_pow2_unfold(k as nat);
            lemma_pow2_bounds(k as nat, 62);
            lemma_pow2_62();
        }
        2 * power_of_two(k - 1)
    }
}

proof fn lemma_pow2_62()
    ensures
        pow2(62) == 0x4000_0000_0000_0000,
{
    lemma2_to64_rest();
}

/// `p / 2^k` to the nearest whole number, a half upwards.
fn rounded_shift(p: u64, k: u32) -> (r: u64)
    requires
        p < 0x10_0000_0000,
    ensures
        r == half_up(p as nat, k as nat),
{
    if k >= 40 {
        proof {
            lemma_pow2_bounds(40, k as nat);
            lemma2_to64_rest();
            let u = pow2(k as nat) as int;
            assert((2 * p + u) / (2 * u) == 0) by (nonlinear_arith)
                requires
                    p < 0x10_0000_0000,
                    u >= 0x100_0000_0000,
            ;
        }
        0
    } else {
        let u: u64 = power_of_two(k);
        proof {
            lemma_pow2_bounds(k as nat, 40);
            lemma2_to64_rest();
        }
        (2 * p + u) / (2 * u)
    }
}

proof fn lemma_excess(p: nat)
    ensures
        p < 0x100_0000 ==> excess(p) == 0,
        p >= 0x100_0000 ==> 0x80_0000 <= p / pow2(excess(p)) < 0x100_0000,
        p / pow2(excess(p)) < 0x100_0000,
    decreases p,
{
    lemma2_to64();
    if p >= 0x100_0000 {
        lemma_excess(p / 2);
        let s = excess(p / 2);
        lemma_pow2_unfold(s + 1);
        lemma_pow2_pos(s);
        vstd::arithmetic::div_mod::lemma_div_denominator(p as int, 2, pow2(s) as int);
    }
}

proof fn lemma_excess_small(p: nat, t: nat)
    requires
        p < 0x100_0000 * pow2(t),
    ensures
        excess(p) <= t,
    decreases t,
{
    lemma2_to64();
    if p >= 0x100_0000 {
        assert(t > 0);
        lemma_pow2_unfold(t);
        lemma_excess_small(p / 2, (t - 1) as nat);
    }
}

/// By how many bits `p` is longer than a significand.
fn excess_bits(p: u64) -> (r: u32)
    ensures
        r == excess(p as nat),
        r <= 40,
    decreases p,
{
    proof {
        lemma2_to64_rest();
        lemma_excess_small(p as nat, 40);
    }
    if p < 0x100_0000 {
        0
    } else {
        1 + excess_bits(p / 2)
    }
}

/// `p / 2^s` to the nearest whole number, a half to the even one.
fn even_shift(p: u64, s: u32) -> (r: u64)
    requires
        s <= 40,
        p as nat / pow2(s as nat) < 0x100_0000,
    ensures
        r == half_even(p as nat, s as nat),
        r <= 0x100_0000,
{
    proof {
        lemma_pow2_bounds(s as nat, 40);
        lemma2_to64_rest();
    }
    let u: u64 = power_of_two(s);
    let q: u64 = p / u;
    let rest: u64 = p % u;
    if 2 * rest > u || (2 * rest == u && q % 2 == 1) {
        q + 1
    } else {
        q
    }
}

/// A clamped product lies within 0.05 and 1.
pub proof fn lemma_product_within_range(a: Single, b: Single)
    requires
        !a.product_nan(b),
    ensures
        TWENTIETH_BITS <= a.product_within(b).bits <= ONE_BITS,
{
    let p = a.significand() * b.significand();
    let s = excess(p);
    lemma_excess(p);
    lemma_pow2_pos(s);
    assert(half_even(p, s) <= 0x100_0000);
}

/// A product of a value up to 1 by a number up to 255 is no more than 255 when cut.
proof fn lemma_rounded_product_bound(v: Single, n: nat)
    requires
        v.magnitude() <= ONE_BITS,
        n <= 255,
    ensures
        v.whole_product(n) <= 255,
{
    let m = v.significand();
    let k = (-v.power()) as nat;
    let p = n * m;
    let s = excess(p);
    lemma2_to64();
    lemma_excess(p);
    lemma_pow2_pos(s);
    lemma_pow2_pos(k);
    let u = pow2(s) as int;
    let h = half_even(p, s) as int;
    let q = p as int / u;
    assert(h <= q + 1);
    assert(q * u <= p) by (nonlinear_arith)
        requires
            q == p as int / u,
            u > 0,
    ;
    assert(h * u <= p + u) by (nonlinear_arith)
        requires
            h <= q + 1,
            q * u <= p,
            u > 0,
    ;
    // The size of the value is at most 1: its significand is at most 2^k.
    assert(m <= pow2(k)) by {
        if v.magnitude() == ONE_BITS {
            assert(k == 23 && m == 0x80_0000);
        } else {
            assert(k >= 24);
            lemma_pow2_bounds(24, k);
            assert(m < 0x100_0000);
        }
    }
    let w = pow2(k) as int;
    assert(p <= 255 * w) by (nonlinear_arith)
        requires
            p == n * m,
            n <= 255,
            m <= w,
            m >= 0,
    ;
    assert(n * m <= 255 * 0xFF_FFFF) by (nonlinear_arith)
        requires
            n <= 255,
            m <= 0xFF_FFFF,
    ;
    lemma_excess_small(p, 8);
    lemma_pow2_bounds(s, 8);
    assert(u <= 256 && w >= 0x80_0000) by {
        lemma_pow2_bounds(23, k);
    }
    assert(h * u / w <= 255) by (nonlinear_arith)
        requires
            h * u <= p + u,
            p <= 255 * w,
            u <= 256,
            w >= 0x80_0000,
    ;
}

/// What a bit pattern means: the low 23 bits and, but for the smallest numbers, a leading one are the
/// significand; the eight bits above them scale it by a power of two; the topmost bit is the sign.
pub proof fn law_bits_mean_a_number(v: Single, fraction: int, exponent: int, sign: int)
    requires
        v.bits == sign * 0x8000_0000 + exponent * 0x80_0000 + fraction,
        0 <= fraction < 0x80_0000,
        0 <= exponent < 256,
        0 <= sign < 2,
    ensures
        v.negative() <==> sign == 1,
        exponent > 0 ==> v.significand() == 0x80_0000 + fraction && v.power() == exponent - 150,
        exponent == 0 ==> v.significand() == fraction && v.power() == -149,
        v.nan() <==> exponent == 255 && fraction > 0,
        v.infinite() <==> exponent == 255 && fraction == 0,
{
    let m = v.magnitude();
    assert(m == exponent * 0x80_0000 + fraction);
    assert(m / 0x80_0000 == exponent && m % 0x80_0000 == fraction);
}

/// A multiple is to the nearest whole number, a half upwards: twice the distance to the exact product
/// is at most 1, with the size of the value as `significand / 2^-power`.
pub proof fn law_multiples_are_nearest(v: Single, n: nat)
    ensures
        ({
            let unit = pow2((-v.power()) as nat);
            let r = v.nearest_multiple(n);
            (2 * r - 1) * unit <= 2 * (n * v.significand()) < (2 * r + 1) * unit
        }),
{
    lemma_half_up_nearest(n * v.significand(), (-v.power()) as nat);
}

proof fn lemma_half_up_nearest(p: nat, k: nat)
    ensures
        (2 * half_up(p, k) - 1) * pow2(k) <= 2 * p < (2 * half_up(p, k) + 1) * pow2(k),
{
    lemma_pow2_pos(k);
    let u = pow2(k) as int;
    let h = half_up(p, k) as int;
    assert((2 * h - 1) * u <= 2 * p < (2 * h + 1) * u) by (nonlinear_arith)
        requires
            h == (2 * p + u) / (2 * u),
            u > 0,
            p >= 0,
    ;
}

/// A product that is rounded to single precision first is still to the nearest whole number, but for
/// the last place of the product: of a factor up to 255, that is 128 units of the value's own.
pub proof fn law_products_are_nearest(v: Single, n: nat)
    requires
        n <= 255,
    ensures
        ({
            let unit = pow2((-v.power()) as nat);
            let r = v.nearest_product(n);
            (2 * r - 1) * unit <= 2 * (n * v.significand()) + 256 && 2 * (n * v.significand())
                < (2 * r + 1) * unit + 256
        }),
{
    let m = v.significand();
    let p = n * m;
    assert(p <= 255 * 0xFF_FFFF) by (nonlinear_arith)
        requires
            p == n * m,
            n <= 255,
            m <= 0xFF_FFFF,
    ;
    let s = excess(p);
    lemma2_to64();
    lemma_excess_small(p, 8);
    lemma_pow2_bounds(s, 8);
    lemma_half_even_nearest(p, s);
    lemma_half_up_nearest(half_even(p, s) * pow2(s), (-v.power()) as nat);
}

proof fn lemma_half_even_nearest(p: nat, s: nat)
    ensures
        2 * p - pow2(s) <= 2 * (half_even(p, s) * pow2(s)) <= 2 * p + pow2(s),
{
    lemma_pow2_pos(s);
    let u = pow2(s) as int;
    let q = p as int / u;
    let r = p as int % u;
    assert(p == u * q + r) by {
        vstd::arithmetic::div_mod::lemma_fundamental_div_mod(p as int, u);
    }
    vstd::arithmetic::div_mod::lemma_mod_bound(p as int, u);
    assert(q * u == u * q) by (nonlinear_arith);
    assert((q + 1) * u == u * q + u) by (nonlinear_arith);
    assert(half_even(p, s) * pow2(s) == (half_even(p, s) as int) * u);
}

/// A product that is cut to a whole number is cut downwards, but for the last place of the product.
pub proof fn law_whole_products_are_cut(v: Single, n: nat)
    requires
        n <= 255,
    ensures
        ({
            let unit = pow2((-v.power()) as nat);
            let r = v.whole_product(n);
            r * unit <= n * v.significand() + 128 && n * v.significand() < (r + 1) * unit + 128
        }),
{
    let m = v.significand();
    let p = n * m;
    assert(p <= 255 * 0xFF_FFFF) by (nonlinear_arith)
        requires
            p == n * m,
            n <= 255,
            m <= 0xFF_FFFF,
    ;
    let s = excess(p);
    lemma2_to64();
    lemma_excess_small(p, 8);
    lemma_pow2_bounds(s, 8);
    lemma_half_even_nearest(p, s);
    let u = pow2((-v.power()) as nat) as int;
    lemma_pow2_pos((-v.power()) as nat);
    let x = (half_even(p, s) * pow2(s)) as int;
    let r = x / u;
    assert(r * u <= x < (r + 1) * u) by (nonlinear_arith)
        requires
            r == x / u,
            u > 0,
            x >= 0,
    ;
}

/// A pattern up to that of 1 is a number up to 1, and the pattern of 1 is 1.
pub proof fn law_patterns_up_to_one_are_up_to_one(v: Single)
    requires
        v.magnitude() <= ONE_BITS,
    ensures
        v.significand() <= pow2((-v.power()) as nat),
        v.magnitude() == ONE_BITS <==> v.significand() == pow2((-v.power()) as nat),
        v.magnitude() == 0 <==> v.significand() == 0,
{
    lemma2_to64();
    let m = v.magnitude();
    let k = (-v.power()) as nat;
    if m / 0x80_0000 < 127 {
        lemma_pow2_bounds(24, k);
    } else {
        assert(m == ONE_BITS);
    }
}

/// 1 times a number is the number.
pub proof fn law_one_times_a_number_is_it(v: Single, n: nat)
    requires
        v.magnitude() == ONE_BITS,
        n <= 255,
    ensures
        v.whole_product(n) == n,
{
    lemma2_to64();
    let p = n * v.significand();
    assert(v.significand() == 0x80_0000 && v.power() == -23);
    assert(p == n * 0x80_0000);
    let s = excess(p);
    lemma_excess_small(p, 8);
    assert(s == 0 || s == 1 || s == 2 || s == 3 || s == 4 || s == 5 || s == 6 || s == 7 || s == 8);
    let u = pow2(s);
    assert(p % u == 0 && p / u * u == p);
    assert(half_even(p, s) == p / u);
    assert(half_even(p, s) * pow2(s) == p);
    assert(pow2(23) == 0x80_0000);
    assert((-v.power()) as nat == 23);
    assert(p / 0x80_0000 == n);
}

/// A product kept within 0.05 and 1 is the nearest single-precision number to the exact product: between
/// the bounds it is off by half a unit of its last place at most, and it is a bound only where the
/// exact product reaches it, but for a unit of the last place. Factors of one sign are meant, neither
/// of them nothing nor infinite.
pub proof fn law_products_within_bounds_are_nearest(v: Single, factor: Single)
    requires
        v.negative() == factor.negative(),
        0 < v.magnitude() < INFINITY_BITS,
        0 < factor.magnitude() < INFINITY_BITS,
    ensures
        ({
            let r = v.product_within(factor);
            let p = v.significand() * factor.significand();
            let x = v.power() + factor.power();
            let k = r.power() - x;
            &&& TWENTIETH_BITS <= r.bits <= ONE_BITS
            &&& TWENTIETH_BITS < r.bits < ONE_BITS ==> k >= 0 && -pow2(k as nat) <= 2 * (
            r.significand() * pow2(k as nat) - p) <= pow2(k as nat)
            &&& r.bits == TWENTIETH_BITS ==> x < 0 && p * 0x1000_0000 <= 0xCC_CCCE * pow2((-x) as nat)
            &&& r.bits == ONE_BITS && x < 0 ==> p * 0x100_0000 >= 0xFF_FFFF * pow2((-x) as nat)
        }),
{
    let p = v.significand() * factor.significand();
    let x = v.power() + factor.power();
    let s = excess(p);
    let e = x + s;
    let q = half_even(p, s);
    let u = pow2(s) as int;
    let r = v.product_within(factor);
    lemma2_to64();
    lemma_product_within_range(v, factor);
    lemma_excess(p);
    lemma_pow2_pos(s);
    lemma_half_even_nearest(p, s);
    let n = p as int;
    assert(n < 0x100_0000 * u) by (nonlinear_arith)
        requires
            n / u < 0x100_0000,
            u > 0,
            n >= 0,
    ;
    if e >= -28 {
        lemma_both_large(v, factor);
        assert(s > 0);
        assert(n >= 0x80_0000 * u) by (nonlinear_arith)
            requires
                n / u >= 0x80_0000,
                u > 0,
                n >= 0,
        ;
        assert(0x80_0000 <= q <= 0x100_0000) by {
            assert(q == n / u || q == n / u + 1);
        }
    }
    if e < -28 {
        assert(r.bits == TWENTIETH_BITS);
        vstd::arithmetic::power2::lemma_pow2_adds(s, (-e) as nat);
        assert((-x) as nat == s + (-e) as nat);
        lemma_pow2_bounds(29, (-e) as nat);
        let w = pow2((-e) as nat) as int;
        assert(n * 0x1000_0000 <= 0xCC_CCCE * (u * w)) by (nonlinear_arith)
            requires
                n < 0x100_0000 * u,
                w >= 0x2000_0000,
                u > 0,
        ;
    } else if e >= -23 {
        assert(r.bits == ONE_BITS);
        if x < 0 {
            let w = pow2((-x) as nat) as int;
            if e <= 0 {
                vstd::arithmetic::power2::lemma_pow2_adds(s, (-e) as nat);
                assert((-x) as nat == s + (-e) as nat);
                lemma_pow2_bounds((-e) as nat, 23);
                let y = pow2((-e) as nat) as int;
                assert(n * 0x100_0000 >= 0xFF_FFFF * (u * y)) by (nonlinear_arith)
                    requires
                        n >= 0x80_0000 * u,
                        0 < y <= 0x80_0000,
                        u > 0,
                ;
            } else {
                lemma_pow2_bounds((-x) as nat, s);
                assert(n * 0x100_0000 >= 0xFF_FFFF * w) by (nonlinear_arith)
                    requires
                        n >= 0x80_0000 * u,
                        0 < w <= u,
                ;
            }
        }
    } else {
        let bits = (e + 149) * 0x80_0000 + q;
        assert(e == -28 || e == -27 || e == -26 || e == -25 || e == -24);
        vstd::arithmetic::power2::lemma_pow2_adds(s, (-e) as nat);
        assert((-x) as nat == s + (-e) as nat);
        let qi = q as int;
        if r.bits == TWENTIETH_BITS {
            assert(e == -28 && qi <= 0xCC_CCCD);
            assert(n * 0x1000_0000 <= 0xCC_CCCE * (u * 0x1000_0000)) by (nonlinear_arith)
                requires
                    2 * n - u <= 2 * (qi * u),
                    qi <= 0xCC_CCCD,
                    u > 0,
            ;
        } else if r.bits == ONE_BITS {
            assert(e == -24 && qi == 0x100_0000);
            assert(n * 0x100_0000 >= 0xFF_FFFF * (u * 0x100_0000)) by (nonlinear_arith)
                requires
                    2 * (qi * u) <= 2 * n + u,
                    qi == 0x100_0000,
                    u > 0,
            ;
        } else {
            assert(r.bits == bits);
            if q < 0x100_0000 {
                assert(r.power() == e && r.significand() == q);
                assert((r.power() - x) as nat == s);
            } else {
                assert(bits == (e + 151) * 0x80_0000);
                assert(r.power() == e + 1 && r.significand() == 0x80_0000);
                assert((r.power() - x) as nat == s + 1);
                lemma_pow2_unfold(s + 1);
                assert(0x80_0000 * pow2(s + 1) == q * pow2(s)) by (nonlinear_arith)
                    requires
                        pow2(s + 1) == 2 * pow2(s),
                        q == 0x100_0000,
                ;
            }
        }
    }
}

/// Factors whose product is not far below 1 have long significands.
proof fn lemma_both_large(v: Single, factor: Single)
    requires
        0 < v.magnitude() < INFINITY_BITS,
        0 < factor.magnitude() < INFINITY_BITS,
        v.power() + factor.power() + excess(v.significand() * factor.significand()) >= -28,
    ensures
        v.significand() * factor.significand() >= 0x100_0000,
        excess(v.significand() * factor.significand()) > 0,
{
    let a = v.significand();
    let b = factor.significand();
    if a * b < 0x100_0000 {
        assert(excess(a * b) == 0);
        assert(a < 0x80_0000 || b < 0x80_0000) by (nonlinear_arith)
            requires
                a * b < 0x100_0000,
        ;
        assert(v.power() <= 104 && factor.power() <= 104);
        assert(false);
    }
}

/// The patterns of numbers that are not negative order as the numbers do, in units of 2^-149: a pattern is
/// the smaller exactly when its number is.
pub proof fn law_patterns_order_as_their_numbers(v: Single, w: Single)
    requires
        v.bits < INFINITY_BITS,
        w.bits < INFINITY_BITS,
    ensures
        v.below(w) <==> v.significand() * pow2((v.power() + 149) as nat) < w.significand() * pow2(
            (w.power() + 149) as nat,
        ),
        v.equals(w) <==> v.bits == w.bits,
{
    lemma_larger_pattern(v, w);
    lemma_larger_pattern(w, v);
}

proof fn lemma_larger_pattern(v: Single, w: Single)
    requires
        v.bits < INFINITY_BITS,
        w.bits < INFINITY_BITS,
    ensures
        v.bits < w.bits ==> v.significand() * pow2((v.power() + 149) as nat) < w.significand() * pow2(
            (w.power() + 149) as nat,
        ),
        v.bits == w.bits ==> v.significand() * pow2((v.power() + 149) as nat) == w.significand() * pow2(
            (w.power() + 149) as nat,
        ),
{
    if v.bits < w.bits {
        let i = (v.power() + 149) as nat;
        let j = (w.power() + 149) as nat;
        let a = v.significand() as int;
        let b = w.significand() as int;
        let x = pow2(i) as int;
        let y = pow2(j) as int;
        lemma_pow2_pos(i);
        assert(v.magnitude() == v.bits && w.magnitude() == w.bits);
        if i == j {
            assert(a < b);
            assert(a * x < b * x) by (nonlinear_arith)
                requires
                    a < b,
                    x > 0,
            ;
        } else {
            assert(i < j);
            assert(b >= 0x80_0000 && a < 0x100_0000);
            lemma_pow2_bounds(i + 1, j);
            lemma_pow2_unfold(i + 1);
            assert(a * x < b * y) by (nonlinear_arith)
                requires
                    a < 0x100_0000,
                    b >= 0x80_0000,
                    y >= 2 * x,
                    x > 0,
            ;
        }
    }
}

} // verus!
