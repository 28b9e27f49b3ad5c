//! Double-precision arithmetic on the clock.
//!
//! Where a moment falls in a bar, and when a tick of a bar is due, are worked out in seconds with
//! double precision. Every number there is a significand of 53 bits times a power of two, and every
//! sum, product and quotient is rounded to the nearest such number, a tie to the even one. None of
//! them is negative, none is near the ends of the exponent's range, and all of it is done here in
//! integers.

use vstd::arithmetic::power2::{
    lemma2_to64, lemma2_to64_rest, lemma_pow2_adds, lemma_pow2_pos, lemma_pow2_strictly_increases,
    lemma_pow2_unfold, pow2,
};
use vstd::prelude::*;

verus! {

/// 2^52, the smallest significand.
pub const LEAST_SIGNIFICAND: u64 = 0x10_0000_0000_0000;

/// 2^53, which no significand exceeds.
pub const SIGNIFICAND_LIMIT: u64 = 0x20_0000_0000_0000;

/// Nanoseconds of a second.
pub const SECOND: u64 = 1_000_000_000;

// -----------------------------------------------------------------------------
// Numbers
// -----------------------------------------------------------------------------

/// A number: `significand * 2^exponent`.
#[verifier::ext_equal]
pub struct Binary {
    pub significand: int,
    pub exponent: int,
}

/// A double-precision number that is not negative.
#[derive(Copy, Clone, Debug, PartialEq, Eq, Structural)]
pub struct Double {
    pub significand: u64,
    pub exponent: i32,
}

impl View for Double {
    type V = Binary;

    open spec fn view(&self) -> Binary {
        Binary { significand: self.significand as int, exponent: self.exponent as int }
    }
}

/// Zero.
pub open spec fn zero() -> Binary {
    Binary { significand: 0, exponent: 0 }
}

/// `num / den` to the nearest whole number, a tie to the even one.
pub open spec fn nearest(num: int, den: int) -> int {
    let q = num / den;
    let twice = 2 * (num % den);
    if twice > den || (twice == den && q % 2 == 1) {
        q + 1
    } else {
        q
    }
}

/// `num` doubled until `num / den` is a significand or more, and the exponent lowered with it.
pub open spec fn grown(num: int, den: int, exponent: int) -> (int, int)
    decreases SIGNIFICAND_LIMIT * den - num,
{
    if num <= 0 || num >= LEAST_SIGNIFICAND * den {
        (num, exponent)
    } else {
        grown(2 * num, den, exponent - 1)
    }
}

/// `den` doubled until `num / den` is less than the limit, and the exponent raised with it.
pub open spec fn shrunk(num: int, den: int, exponent: int) -> (int, int)
    decreases 2 * num - SIGNIFICAND_LIMIT * den,
{
    if den <= 0 || num < SIGNIFICAND_LIMIT * den {
        (den, exponent)
    } else {
        shrunk(num, 2 * den, exponent + 1)
    }
}

/// The double-precision number nearest to `num / den * 2^exponent`, a tie to the even one.
pub open spec fn rounded(num: int, den: int, exponent: int) -> Binary {
    if num <= 0 {
        zero()
    } else if num < LEAST_SIGNIFICAND * den {
        let (n, e) = grown(num, den, exponent);
        Binary { significand: nearest(n, den), exponent: e }
    } else {
        let (d, e) = shrunk(num, den, exponent);
        Binary { significand: nearest(num, d), exponent: e }
    }
}

impl Binary {
    /// The quotient.
    pub open spec fn over(self, other: Binary) -> Binary {
        rounded(self.significand, other.significand, self.exponent - other.exponent)
    }

    /// The product.
    pub open spec fn times(self, other: Binary) -> Binary {
        rounded(self.significand * other.significand, 1, self.exponent + other.exponent)
    }

    /// What is left without the whole part.
    pub open spec fn fraction(self) -> Binary {
        if self.exponent >= 0 {
            zero()
        } else {
            Binary {
                significand: self.significand % pow2((-self.exponent) as nat) as int,
                exponent: self.exponent,
            }
        }
    }

    /// The whole part.
    pub open spec fn whole(self) -> int {
        if self.exponent >= 0 {
            self.significand * pow2(self.exponent as nat)
        } else {
            self.significand / pow2((-self.exponent) as nat) as int
        }
    }

    /// A number of seconds to the nearest nanosecond, a tie to the even one.
    pub open spec fn nanoseconds(self) -> int {
        if self.exponent >= 0 {
            self.significand * SECOND * pow2(self.exponent as nat)
        } else {
            nearest(self.significand * SECOND, pow2((-self.exponent) as nat) as int)
        }
    }

    /// The significand is one that rounding gives.
    pub open spec fn normal(self) -> bool {
        self.significand == 0 || LEAST_SIGNIFICAND <= self.significand <= SIGNIFICAND_LIMIT
    }
}

/// Nanoseconds as seconds: the whole seconds and the rest of a second, which is rounded first, added
/// up.
pub open spec fn seconds(nanos: int) -> Binary {
    let whole = nanos / SECOND as int;
    let rest = rounded(nanos % SECOND as int, SECOND as int, 0);
    if rest.significand == 0 {
        rounded(whole, 1, 0)
    } else {
        rounded(whole * pow2((-rest.exponent) as nat) + rest.significand, 1, rest.exponent)
    }
}

/// How long a share of some nanoseconds lasts: the share as a number, times the seconds, in
/// nanoseconds again.
pub open spec fn share(nanos: int, num: int, den: int) -> int {
    seconds(nanos).times(rounded(num, den, 0)).nanoseconds()
}

// -----------------------------------------------------------------------------
// Rounding
// -----------------------------------------------------------------------------

proof fn lemma_grown(num: int, den: int, exponent: int)
    requires
        0 < num,
        0 < den,
    ensures
        ({
            let (n, e) = grown(num, den, exponent);
            &&& e <= exponent
            &&& n == num * pow2((exponent - e) as nat)
            &&& LEAST_SIGNIFICAND * den <= n
            &&& num < LEAST_SIGNIFICAND * den ==> n < SIGNIFICAND_LIMIT * den
        }),
    decreases SIGNIFICAND_LIMIT * den - num,
{
    lemma2_to64();
    if num < LEAST_SIGNIFICAND * den {
        lemma_grown(2 * num, den, exponent - 1);
        let (n, e) = grown(num, den, exponent);
        let k = (exponent - 1 - e) as nat;
        lemma_pow2_unfold(k + 1);
        assert(2 * num * pow2(k) == num * (2 * pow2(k))) by (nonlinear_arith);
        assert((exponent - e) as nat == k + 1);
        if 2 * num >= LEAST_SIGNIFICAND * den {
            assert(grown(2 * num, den, exponent - 1) == (2 * num, exponent - 1));
        }
    } else {
        assert(num * pow2(0) == num) by (nonlinear_arith)
            requires
                pow2(0) == 1,
        ;
    }
}

proof fn lemma_shrunk(num: int, den: int, exponent: int)
    requires
        LEAST_SIGNIFICAND * den <= num,
        0 < den,
    ensures
        ({
            let (d, e) = shrunk(num, den, exponent);
            &&& exponent <= e
            &&& d == den * pow2((e - exponent) as nat)
            &&& LEAST_SIGNIFICAND * d <= num < SIGNIFICAND_LIMIT * d
        }),
    decreases 2 * num - SIGNIFICAND_LIMIT * den,
{
    lemma2_to64();
    if num >= SIGNIFICAND_LIMIT * den {
        lemma_shrunk(num, 2 * den, exponent + 1);
        let (d, e) = shrunk(num, den, exponent);
        let k = (e - exponent - 1) as nat;
        lemma_pow2_unfold(k + 1);
        assert(2 * den * pow2(k) == den * (2 * pow2(k))) by (nonlinear_arith);
        assert((e - exponent) as nat == k + 1);
    } else {
        assert(den * pow2(0) == den) by (nonlinear_arith)
            requires
                pow2(0) == 1,
        ;
    }
}

proof fn lemma_nearest(num: int, den: int)
    requires
        0 <= num,
        0 < den,
    ensures
        0 <= nearest(num, den),
        -den <= 2 * (nearest(num, den) * den - num) <= den,
        forall|q: int| -den < 2 * (#[trigger] (q * den) - num) < den ==> nearest(num, den) == q,
        forall|a: int| num >= #[trigger] (a * den) ==> nearest(num, den) >= a,
        forall|b: int| num <= #[trigger] (b * den) ==> nearest(num, den) <= b,
{
    let q = num / den;
    let r = num % den;
    vstd::arithmetic::div_mod::lemma_fundamental_div_mod(num, den);
    vstd::arithmetic::div_mod::lemma_mod_bound(num, den);
    assert(q >= 0) by (nonlinear_arith)
        requires
            q == num / den,
            0 <= num,
            0 < den,
    ;
    assert(den * q == q * den) by (nonlinear_arith);
    assert((q + 1) * den == q * den + den) by (nonlinear_arith);
    let n = nearest(num, den);
    assert forall|p: int| -den < 2 * (#[trigger] (p * den) - num) < den implies n == p by {
        assert(p == q || p == q + 1) by (nonlinear_arith)
            requires
                num == q * den + r,
                0 <= r < den,
                -den < 2 * (p * den - num) < den,
                0 < den,
        ;
    }
    assert forall|a: int| num >= #[trigger] (a * den) implies n >= a by {
        assert(q >= a) by (nonlinear_arith)
            requires
                num == q * den + r,
                0 <= r < den,
                num >= a * den,
                0 < den,
        ;
    }
    assert forall|b: int| num <= #[trigger] (b * den) implies n <= b by {
        assert(q < b || (q == b && r == 0)) by (nonlinear_arith)
            requires
                num == q * den + r,
                0 <= r < den,
                num <= b * den,
                0 < den,
        ;
    }
}

/// Where rounding puts a number that is not zero: its significand has 53 bits.
proof fn lemma_rounded(num: int, den: int, exponent: int)
    requires
        0 < num,
        0 < den,
    ensures
        ({
            let r = rounded(num, den, exponent);
            &&& LEAST_SIGNIFICAND <= r.significand <= SIGNIFICAND_LIMIT
            &&& num < LEAST_SIGNIFICAND * den ==> r.exponent < exponent
            &&& num >= LEAST_SIGNIFICAND * den ==> r.exponent >= exponent
            &&& r.exponent <= exponent ==> ({
                let n = num * pow2((exponent - r.exponent) as nat);
                &&& LEAST_SIGNIFICAND * den <= n < SIGNIFICAND_LIMIT * den
                &&& r.significand == nearest(n, den)
            })
            &&& r.exponent >= exponent ==> ({
                let d = den * pow2((r.exponent - exponent) as nat);
                &&& LEAST_SIGNIFICAND * d <= num < SIGNIFICAND_LIMIT * d
                &&& r.significand == nearest(num, d)
            })
        }),
{
    lemma2_to64();
    let r = rounded(num, den, exponent);
    if num < LEAST_SIGNIFICAND * den {
        lemma_grown(num, den, exponent);
        let n = grown(num, den, exponent).0;
        lemma_nearest(n, den);
    } else {
        lemma_shrunk(num, den, exponent);
        let d = shrunk(num, den, exponent).0;
        lemma_pow2_pos((r.exponent - exponent) as nat);
        assert(d > 0) by (nonlinear_arith)
            requires
                d == den * pow2((r.exponent - exponent) as nat),
                den > 0,
                pow2((r.exponent - exponent) as nat) > 0,
        ;
        lemma_nearest(num, d);
        if r.exponent == exponent {
            assert(num * pow2(0) == num);
            assert(den * pow2(0) == den);
        }
    }
}

proof fn lemma_pow2_constants()
    ensures
        pow2(0) == 1,
        pow2(1) == 2,
        pow2(30) == 0x4000_0000,
        pow2(52) == LEAST_SIGNIFICAND,
        pow2(53) == SIGNIFICAND_LIMIT,
        pow2(74) == 0x400_0000_0000_0000_0000,
        pow2(83) == 0x8_0000_0000_0000_0000_0000,
        pow2(126) == 0x4000_0000_0000_0000_0000_0000_0000_0000,
{
    lemma2_to64();
    lemma2_to64_rest();
    lemma_pow2_adds(64, 10);
    lemma_pow2_adds(64, 19);
    lemma_pow2_adds(64, 62);
}

proof fn lemma_pow2_ordered(a: nat, b: nat)
    ensures
        a <= b ==> pow2(a) <= pow2(b),
        pow2(a) < pow2(b) ==> a < b,
        pow2(a) > 0,
{
    lemma_pow2_pos(a);
    if a < b {
        lemma_pow2_strictly_increases(a, b);
    }
    if b < a {
        lemma_pow2_strictly_increases(b, a);
    }
}

/// `num / den` to the nearest whole number, a tie to the even one.
fn nearest_whole(num: u128, den: u128) -> (r: u128)
    requires
        0 < den <= 0x4000_0000_0000_0000_0000_0000_0000_0000,
    ensures
        r == nearest(num as int, den as int),
{
    let q: u128 = num / den;
    let twice: u128 = 2 * (num % den);
    if twice > den || (twice == den && q % 2 == 1) {
        assert(q < u128::MAX) by (nonlinear_arith)
            requires
                q == num / den,
                den >= 1,
                2 * (num % den) >= den,
                num <= u128::MAX,
        ;
        q + 1
    } else {
        q
    }
}

/// The double-precision number nearest to `num / den * 2^exponent`.
fn round(num: u128, den: u128, exponent: i32) -> (r: Double)
    requires
        num < 0x4000_0000_0000_0000_0000_0000_0000_0000,
        0 < den <= 0x400_0000_0000_0000_0000,
        -1000 <= exponent <= 1000,
    ensures
        r@ == rounded(num as int, den as int, exponent as int),
        r@.normal(),
        num > 0 ==> r.significand >= LEAST_SIGNIFICAND,
        num > 0 ==> exponent - 130 <= r.exponent <= exponent + 130,
        num == 0 ==> r.exponent == 0,
{
    if num == 0 {
        return Double { significand: 0, exponent: 0 };
    }
    let mut n: u128 = num;
    let mut d: u128 = den;
    let mut e: i32 = exponent;
    proof {
        lemma_pow2_constants();
        lemma_rounded(num as int, den as int, exponent as int);
    }
    if num < LEAST_SIGNIFICAND as u128 * den {
        while n < LEAST_SIGNIFICAND as u128 * den
            invariant
                0 < num,
                0 < n < 0x8000_0000_0000_0000_0000_0000_0000_0000,
                0 < den <= 0x400_0000_0000_0000_0000,
                exponent - 127 <= e <= exponent,
                -1000 <= exponent <= 1000,
                pow2(126) == 0x4000_0000_0000_0000_0000_0000_0000_0000,
                n >= pow2((exponent - e) as nat),
                grown(num as int, den as int, exponent as int) == grown(n as int, den as int, e as int),
            decreases SIGNIFICAND_LIMIT * den - n,
        {
            proof {
                lemma_pow2_ordered((exponent - e) as nat, 126);
                lemma_pow2_unfold((exponent - e + 1) as nat);
            }
            assert(n < 0x4000_0000_0000_0000_0000_0000_0000_0000) by (nonlinear_arith)
                requires
                    n < 0x10_0000_0000_0000 * den,
                    den <= 0x400_0000_0000_0000_0000,
            ;
            n = 2 * n;
            e = e - 1;
        }
        proof {
            lemma_grown(num as int, den as int, exponent as int);
        }
    } else {
        while n >= SIGNIFICAND_LIMIT as u128 * d
            invariant
                n == num,
                n < 0x4000_0000_0000_0000_0000_0000_0000_0000,
                0 < d <= 0x400_0000_0000_0000_0000,
                SIGNIFICAND_LIMIT * d <= 0x8000_0000_0000_0000_0000_0000_0000_0000,
                exponent <= e <= exponent + 75,
                -1000 <= exponent <= 1000,
                pow2(74) == 0x400_0000_0000_0000_0000,
                d >= pow2((e - exponent) as nat),
                shrunk(num as int, den as int, exponent as int) == shrunk(n as int, d as int, e as int),
            decreases 2 * n - SIGNIFICAND_LIMIT * d,
        {
            proof {
                lemma_pow2_ordered((e - exponent) as nat, 74);
                lemma_pow2_unfold((e - exponent + 1) as nat);
            }
            assert(d <= 0x200_0000_0000_0000_0000) by (nonlinear_arith)
                requires
                    n >= 0x20_0000_0000_0000 * d,
                    n < 0x4000_0000_0000_0000_0000_0000_0000_0000,
            ;
            d = 2 * d;
            e = e + 1;
        }
    }
    let m: u128 = nearest_whole(n, d);
    Double { significand: m as u64, exponent: e }
}

/// 2^k.
fn power(k: u32) -> (r: u128)
    requires
        k <= 126,
    ensures
        r == pow2(k as nat),
        0 < r <= 0x4000_0000_0000_0000_0000_0000_0000_0000,
    decreases k,
{
    proof {
        lemma_pow2_constants();
    }
    if k == 0 {
        1
    } else {
        proof {
            lemma_pow2_unfold(k as nat);
            lemma_pow2_ordered(k as nat, 126);
        }
        2 * power(k - 1)
    }
}

/// The rest of a second is less than one, so its exponent is at least -82.
proof fn lemma_rest(rest: int)
    requires
        0 < rest < SECOND,
    ensures
        ({
            let f = rounded(rest, SECOND as int, 0);
            &&& LEAST_SIGNIFICAND <= f.significand <= SIGNIFICAND_LIMIT
            &&& 52 <= -f.exponent <= 82
            &&& f.significand == nearest(rest * pow2((-f.exponent) as nat), SECOND as int)
        }),
{
    lemma_pow2_constants();
    lemma_rounded(rest, SECOND as int, 0);
    let f = rounded(rest, SECOND as int, 0);
    let k = (-f.exponent) as nat;
    let c = pow2(k) as int;
    assert(c < 0x8_0000_0000_0000_0000_0000) by (nonlinear_arith)
        requires
            rest * c < 0x20_0000_0000_0000 * 1_000_000_000,
            rest >= 1,
            c >= 0,
    ;
    assert(c > 0x8_0000_0000_0000) by (nonlinear_arith)
        requires
            0x10_0000_0000_0000 * 1_000_000_000 <= rest * c,
            rest < 1_000_000_000,
            c >= 0,
    ;
    lemma_pow2_ordered(k, 83);
    lemma2_to64_rest();
    lemma_pow2_ordered(51, k);
}

impl Double {
    /// Nanoseconds as seconds.
    pub fn seconds(nanos: u64) -> (r: Self)
        ensures
            r@ == seconds(nanos as int),
            r@.normal(),
            nanos > 0 ==> r.significand >= LEAST_SIGNIFICAND,
            -300 <= r.exponent <= 300,
    {
        let whole: u64 = nanos / SECOND;
        let rest: Double = round((nanos % SECOND) as u128, SECOND as u128, 0);
        if rest.significand == 0 {
            return round(whole as u128, 1, 0);
        }
        proof {
            lemma_rest(nanos as int % SECOND as int);
            lemma_pow2_constants();
            lemma_pow2_ordered((-rest.exponent) as nat, 83);
            assert(whole * pow2((-rest.exponent) as nat) <= 0x8_0000_0000 * 0x8_0000_0000_0000_0000_0000)
                by (nonlinear_arith)
                requires
                    whole <= 0x8_0000_0000,
                    pow2((-rest.exponent) as nat) <= 0x8_0000_0000_0000_0000_0000,
            ;
        }
        let unit: u128 = power((-rest.exponent) as u32);
        round(whole as u128 * unit + rest.significand as u128, 1, rest.exponent)
    }

    /// The number nearest to `num / den`.
    pub fn ratio(num: u64, den: u64) -> (r: Self)
        requires
            0 < den,
        ensures
            r@ == rounded(num as int, den as int, 0),
            r@.normal(),
            -130 <= r.exponent <= 130,
    {
        round(num as u128, den as u128, 0)
    }

    /// The quotient.
    pub fn over(self, other: Self) -> (r: Self)
        requires
            self@.normal(),
            other@.normal(),
            other.significand > 0,
            -300 <= self.exponent <= 300,
            -300 <= other.exponent <= 300,
        ensures
            r@ == self@.over(other@),
            r@.normal(),
            -800 <= r.exponent <= 800,
    {
        round(self.significand as u128, other.significand as u128, self.exponent - other.exponent)
    }

    /// The product.
    pub fn times(self, other: Self) -> (r: Self)
        requires
            self.significand <= SIGNIFICAND_LIMIT,
            other.significand <= SIGNIFICAND_LIMIT,
            -1000 <= self.exponent + other.exponent <= 1000,
            -1000 <= self.exponent <= 1000,
            -1000 <= other.exponent <= 1000,
        ensures
            r@ == self@.times(other@),
            r@.normal(),
            -1130 <= r.exponent <= 1130,
    {
        assert(0 <= self.significand * other.significand <= 0x20_0000_0000_0000
            * 0x20_0000_0000_0000) by (nonlinear_arith)
            requires
                self.significand <= 0x20_0000_0000_0000,
                other.significand <= 0x20_0000_0000_0000,
        ;
        round(
            self.significand as u128 * other.significand as u128,
            1,
            self.exponent + other.exponent,
        )
    }

    /// What is left without the whole part.
    pub fn fraction(self) -> (r: Self)
        requires
            self@.normal(),
            -2000 <= self.exponent <= 2000,
        ensures
            r@ == self@.fraction(),
            r.significand <= self.significand,
            r.exponent == 0 || r.exponent == self.exponent,
    {
        if self.exponent >= 0 {
            return Double { significand: 0, exponent: 0 };
        }
        let k: u32 = (-self.exponent) as u32;
        proof {
            lemma_pow2_constants();
            lemma_pow2_ordered(54, k as nat);
            lemma_pow2_unfold(54);
        }
        if k >= 54 {
            proof {
                vstd::arithmetic::div_mod::lemma_small_mod(
                    self.significand as nat,
                    pow2(k as nat),
                );
            }
            return self;
        }
        let unit: u128 = power(k);
        let left: u128 = self.significand as u128 % unit;
        assert(left <= self.significand) by (nonlinear_arith)
            requires
                left == self.significand as int % unit as int,
                unit > 0,
                self.significand >= 0,
        ;
        Double { significand: left as u64, exponent: self.exponent }
    }

    /// The whole part, or `most` where it is more.
    pub fn whole_up_to(self, most: u64) -> (r: u64)
        requires
            self@.normal(),
            most < LEAST_SIGNIFICAND,
            -2000 <= self.exponent <= 2000,
        ensures
            r == (if self@.whole() > most {
                most as int
            } else {
                self@.whole()
            }),
    {
        if self.exponent >= 0 {
            proof {
                let p = pow2(self.exponent as nat) as int;
                lemma_pow2_pos(self.exponent as nat);
                assert(self.significand * p >= self.significand) by (nonlinear_arith)
                    requires
                        p >= 1,
                        self.significand >= 0,
                ;
                assert(0 * p == 0);
            }
            return if self.significand == 0 {
                0
            } else {
                most
            };
        }
        let k: u32 = (-self.exponent) as u32;
        proof {
            lemma_pow2_constants();
            lemma_pow2_ordered(54, k as nat);
            lemma_pow2_unfold(54);
        }
        if k >= 54 {
            proof {
                vstd::arithmetic::div_mod::lemma_basic_div(
                    self.significand as int,
                    pow2(k as nat) as int,
                );
            }
            return 0;
        }
        let unit: u128 = power(k);
        let whole: u128 = self.significand as u128 / unit;
        if whole > most as u128 {
            most
        } else {
            whole as u64
        }
    }

    /// A number of seconds to the nearest nanosecond.
    pub fn nanoseconds(self) -> (r: u64)
        requires
            self@.normal(),
            self@.nanoseconds() <= u64::MAX,
            -2000 <= self.exponent <= 2000,
        ensures
            r == self@.nanoseconds(),
    {
        if self.exponent >= 0 {
            proof {
                let p = pow2(self.exponent as nat) as int;
                lemma_pow2_pos(self.exponent as nat);
                assert(self.significand * SECOND * p >= self.significand * SECOND) by (nonlinear_arith)
                    requires
                        p >= 1,
                        self.significand >= 0,
                        SECOND >= 0,
                ;
                assert(0 * SECOND * p == 0) by (nonlinear_arith);
            }
            return 0;
        }
        let k: u32 = (-self.exponent) as u32;
        let nanos: u128 = self.significand as u128 * SECOND as u128;
        proof {
            lemma_pow2_constants();
            lemma_pow2_ordered(126, k as nat);
        }
        if k > 126 {
            proof {
                lemma_nearest(nanos as int, pow2(k as nat) as int);
                assert(0 * (pow2(k as nat) as int) == 0);
            }
            return 0;
        }
        nearest_whole(nanos, power(k)) as u64
    }
}

// -----------------------------------------------------------------------------
// Laws
// -----------------------------------------------------------------------------

proof fn lemma_nearest_scaled(num: int, den: int, c: int)
    requires
        0 <= num,
        0 < den,
        0 < c,
    ensures
        nearest(num * c, den * c) == nearest(num, den),
{
    let q = num / den;
    let r = num % den;
    vstd::arithmetic::div_mod::lemma_fundamental_div_mod(num, den);
    vstd::arithmetic::div_mod::lemma_mod_bound(num, den);
    assert(0 < den * c) by (nonlinear_arith)
        requires
            0 < den,
            0 < c,
    ;
    assert(num * c == q * (den * c) + r * c && 0 <= r * c < den * c) by (nonlinear_arith)
        requires
            num == den * q + r,
            0 <= r < den,
            0 < c,
    ;
    vstd::arithmetic::div_mod::lemma_fundamental_div_mod_converse(num * c, den * c, q, r * c);
    assert(2 * (r * c) > den * c <==> 2 * r > den) by (nonlinear_arith)
        requires
            0 < c,
    ;
    assert(2 * (r * c) == den * c <==> 2 * r == den) by (nonlinear_arith)
        requires
            0 < c,
    ;
}

proof fn lemma_nearest_monotone(a: int, b: int, den: int)
    requires
        0 <= a <= b,
        0 < den,
    ensures
        nearest(a, den) <= nearest(b, den),
{
    let p = a / den;
    let q = b / den;
    let r = a % den;
    let t = b % den;
    vstd::arithmetic::div_mod::lemma_fundamental_div_mod(a, den);
    vstd::arithmetic::div_mod::lemma_fundamental_div_mod(b, den);
    vstd::arithmetic::div_mod::lemma_mod_bound(a, den);
    vstd::arithmetic::div_mod::lemma_mod_bound(b, den);
    assert(p < q || (p == q && r <= t)) by (nonlinear_arith)
        requires
            a == den * p + r,
            b == den * q + t,
            0 <= r < den,
            0 <= t < den,
            a <= b,
    ;
}

proof fn lemma_shrunk_scaled(num: int, den: int, exponent: int)
    requires
        0 < den,
        0 < num,
    ensures
        shrunk(2 * num, 2 * den, exponent).0 == 2 * shrunk(num, den, exponent).0,
        shrunk(2 * num, 2 * den, exponent).1 == shrunk(num, den, exponent).1,
    decreases 2 * num - SIGNIFICAND_LIMIT * den,
{
    if num >= SIGNIFICAND_LIMIT * den {
        lemma_shrunk_scaled(num, 2 * den, exponent + 1);
    }
}

proof fn lemma_rounded_doubled(num: int, den: int, exponent: int)
    requires
        0 < num,
        0 < den,
    ensures
        rounded(2 * num, den, exponent) == rounded(num, den, exponent + 1),
{
    if num < LEAST_SIGNIFICAND * den {
        assert(grown(num, den, exponent + 1) == grown(2 * num, den, exponent));
        if 2 * num >= LEAST_SIGNIFICAND * den {
            assert(grown(2 * num, den, exponent) == (2 * num, exponent));
            assert(shrunk(2 * num, den, exponent) == (den, exponent));
        }
    } else {
        assert(shrunk(2 * num, den, exponent) == shrunk(2 * num, 2 * den, exponent + 1));
        lemma_shrunk_scaled(num, den, exponent + 1);
        lemma_shrunk(num, den, exponent + 1);
        let (d, e) = shrunk(num, den, exponent + 1);
        assert(0 < d) by {
            if d <= 0 {
                assert(LEAST_SIGNIFICAND * d <= 0);
            }
        }
        lemma_nearest_scaled(num, d, 2);
    }
}

/// A power of two can be moved from the number to the exponent.
proof fn lemma_rounded_scaled(num: int, den: int, exponent: int, k: nat)
    requires
        0 < num,
        0 < den,
    ensures
        rounded(num * pow2(k), den, exponent) == rounded(num, den, exponent + k),
    decreases k,
{
    lemma2_to64();
    if k == 0 {
        assert(num * pow2(0) == num) by (nonlinear_arith)
            requires
                pow2(0) == 1,
        ;
    } else {
        lemma_pow2_unfold(k);
        let half = pow2((k - 1) as nat) as int;
        lemma_pow2_pos((k - 1) as nat);
        assert(num * pow2(k) == 2 * (num * half) && num * half > 0) by (nonlinear_arith)
            requires
                pow2(k) == 2 * half,
                half > 0,
                num > 0,
        ;
        lemma_rounded_doubled(num * half, den, exponent);
        lemma_rounded_scaled(num, den, exponent + 1, (k - 1) as nat);
    }
}

/// Where a number lies, on a scale on which every exponent is a power.
proof fn lemma_rounded_on_scale(num: int, den: int, exponent: int, base: int)
    requires
        0 < num,
        0 < den,
        0 <= exponent + base,
        0 <= rounded(num, den, exponent).exponent + base,
    ensures
        ({
            let unit = den * pow2((rounded(num, den, exponent).exponent + base) as nat);
            LEAST_SIGNIFICAND * unit <= num * pow2((exponent + base) as nat) < SIGNIFICAND_LIMIT
                * unit
        }),
{
    lemma_rounded(num, den, exponent);
    let r = rounded(num, den, exponent);
    let x = pow2((exponent + base) as nat) as int;
    let y = pow2((r.exponent + base) as nat) as int;
    lemma_pow2_pos((exponent + base) as nat);
    lemma_pow2_pos((r.exponent + base) as nat);
    if r.exponent <= exponent {
        let c = pow2((exponent - r.exponent) as nat) as int;
        lemma_pow2_adds((r.exponent + base) as nat, (exponent - r.exponent) as nat);
        assert(x == y * c);
        assert(0x10_0000_0000_0000 * (den * y) <= num * x < 0x20_0000_0000_0000 * (den * y))
            by (nonlinear_arith)
            requires
                x == y * c,
                y > 0,
                0x10_0000_0000_0000 * den <= num * c < 0x20_0000_0000_0000 * den,
        ;
    } else {
        let c = pow2((r.exponent - exponent) as nat) as int;
        lemma_pow2_adds((exponent + base) as nat, (r.exponent - exponent) as nat);
        assert(y == x * c);
        assert(0x10_0000_0000_0000 * (den * y) <= num * x < 0x20_0000_0000_0000 * (den * y))
            by (nonlinear_arith)
            requires
                y == x * c,
                x > 0,
                0x10_0000_0000_0000 * (den * c) <= num < 0x20_0000_0000_0000 * (den * c),
        ;
    }
}

/// Rounding keeps order.
proof fn lemma_rounded_monotone(a: int, b: int, den: int, exponent: int)
    requires
        0 < a <= b,
        0 < den,
    ensures
        ({
            let r = rounded(a, den, exponent);
            let t = rounded(b, den, exponent);
            &&& r.exponent <= t.exponent
            &&& r.significand <= t.significand * pow2((t.exponent - r.exponent) as nat)
        }),
{
    let r = rounded(a, den, exponent);
    let t = rounded(b, den, exponent);
    lemma_rounded(a, den, exponent);
    lemma_rounded(b, den, exponent);
    lemma2_to64();
    let base = (if exponent < 0 { -exponent } else { 0 }) + (if r.exponent < 0 {
        -r.exponent
    } else {
        0
    }) + (if t.exponent < 0 {
        -t.exponent
    } else {
        0
    });
    lemma_rounded_on_scale(a, den, exponent, base);
    lemma_rounded_on_scale(b, den, exponent, base);
    let x = pow2((exponent + base) as nat) as int;
    let y = pow2((r.exponent + base) as nat) as int;
    let z = pow2((t.exponent + base) as nat) as int;
    lemma_pow2_pos((exponent + base) as nat);
    lemma_pow2_pos((t.exponent + base) as nat);
    assert(a * x <= b * x) by (nonlinear_arith)
        requires
            a <= b,
            x > 0,
    ;
    if r.exponent > t.exponent {
        lemma_pow2_unfold((t.exponent + base + 1) as nat);
        lemma_pow2_ordered((t.exponent + base + 1) as nat, (r.exponent + base) as nat);
        assert(0x10_0000_0000_0000 * (den * y) >= 0x20_0000_0000_0000 * (den * z)) by (nonlinear_arith)
            requires
                y >= 2 * z,
                den > 0,
        ;
    }
    let c = pow2((t.exponent - r.exponent) as nat) as int;
    if r.exponent < t.exponent {
        lemma_pow2_ordered(1, (t.exponent - r.exponent) as nat);
        assert(t.significand * c >= 2 * t.significand) by (nonlinear_arith)
            requires
                c >= 2,
                t.significand >= 0,
        ;
    } else {
        assert(t.significand * c == t.significand) by (nonlinear_arith)
            requires
                c == 1,
        ;
        if r.exponent <= exponent {
            let f = pow2((exponent - r.exponent) as nat) as int;
            lemma_pow2_pos((exponent - r.exponent) as nat);
            assert(0 <= a * f <= b * f) by (nonlinear_arith)
                requires
                    0 < a <= b,
                    f > 0,
            ;
            lemma_nearest_monotone(a * f, b * f, den);
        } else {
            let f = pow2((r.exponent - exponent) as nat) as int;
            lemma_pow2_pos((r.exponent - exponent) as nat);
            assert(0 < den * f) by (nonlinear_arith)
                requires
                    den > 0,
                    f > 0,
            ;
            lemma_nearest_monotone(a, b, den * f);
        }
    }
}

proof fn lemma_nanoseconds_monotone(a: Binary, b: Binary)
    requires
        0 <= a.significand,
        0 <= b.significand,
        a.exponent <= b.exponent,
        a.significand <= b.significand * pow2((b.exponent - a.exponent) as nat),
    ensures
        0 <= a.nanoseconds() <= b.nanoseconds(),
{
    let c = pow2((b.exponent - a.exponent) as nat) as int;
    lemma_pow2_pos((b.exponent - a.exponent) as nat);
    let m = a.significand * SECOND;
    let n = b.significand * SECOND;
    assert(0 <= m <= n * c && 0 <= n) by (nonlinear_arith)
        requires
            m == a.significand * 1_000_000_000,
            n == b.significand * 1_000_000_000,
            0 <= a.significand,
            0 <= b.significand,
            a.significand <= b.significand * c,
    ;
    if b.exponent < 0 {
        let d = pow2((-b.exponent) as nat) as int;
        lemma_pow2_pos((-b.exponent) as nat);
        lemma_pow2_adds((-b.exponent) as nat, (b.exponent - a.exponent) as nat);
        assert(pow2((-a.exponent) as nat) == d * c);
        assert(0 < d * c) by (nonlinear_arith)
            requires
                d > 0,
                c > 0,
        ;
        lemma_nearest_scaled(n, d, c);
        lemma_nearest_monotone(m, n * c, d * c);
        lemma_nearest(m, d * c);
    } else if a.exponent < 0 {
        let x = pow2(b.exponent as nat) as int;
        let d = pow2((-a.exponent) as nat) as int;
        lemma_pow2_pos((-a.exponent) as nat);
        lemma_pow2_adds(b.exponent as nat, (-a.exponent) as nat);
        assert(c == x * d);
        assert(n * c == n * x * d) by (nonlinear_arith)
            requires
                c == x * d,
        ;
        lemma_nearest(m, d);
        assert(m <= (n * x) * d);
    } else {
        let x = pow2(b.exponent as nat) as int;
        let y = pow2(a.exponent as nat) as int;
        lemma_pow2_pos(a.exponent as nat);
        lemma_pow2_adds(a.exponent as nat, (b.exponent - a.exponent) as nat);
        assert(x == y * c);
        assert(0 <= m * y <= n * x) by (nonlinear_arith)
            requires
                x == y * c,
                0 <= m <= n * c,
                y > 0,
        ;
    }
}

/// The number of seconds is not zero where there are nanoseconds, and has 53 bits.
proof fn lemma_seconds_normal(nanos: int)
    requires
        0 < nanos,
    ensures
        LEAST_SIGNIFICAND <= seconds(nanos).significand <= SIGNIFICAND_LIMIT,
{
    let whole = nanos / SECOND as int;
    let part = nanos % SECOND as int;
    if part == 0 {
        lemma_rounded(whole, 1, 0);
    } else {
        lemma_rest(part);
        let rest = rounded(part, SECOND as int, 0);
        let c = pow2((-rest.exponent) as nat) as int;
        lemma_pow2_pos((-rest.exponent) as nat);
        assert(whole * c >= 0) by (nonlinear_arith)
            requires
                whole >= 0,
                c > 0,
        ;
        lemma_rounded(whole * c + rest.significand, 1, rest.exponent);
    }
}

/// A larger share lasts no shorter, and no share is nothing.
pub proof fn law_shares_keep_order(nanos: int, a: int, b: int, den: int)
    requires
        0 <= nanos,
        0 <= a <= b,
        0 < den,
    ensures
        0 <= share(nanos, a, den) <= share(nanos, b, den),
        share(nanos, 0, den) == 0,
{
    let s = seconds(nanos);
    let f = rounded(a, den, 0);
    let g = rounded(b, den, 0);
    lemma2_to64();
    lemma_nanoseconds_monotone(zero(), zero());
    assert(zero().nanoseconds() == 0) by {
        assert(0 * SECOND * pow2(0) == 0) by (nonlinear_arith);
    }
    assert(s.significand * 0 == 0);
    if nanos == 0 {
        assert(s == zero());
        assert(0 * f.significand == 0 && 0 * g.significand == 0) by (nonlinear_arith);
    } else {
        lemma_seconds_normal(nanos);
        if b > 0 {
            lemma_rounded(b, den, 0);
            assert(s.significand * g.significand > 0) by (nonlinear_arith)
                requires
                    s.significand > 0,
                    g.significand > 0,
            ;
            let y = s.times(g);
            lemma_rounded(s.significand * g.significand, 1, s.exponent + g.exponent);
            if a == 0 {
                lemma_not_negative(y);
            } else {
                lemma_rounded(a, den, 0);
                lemma_rounded_monotone(a, b, den, 0);
                let k = (g.exponent - f.exponent) as nat;
                let c = pow2(k) as int;
                let m = s.significand * f.significand;
                let n = s.significand * g.significand;
                assert(0 < m <= n * c) by (nonlinear_arith)
                    requires
                        m == s.significand * f.significand,
                        n == s.significand * g.significand,
                        s.significand > 0,
                        f.significand > 0,
                        f.significand <= g.significand * c,
                ;
                lemma_rounded_scaled(n, 1, s.exponent + f.exponent, k);
                lemma_rounded_monotone(m, n * c, 1, s.exponent + f.exponent);
                lemma_rounded(m, 1, s.exponent + f.exponent);
                lemma_nanoseconds_monotone(s.times(f), y);
            }
        }
    }
}

proof fn lemma_not_negative(a: Binary)
    requires
        0 <= a.significand,
    ensures
        0 <= a.nanoseconds(),
{
    let c = pow2(0) as int;
    lemma2_to64();
    assert(a.significand * c == a.significand) by (nonlinear_arith)
        requires
            c == 1,
    ;
    lemma_nanoseconds_monotone(a, a);
}

/// Up to four minutes, the seconds of some nanoseconds are precise enough to give them back.
proof fn lemma_seconds_read_back(nanos: int)
    requires
        0 < nanos <= 240 * SECOND,
    ensures
        seconds(nanos).exponent < -1,
        seconds(nanos).nanoseconds() == nanos,
{
    lemma_pow2_constants();
    let whole = nanos / SECOND as int;
    let part = nanos % SECOND as int;
    let s = seconds(nanos);
    if part == 0 {
        lemma_rounded(whole, 1, 0);
        let k = (-s.exponent) as nat;
        let c = pow2(k) as int;
        lemma_pow2_pos(k);
        lemma_nearest(whole * c, 1);
        assert((whole * c) * 1 == whole * c);
        assert(s.significand == whole * c);
        lemma_nearest(s.significand * SECOND, c);
        assert((whole * SECOND) * c == s.significand * SECOND) by (nonlinear_arith)
            requires
                s.significand == whole * c,
        ;
        assert(c > 2) by (nonlinear_arith)
            requires
                0x10_0000_0000_0000 * 1 <= whole * c,
                whole <= 240,
                c > 0,
        ;
        lemma_pow2_ordered(1, k);
    } else {
        lemma_rest(part);
        let rest = rounded(part, SECOND as int, 0);
        let k = (-rest.exponent) as nat;
        let c = pow2(k) as int;
        lemma_pow2_ordered(52, k);
        lemma_pow2_pos(k);
        assert(0 < part * c) by (nonlinear_arith)
            requires
                0 < part,
                0 < c,
        ;
        lemma_nearest(part * c, SECOND as int);
        assert(rest.significand <= c) by (nonlinear_arith)
            requires
                2 * (rest.significand * 1_000_000_000 - part * c) <= 1_000_000_000,
                part <= 999_999_999,
                c >= 1,
        ;
        let num = whole * c + rest.significand;
        assert(0 <= whole * c <= 240 * c) by (nonlinear_arith)
            requires
                0 <= whole <= 240,
                0 < c,
        ;
        lemma_rounded(num, 1, rest.exponent);
        let j = (s.exponent - rest.exponent) as nat;
        let a = pow2(j) as int;
        lemma_pow2_pos(j);
        assert(1 * a == a);
        lemma_nearest(num, a);
        // What the two roundings are off by is far less than half a nanosecond.
        assert(a * 1_000_000_000 + 1_000_000_000 < c);
        lemma_pow2_ordered(j, k);
        let d = pow2((k - j) as nat) as int;
        lemma_pow2_adds((k - j) as nat, j);
        lemma_pow2_pos((k - j) as nat);
        assert(c == d * a);
        let off = s.significand * SECOND - nanos * d;
        assert(-(c as int) < 2 * (off * a) < c) by (nonlinear_arith)
            requires
                off == s.significand * 1_000_000_000 - nanos * d,
                c == d * a,
                nanos == whole * 1_000_000_000 + part,
                num == whole * c + rest.significand,
                -a <= 2 * (s.significand * a - num) <= a,
                -1_000_000_000 <= 2 * (rest.significand * 1_000_000_000 - part * c) <= 1_000_000_000,
                a * 1_000_000_000 + 1_000_000_000 < c,
        ;
        assert(-d < 2 * off < d) by (nonlinear_arith)
            requires
                -c < 2 * (off * a) < c,
                c == d * a,
                a > 0,
        ;
        lemma_nearest(s.significand * SECOND, d);
        assert(d > 2) by (nonlinear_arith)
            requires
                c == d * a,
                a * 1_000_000_000 < c,
                a > 0,
        ;
        lemma_pow2_ordered(1, (k - j) as nat);
    }
}

/// What is divided by itself is one.
proof fn lemma_one(den: int)
    requires
        0 < den,
    ensures
        rounded(den, den, 0) == (Binary { significand: LEAST_SIGNIFICAND as int, exponent: -52 }),
{
    lemma_pow2_constants();
    let one = rounded(den, den, 0);
    lemma_rounded(den, den, 0);
    let k = (-one.exponent) as nat;
    let c = pow2(k) as int;
    assert(0x10_0000_0000_0000 <= c < 0x20_0000_0000_0000) by (nonlinear_arith)
        requires
            0x10_0000_0000_0000 * den <= den * c < 0x20_0000_0000_0000 * den,
            den > 0,
    ;
    lemma_pow2_ordered(k, 53);
    if k < 52 {
        lemma_pow2_strictly_increases(k, 52);
    }
    lemma_nearest(den * c, den);
    assert(0x10_0000_0000_0000 * den == den * c) by (nonlinear_arith)
        requires
            c == 0x10_0000_0000_0000,
    ;
}

/// A time over itself has no fraction.
pub proof fn law_a_time_over_itself_is_one(nanos: int)
    requires
        0 < nanos,
    ensures
        seconds(nanos).over(seconds(nanos)).whole() == 1,
        seconds(nanos).over(seconds(nanos)).fraction().significand == 0,
{
    lemma_pow2_constants();
    lemma_seconds_normal(nanos);
    let s = seconds(nanos);
    lemma_one(s.significand);
    let one = s.over(s);
    assert(one == rounded(s.significand, s.significand, 0));
    assert(pow2((-one.exponent) as nat) == LEAST_SIGNIFICAND);
}

/// Up to four minutes, the whole of some nanoseconds is those nanoseconds.
pub proof fn law_the_whole_is_itself(nanos: int, den: int)
    requires
        0 <= nanos <= 240 * SECOND,
        0 < den,
    ensures
        share(nanos, den, den) == nanos,
{
    lemma_pow2_constants();
    let s = seconds(nanos);
    let one = rounded(den, den, 0);
    lemma_one(den);
    if nanos == 0 {
        law_shares_keep_order(0, 0, den, den);
        assert(s == zero());
        assert(0 * one.significand == 0);
        assert(0 * SECOND * pow2(0) == 0) by (nonlinear_arith);
    } else {
        lemma_seconds_normal(nanos);
        lemma_seconds_read_back(nanos);
        lemma_rounded_scaled(s.significand, 1, s.exponent - 52, 52);
        let p = rounded(s.significand, 1, s.exponent);
        assert(s.times(one) == p);
        if s.significand < SIGNIFICAND_LIMIT {
            assert(shrunk(s.significand, 1, s.exponent) == (1int, s.exponent));
            lemma_nearest(s.significand, 1);
            assert(s.significand * 1 == s.significand);
        } else {
            assert(shrunk(s.significand, 2, s.exponent + 1) == (2int, s.exponent + 1));
            assert(shrunk(s.significand, 1, s.exponent) == (2int, s.exponent + 1));
            assert(p == (Binary { significand: LEAST_SIGNIFICAND as int, exponent: s.exponent + 1 }));
            let d = pow2((-p.exponent) as nat) as int;
            lemma_pow2_pos((-p.exponent) as nat);
            lemma_pow2_unfold((-s.exponent) as nat);
            lemma_nearest_scaled(p.significand * SECOND, d, 2);
        }
    }
}

/// A share lasts as long as its part of the whole, to two nanoseconds: no rounding on the way makes it
/// earlier or later by as much.
pub proof fn law_shares_are_in_proportion(nanos: int, num: int, den: int)
    requires
        0 <= nanos <= 240 * SECOND,
        0 <= num <= den,
        0 < den,
    ensures
        -2 * den < share(nanos, num, den) * den - nanos * num < 2 * den,
{
    if num == 0 || nanos == 0 {
        law_shares_keep_order(nanos, 0, num, den);
        assert(nanos * num == 0) by (nonlinear_arith)
            requires
                num == 0 || nanos == 0,
        ;
        if nanos == 0 {
            law_shares_keep_order(0, num, den, den);
            law_the_whole_is_itself(0, den);
        }
        assert(share(nanos, num, den) == 0);
        assert(0 * den == 0);
    } else {
        lemma_pow2_constants();
        let x = seconds(nanos);
        lemma_seconds_read_back(nanos);
        lemma_seconds_normal(nanos);
        let s = x.significand;
        let a = pow2((-x.exponent) as nat) as int;
        lemma_pow2_pos((-x.exponent) as nat);
        assert(0 <= s * SECOND) by (nonlinear_arith)
            requires
                s >= 0,
        ;
        lemma_nearest(s * SECOND, a);

        let y = rounded(num, den, 0);
        lemma_rounded(num, den, 0);
        assert(num < LEAST_SIGNIFICAND * den) by (nonlinear_arith)
            requires
                num <= den,
                den > 0,
        ;
        let f = y.significand;
        let b = pow2((-y.exponent) as nat) as int;
        lemma_pow2_pos((-y.exponent) as nat);
        assert(0 <= num * b) by (nonlinear_arith)
            requires
                num >= 0,
                b > 0,
        ;
        lemma_nearest(num * b, den);
        assert(b >= 0x10_0000_0000_0000) by (nonlinear_arith)
            requires
                0x10_0000_0000_0000 * den <= num * b,
                0 < num <= den,
                b > 0,
        ;
        assert(f <= b) by (nonlinear_arith)
            requires
                2 * (f * den - num * b) <= den,
                num <= den,
                den > 0,
                b > 0,
        ;

        let z = x.times(y);
        let e = x.exponent + y.exponent;
        assert(s * f >= 0x10_0000_0000_0000) by (nonlinear_arith)
            requires
                s >= 0x10_0000_0000_0000,
                f >= 0x10_0000_0000_0000,
        ;
        lemma_rounded(s * f, 1, e);
        let p = z.significand;
        let k = (z.exponent - e) as nat;
        let d = pow2(k) as int;
        lemma_pow2_pos(k);
        lemma_nearest(s * f, d);
        let total = pow2((-e) as nat) as int;
        lemma_pow2_adds((-x.exponent) as nat, (-y.exponent) as nat);
        assert((-x.exponent) as nat + (-y.exponent) as nat == (-e) as nat);
        assert(total == a * b);
        assert(s <= 241 * a) by (nonlinear_arith)
            requires
                2 * (nanos * a - s * SECOND) >= -a,
                nanos <= 240_000_000_000,
                SECOND == 1_000_000_000,
                a > 0,
        ;
        assert(s * f <= 241 * (a * b)) by (nonlinear_arith)
            requires
                0 <= s <= 241 * a,
                0 <= f <= b,
                a > 0,
        ;
        assert(d < total) by (nonlinear_arith)
            requires
                0x10_0000_0000_0000 * d <= s * f,
                s * f <= 241 * total,
                d > 0,
        ;
        lemma_pow2_ordered(k, (-e) as nat);
        assert(k < (-e) as nat);
        let c = pow2((-z.exponent) as nat) as int;
        lemma_pow2_pos((-z.exponent) as nat);
        lemma_pow2_adds((-z.exponent) as nat, k);
        assert((-z.exponent) as nat + k == (-e) as nat);
        assert(total == c * d);
        assert(c >= 8_000_000_000) by (nonlinear_arith)
            requires
                0x10_0000_0000_0000 * d <= 241 * (c * d),
                d > 0,
        ;
        assert(0 <= p * SECOND) by (nonlinear_arith)
            requires
                p >= 0,
        ;
        lemma_nearest(p * SECOND, c);
        let ns = z.nanoseconds();
        assert(ns == nearest(p * SECOND, c));
        lemma_proportion(nanos, num, den, s, a, f, b, p, c, d, ns);
    }
}

/// The errors of four roundings, added up.
proof fn lemma_proportion(
    nanos: int,
    num: int,
    den: int,
    s: int,
    a: int,
    f: int,
    b: int,
    p: int,
    c: int,
    d: int,
    ns: int,
)
    requires
        0 < nanos <= 240_000_000_000,
        0 < num <= den,
        0 < a,
        0x10_0000_0000_0000 <= b,
        8_000_000_000 <= c,
        0 < d,
        c * d == a * b,
        0 <= f <= b,
        -a <= 2 * (nanos * a - s * SECOND) <= a,
        -den <= 2 * (f * den - num * b) <= den,
        -d <= 2 * (p * d - s * f) <= d,
        -c <= 2 * (ns * c - p * SECOND) <= c,
    ensures
        -2 * den < ns * den - nanos * num < 2 * den,
{
    let sec = SECOND as int;
    let x = a * b;
    let u = x * den;
    let t0 = ns * den * x;
    let t1 = p * sec * (d * den);
    let t2 = s * f * (sec * den);
    let t3 = nanos * a * (f * den);
    let t4 = nanos * num * x;
    assert(-u <= 2 * (t0 - t1) <= u) by {
        assert(t0 == (ns * c) * (d * den)) by (nonlinear_arith)
            requires
                t0 == ns * den * x,
                x == c * d,
        ;
        assert(u == c * (d * den)) by (nonlinear_arith)
            requires
                u == x * den,
                x == c * d,
        ;
        let k = d * den;
        assert(k > 0) by (nonlinear_arith)
            requires
                k == d * den,
                d > 0,
                den > 0,
        ;
        assert(-(c * k) <= 2 * ((ns * c) * k - (p * sec) * k) <= c * k) by (nonlinear_arith)
            requires
                -c <= 2 * (ns * c - p * sec) <= c,
                k > 0,
        ;
    }
    assert(-u <= 16 * (t1 - t2) <= u) by {
        let k = sec * den;
        assert(k > 0) by (nonlinear_arith)
            requires
                k == sec * den,
                sec == 1_000_000_000,
                den > 0,
        ;
        assert(t1 == (p * d) * k) by (nonlinear_arith)
            requires
                t1 == p * sec * (d * den),
                k == sec * den,
        ;
        assert(t2 == (s * f) * k);
        assert(-(d * k) <= 2 * ((p * d) * k - (s * f) * k) <= d * k) by (nonlinear_arith)
            requires
                -d <= 2 * (p * d - s * f) <= d,
                k > 0,
        ;
        assert(8 * (d * k) <= u) by (nonlinear_arith)
            requires
                k == sec * den,
                sec == 1_000_000_000,
                u == x * den,
                x == c * d,
                c >= 8_000_000_000,
                d > 0,
                den > 0,
        ;
    }
    assert(-u <= 2 * (t2 - t3) <= u) by {
        let k = f * den;
        assert(k >= 0) by (nonlinear_arith)
            requires
                k == f * den,
                f >= 0,
                den > 0,
        ;
        assert(t2 == (s * sec) * k) by (nonlinear_arith)
            requires
                t2 == s * f * (sec * den),
                k == f * den,
        ;
        assert(t3 == (nanos * a) * k);
        assert(-(a * k) <= 2 * ((s * sec) * k - (nanos * a) * k) <= a * k) by (nonlinear_arith)
            requires
                -a <= 2 * (nanos * a - s * sec) <= a,
                k >= 0,
        ;
        assert(a * k <= u) by (nonlinear_arith)
            requires
                k == f * den,
                f <= b,
                u == x * den,
                x == a * b,
                a > 0,
                den > 0,
        ;
    }
    assert(-u <= 16 * (t3 - t4) <= u) by {
        let k = nanos * a;
        assert(k > 0) by (nonlinear_arith)
            requires
                k == nanos * a,
                nanos > 0,
                a > 0,
        ;
        assert(t3 == (f * den) * k) by (nonlinear_arith)
            requires
                t3 == k * (f * den),
        ;
        assert(t4 == (num * b) * k) by (nonlinear_arith)
            requires
                t4 == nanos * num * x,
                x == a * b,
                k == nanos * a,
        ;
        assert(-(den * k) <= 2 * ((f * den) * k - (num * b) * k) <= den * k) by (nonlinear_arith)
            requires
                -den <= 2 * (f * den - num * b) <= den,
                k > 0,
        ;
        assert(8 * (den * k) <= u) by (nonlinear_arith)
            requires
                k == nanos * a,
                nanos <= 240_000_000_000,
                u == x * den,
                x == a * b,
                b >= 0x10_0000_0000_0000,
                a > 0,
                den > 0,
                nanos > 0,
        ;
    }
    assert(x > 0) by (nonlinear_arith)
        requires
            x == a * b,
            a > 0,
            b > 0,
    ;
    assert(u > 0) by (nonlinear_arith)
        requires
            u == x * den,
            x > 0,
            den > 0,
    ;
    assert(-2 * u < t0 - t4 < 2 * u);
    let gap = ns * den - nanos * num;
    assert(t0 - t4 == gap * x) by (nonlinear_arith)
        requires
            t0 == ns * den * x,
            t4 == nanos * num * x,
            gap == ns * den - nanos * num,
    ;
    assert(-2 * den < gap < 2 * den) by (nonlinear_arith)
        requires
            -2 * u < gap * x < 2 * u,
            u == x * den,
            x > 0,
    ;
}

/// How many of `n` equal parts of a time have passed, cut to a whole number, is exact to two nanoseconds:
/// so many parts are over two nanoseconds later at the latest, and one more is not over yet two
/// nanoseconds earlier. Up to two nanoseconds before its end, the time is not taken for over.
pub proof fn law_parts_that_have_passed(passed: int, time: int, n: int)
    requires
        0 < passed,
        passed + 2 <= time <= 240 * SECOND,
        1 <= n <= 4096,
    ensures
        ({
            let within = seconds(passed).over(seconds(time)).fraction();
            let parts = within.times(Binary { significand: n, exponent: 0 }).whole();
            &&& 0 <= parts <= n
            &&& parts * time <= n * (passed + 2)
            &&& n * (passed - 2) <= (parts + 1) * time
        }),
{
    lemma_pow2_constants();
    let x = seconds(passed);
    let y = seconds(time);
    lemma_seconds_read_back(passed);
    lemma_seconds_normal(passed);
    lemma_seconds_read_back(time);
    lemma_seconds_normal(time);
    let s = x.significand;
    let t = y.significand;
    let a = pow2((-x.exponent) as nat) as int;
    let b = pow2((-y.exponent) as nat) as int;
    lemma_pow2_pos((-x.exponent) as nat);
    lemma_pow2_pos((-y.exponent) as nat);
    lemma_nearest(s * SECOND, a);
    lemma_nearest(t * SECOND, b);

    let q = x.over(y);
    let e = x.exponent - y.exponent;
    lemma_rounded(s, t, e);
    assert(s < LEAST_SIGNIFICAND * t) by (nonlinear_arith)
        requires
            s <= 0x20_0000_0000_0000,
            t >= 0x10_0000_0000_0000,
    ;
    let m = pow2((e - q.exponent) as nat) as int;
    lemma_pow2_pos((e - q.exponent) as nat);
    assert(0 <= s * m) by (nonlinear_arith)
        requires
            s >= 0,
            m > 0,
    ;
    lemma_nearest(s * m, t);
    let r = q.significand;
    // The quotient is below 1, so its exponent is negative.
    lemma_quotient_exponent(passed, time, x, y, q);
    let g = pow2((-q.exponent) as nat) as int;
    lemma_pow2_pos((-q.exponent) as nat);
    lemma_pow2_adds((e - q.exponent) as nat, (-x.exponent) as nat);
    lemma_pow2_adds((-y.exponent) as nat, (-q.exponent) as nat);
    assert((e - q.exponent) as nat + (-x.exponent) as nat == (-y.exponent) as nat + (-q.exponent) as nat);
    assert(m * a == b * g);
    lemma_below_one(passed, time, s, t, a, b, m, g, r);
    let within = q.fraction();
    assert(within == q) by {
        vstd::arithmetic::div_mod::lemma_small_mod(r as nat, g as nat);
    }
    assert(r * n >= 0x10_0000_0000_0000) by (nonlinear_arith)
        requires
            r >= 0x10_0000_0000_0000,
            n >= 1,
    ;
    let z = within.times(Binary { significand: n, exponent: 0 });
    lemma_rounded(r * n, 1, q.exponent);
    let k = (z.exponent - q.exponent) as nat;
    let d = pow2(k) as int;
    lemma_pow2_pos(k);
    lemma_nearest(r * n, d);
    assert(d < g) by (nonlinear_arith)
        requires
            0x10_0000_0000_0000 * d <= r * n,
            r < g,
            1 <= n <= 4096,
            d > 0,
            r > 0,
    ;
    lemma_pow2_ordered(k, (-q.exponent) as nat);
    let h = pow2((-z.exponent) as nat) as int;
    lemma_pow2_pos((-z.exponent) as nat);
    lemma_pow2_adds((-z.exponent) as nat, k);
    assert((-z.exponent) as nat + k == (-q.exponent) as nat);
    assert(g == h * d);
    let p = z.significand;
    let w = z.whole();
    assert(w == p / h);
    assert(w * h <= p < (w + 1) * h) by (nonlinear_arith)
        requires
            w == p / h,
            h > 0,
            p >= 0,
    ;
    lemma_parts(passed, time, n, s, t, a, b, m, g, r, p, d, h, w);
}

proof fn lemma_quotient_exponent(passed: int, time: int, x: Binary, y: Binary, q: Binary)
    requires
        0 < passed,
        passed + 2 <= time <= 240 * SECOND,
        x.exponent < -1,
        y.exponent < -1,
        LEAST_SIGNIFICAND <= x.significand <= SIGNIFICAND_LIMIT,
        LEAST_SIGNIFICAND <= y.significand <= SIGNIFICAND_LIMIT,
        q.exponent < x.exponent - y.exponent,
        ({
            let a = pow2((-x.exponent) as nat) as int;
            let b = pow2((-y.exponent) as nat) as int;
            let m = pow2((x.exponent - y.exponent - q.exponent) as nat) as int;
            &&& -a <= 2 * (passed * a - x.significand * SECOND) <= a
            &&& -b <= 2 * (time * b - y.significand * SECOND) <= b
            &&& LEAST_SIGNIFICAND * y.significand <= x.significand * m
        }),
    ensures
        q.exponent < 0,
{
    if q.exponent >= 0 {
        let s = x.significand;
        let t = y.significand;
        let a = pow2((-x.exponent) as nat) as int;
        let b = pow2((-y.exponent) as nat) as int;
        let m = pow2((x.exponent - y.exponent - q.exponent) as nat) as int;
        let c = pow2(q.exponent as nat) as int;
        lemma_pow2_pos((-x.exponent) as nat);
        lemma_pow2_pos((-y.exponent) as nat);
        lemma_pow2_pos((x.exponent - y.exponent - q.exponent) as nat);
        lemma_pow2_pos(q.exponent as nat);
        lemma_pow2_adds((x.exponent - y.exponent - q.exponent) as nat, (-x.exponent) as nat);
        lemma_pow2_adds(
            ((x.exponent - y.exponent - q.exponent) as nat + (-x.exponent) as nat) as nat,
            q.exponent as nat,
        );
        assert((x.exponent - y.exponent - q.exponent) as nat + (-x.exponent) as nat + q.exponent as nat
            == (-y.exponent) as nat);
        assert(m * a * c == b);
        let sec = SECOND as int;
        assert(m * a <= b) by (nonlinear_arith)
            requires
                m * a * c == b,
                c >= 1,
                m > 0,
                a > 0,
        ;
        // s * m is at most t, far less than 2^52 * t.
        assert(2 * (s * sec) <= (2 * passed + 1) * a) by (nonlinear_arith)
            requires
                2 * (passed * a - s * sec) >= -a,
        ;
        assert(2 * (s * m) * sec <= (2 * passed + 1) * b) by (nonlinear_arith)
            requires
                2 * (s * sec) <= (2 * passed + 1) * a,
                m * a <= b,
                m > 0,
                passed > 0,
        ;
        assert(2 * t * sec >= (2 * time - 1) * b) by (nonlinear_arith)
            requires
                2 * (time * b - t * sec) <= b,
        ;
        assert((2 * passed + 1) * b <= (2 * time - 1) * b) by (nonlinear_arith)
            requires
                passed + 2 <= time,
                b > 0,
        ;
        assert(s * m <= t) by (nonlinear_arith)
            requires
                2 * (s * m) * sec <= 2 * t * sec,
                sec == 1_000_000_000,
        ;
        assert(false) by (nonlinear_arith)
            requires
                0x10_0000_0000_0000 * t <= s * m,
                s * m <= t,
                t > 0,
        ;
    }
}

proof fn lemma_below_one(
    passed: int,
    time: int,
    s: int,
    t: int,
    a: int,
    b: int,
    m: int,
    g: int,
    r: int,
)
    requires
        0 < passed,
        passed + 2 <= time <= 240_000_000_000,
        0 < a,
        0 < b,
        0 < m,
        0 < g,
        0x10_0000_0000_0000 <= r,
        0x10_0000_0000_0000 <= t,
        m * a == b * g,
        -a <= 2 * (passed * a - s * SECOND) <= a,
        -b <= 2 * (time * b - t * SECOND) <= b,
        -t <= 2 * (r * t - s * m) <= t,
    ensures
        r < g,
        g >= 0x10_0000_0000_0000,
{
    let sec = SECOND as int;
    let y = b * g;
    assert(y > 0) by (nonlinear_arith)
        requires
            y == b * g,
            b > 0,
            g > 0,
    ;
    assert(2 * (s * sec) <= (2 * passed + 1) * a) by (nonlinear_arith)
        requires
            2 * (passed * a - s * sec) >= -a,
    ;
    assert(2 * (s * m) * sec <= (2 * passed + 1) * y) by (nonlinear_arith)
        requires
            2 * (s * sec) <= (2 * passed + 1) * a,
            m * a == y,
            m > 0,
    ;
    assert(2 * t * sec * g >= (2 * time - 1) * y) by (nonlinear_arith)
        requires
            2 * (time * b - t * sec) <= b,
            y == b * g,
            g > 0,
    ;
    if r >= g {
        // Then s * m would be at least (g - 1/2) * t.
        assert(2 * (s * m) >= (2 * g - 1) * t) by (nonlinear_arith)
            requires
                2 * (r * t - s * m) <= t,
                r >= g,
                t > 0,
        ;
        assert(2 * (s * m) * sec >= (2 * g - 1) * t * sec) by (nonlinear_arith)
            requires
                2 * (s * m) >= (2 * g - 1) * t,
                sec == 1_000_000_000,
        ;
        assert((2 * g - 1) * t * sec == 2 * t * sec * g - t * sec) by (nonlinear_arith);
        assert(2 * t * sec <= (2 * time + 1) * b) by (nonlinear_arith)
            requires
                2 * (time * b - t * sec) >= -b,
        ;
        // (2 * time - 1) * y - (time + 1/2) * b <= (2 * passed + 1) * y
        assert(2 * ((2 * time - 1) * y) - (2 * time + 1) * b <= 2 * ((2 * passed + 1) * y));
        assert((2 * time - 1) * y - (2 * passed + 1) * y >= 2 * y) by (nonlinear_arith)
            requires
                passed + 2 <= time,
                y > 0,
        ;
        assert(4 * y <= (2 * time + 1) * b);
        assert(4 * g <= 2 * time + 1) by (nonlinear_arith)
            requires
                4 * y <= (2 * time + 1) * b,
                y == b * g,
                b > 0,
        ;
        // But then the quotient is far below 1.
        assert(r * t <= s * m + t) by (nonlinear_arith)
            requires
                2 * (r * t - s * m) <= t,
                t > 0,
        ;
        assert((2 * passed + 1) * y <= (2 * time - 1) * y) by (nonlinear_arith)
            requires
                passed + 2 <= time,
                y > 0,
        ;
        assert(s * m <= t * g) by (nonlinear_arith)
            requires
                2 * (s * m) * sec <= 2 * t * sec * g,
                sec == 1_000_000_000,
        ;
        assert(r <= g + 1) by (nonlinear_arith)
            requires
                r * t <= t * g + t,
                t > 0,
        ;
        assert(false);
    }
    assert(r < g);
}

proof fn lemma_parts(
    passed: int,
    time: int,
    n: int,
    s: int,
    t: int,
    a: int,
    b: int,
    m: int,
    g: int,
    r: int,
    p: int,
    d: int,
    h: int,
    w: int,
)
    requires
        0 < passed,
        passed + 2 <= time <= 240_000_000_000,
        1 <= n <= 4096,
        0 < a,
        0 < b,
        0 < m,
        0x10_0000_0000_0000 <= g,
        0 < d,
        0 < h,
        0 < t,
        0 < r < g,
        m * a == b * g,
        g == h * d,
        -a <= 2 * (passed * a - s * SECOND) <= a,
        -b <= 2 * (time * b - t * SECOND) <= b,
        -t <= 2 * (r * t - s * m) <= t,
        -d <= 2 * (p * d - r * n) <= d,
        0x10_0000_0000_0000 * d <= r * n,
        0 <= p,
        w * h <= p < (w + 1) * h,
    ensures
        0 <= w <= n,
        w * time <= n * (passed + 2),
        n * (passed - 2) <= (w + 1) * time,
{
    let sec = SECOND as int;
    let y = b * g;
    assert(y > 0) by (nonlinear_arith)
        requires
            y == b * g,
            b > 0,
            g > 0,
    ;
    assert(0 <= w) by (nonlinear_arith)
        requires
            0 <= p < (w + 1) * h,
            h > 0,
    ;
    assert(w * g <= p * d && p * d + d <= (w + 1) * g) by (nonlinear_arith)
        requires
            w * h <= p,
            p + 1 <= (w + 1) * h,
            g == h * d,
            d > 0,
    ;
    // The last rounding is worth less than 2^-40 parts.
    assert(r * n <= 4096 * g) by (nonlinear_arith)
        requires
            0 < r < g,
            1 <= n <= 4096,
    ;
    assert(0x100_0000_0000 * d <= g);
    assert(2 * (w * g) <= 2 * (r * n) + d);
    assert(2 * (r * n) - d <= 2 * ((w + 1) * g));
    assert(w <= n) by (nonlinear_arith)
        requires
            2 * (w * g) <= 2 * (r * n) + d,
            r < g,
            d <= g,
            n >= 1,
            r > 0,
            d > 0,
            0x100_0000_0000 * d <= g,
    ;
    let ts = t * sec;
    assert((2 * time - 1) * b <= 2 * ts <= (2 * time + 1) * b) by (nonlinear_arith)
        requires
            -b <= 2 * (time * b - ts) <= b,
    ;
    assert(ts > 0) by (nonlinear_arith)
        requires
            ts == t * sec,
            t > 0,
            sec == 1_000_000_000,
    ;
    let sm = s * m * sec;
    assert((2 * passed - 1) * y <= 2 * sm <= (2 * passed + 1) * y) by (nonlinear_arith)
        requires
            -a <= 2 * (passed * a - s * sec) <= a,
            m * a == y,
            m > 0,
            sm == s * m * sec,
    ;
    assert(-ts <= 2 * (r * ts - sm) <= ts) by (nonlinear_arith)
        requires
            -t <= 2 * (r * t - s * m) <= t,
            ts == t * sec,
            sm == s * m * sec,
            sec == 1_000_000_000,
    ;
    // What the roundings of the quotient and of the product are worth, together less than y.
    assert(ts <= 250_000_000_000 * b) by (nonlinear_arith)
        requires
            2 * ts <= (2 * time + 1) * b,
            time <= 240_000_000_000,
            b > 0,
    ;
    assert(4 * (n * ts) <= y) by (nonlinear_arith)
        requires
            0 < ts <= 250_000_000_000 * b,
            1 <= n <= 4096,
            g >= 0x10_0000_0000_0000,
            y == b * g,
            b > 0,
    ;
    assert(4 * (d * ts) <= y) by (nonlinear_arith)
        requires
            0 < ts <= 250_000_000_000 * b,
            0 < d,
            0x100_0000_0000 * d <= g,
            y == b * g,
            b > 0,
    ;
    // Upper: w * g * ts <= n * sm + slack.
    assert(2 * (w * g) * ts <= 2 * (r * n) * ts + d * ts) by (nonlinear_arith)
        requires
            2 * (w * g) <= 2 * (r * n) + d,
            ts > 0,
    ;
    assert(2 * (r * n) * ts <= 2 * n * sm + n * ts) by (nonlinear_arith)
        requires
            2 * (r * ts - sm) <= ts,
            n >= 1,
    ;
    assert(2 * n * sm <= n * (2 * passed + 1) * y) by (nonlinear_arith)
        requires
            2 * sm <= (2 * passed + 1) * y,
            n >= 1,
    ;
    assert(2 * (w * g) * ts >= w * (2 * time - 1) * y) by (nonlinear_arith)
        requires
            2 * ts >= (2 * time - 1) * b,
            w >= 0,
            g > 0,
            y == b * g,
    ;
    assert(w * (2 * time - 1) * y <= n * (2 * passed + 1) * y + y);
    assert(w * (2 * time - 1) <= n * (2 * passed + 1) + 1) by (nonlinear_arith)
        requires
            w * (2 * time - 1) * y <= n * (2 * passed + 1) * y + y,
            y > 0,
    ;
    assert(w * time <= n * (passed + 2)) by (nonlinear_arith)
        requires
            w * (2 * time - 1) <= n * (2 * passed + 1) + 1,
            0 <= w <= n,
            n >= 1,
    ;
    // Lower: (w + 1) * g * ts >= n * sm - slack.
    assert(2 * ((w + 1) * g) * ts >= 2 * (r * n) * ts - d * ts) by (nonlinear_arith)
        requires
            2 * (r * n) - d <= 2 * ((w + 1) * g),
            ts > 0,
    ;
    assert(2 * (r * n) * ts >= 2 * n * sm - n * ts) by (nonlinear_arith)
        requires
            2 * (r * ts - sm) >= -ts,
            n >= 1,
    ;
    assert(2 * n * sm >= n * (2 * passed - 1) * y) by (nonlinear_arith)
        requires
            2 * sm >= (2 * passed - 1) * y,
            n >= 1,
    ;
    assert(2 * ((w + 1) * g) * ts <= (w + 1) * (2 * time + 1) * y) by (nonlinear_arith)
        requires
            2 * ts <= (2 * time + 1) * b,
            w >= 0,
            g > 0,
            y == b * g,
    ;
    assert(n * (2 * passed - 1) * y <= (w + 1) * (2 * time + 1) * y + y);
    assert(n * (2 * passed - 1) <= (w + 1) * (2 * time + 1) + 1) by (nonlinear_arith)
        requires
            n * (2 * passed - 1) * y <= (w + 1) * (2 * time + 1) * y + y,
            y > 0,
    ;
    assert(n * (passed - 2) <= (w + 1) * time) by (nonlinear_arith)
        requires
            n * (2 * passed - 1) <= (w + 1) * (2 * time + 1) + 1,
            0 <= w <= n,
            n >= 1,
    ;
}

} // verus!
