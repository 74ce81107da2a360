//! Double-precision numbers, computed on exactly.
//!
//! Percentages and amounts arrive as IEEE 754 doubles. A double is an integer
//! number of units of two to the minus 1074th, so everything the library asks of
//! one, comparing, rounding and printing, is a question about integers. This
//! module answers them from the bit pattern.

use vstd::arithmetic::div_mod::*;
use vstd::arithmetic::mul::*;
use vstd::arithmetic::power2::*;
use vstd::prelude::*;
use vstd::string::*;

use crate::text;
use crate::text::{push_dec, push_dec_padded};

verus! {

/// A double, by its bit pattern.
#[derive(Debug, Default, Clone, Copy)]
pub struct Double {
    pub bits: u64,
}

/// Two to the 52nd: the lowest 52 bits are the fraction.
pub const FRACTION: u64 = 0x10_0000_0000_0000;

/// Two to the 63rd: the highest bit is the sign.
pub const SIGN: u64 = 0x8000_0000_0000_0000;

/// The exponent field of what is no finite number.
pub const SPECIAL: u64 = 0x7ff;

/// The number 1, in units of two to the minus 1074th.
pub open spec fn one() -> nat {
    pow2(1074)
}

/// `n / d` rounded to an integer, a tie to the even one.
pub open spec fn half_even(n: nat, d: nat) -> nat {
    let q = n / d;
    let r = n % d;
    if 2 * r < d || (2 * r == d && q % 2 == 0) {
        q
    } else {
        q + 1
    }
}

/// `n / d` rounded to an integer, a tie away from zero.
pub open spec fn half_up(n: nat, d: nat) -> nat {
    (2 * n + d) / (2 * d)
}

impl Double {
    /// The fraction field.
    pub open spec fn fraction(self) -> nat {
        (self.bits % FRACTION) as nat
    }

    /// The exponent field.
    pub open spec fn exponent(self) -> nat {
        ((self.bits / FRACTION) % 2048) as nat
    }

    /// Whether the sign is negative.
    pub open spec fn negative(self) -> bool {
        self.bits >= SIGN
    }

    /// Not a number.
    pub open spec fn is_nan(self) -> bool {
        self.exponent() == SPECIAL && self.fraction() != 0
    }

    /// Infinitely large.
    pub open spec fn is_infinite(self) -> bool {
        self.exponent() == SPECIAL && self.fraction() == 0
    }

    /// The significant bits: a normal number has one more than the field holds.
    pub open spec fn mantissa(self) -> nat {
        if self.exponent() == 0 {
            self.fraction()
        } else {
            self.fraction() + FRACTION as nat
        }
    }

    /// How far the significant bits stand to the left.
    pub open spec fn shift(self) -> nat {
        if self.exponent() == 0 {
            0
        } else {
            (self.exponent() - 1) as nat
        }
    }

    /// The size of a finite number, in units of two to the minus 1074th.
    pub open spec fn units(self) -> nat {
        self.mantissa() * pow2(self.shift())
    }

    /// `self >= n`, for a positive `n`.
    pub open spec fn at_least(self, n: nat) -> bool {
        !self.is_nan() && !self.negative() && (self.is_infinite() || self.units() >= n * one())
    }

    /// The nearest integer, a tie away from zero, as far as a `u32` can hold it:
    /// nothing below zero, nothing above the largest, and zero for what is no
    /// number.
    pub open spec fn rounded(self) -> nat {
        if self.is_nan() || self.negative() {
            0
        } else if self.is_infinite() || half_up(self.units(), one()) > u32::MAX {
            u32::MAX as nat
        } else {
            half_up(self.units(), one())
        }
    }

    /// Zero, of either sign.
    pub open spec fn is_zero(self) -> bool {
        self.bits % SIGN == 0
    }

    /// The number without its sign.
    pub open spec fn magnitude(self) -> Double {
        Double { bits: self.bits % SIGN }
    }

    /// Equality of numbers: zero has two signs, and what is no number equals
    /// nothing.
    pub open spec fn same_number(self, other: Double) -> bool {
        &&& !self.is_nan() && !other.is_nan()
        &&& self.bits == other.bits || (self.bits % SIGN == 0 && other.bits % SIGN == 0)
    }

    fn exponent_field(&self) -> (r: u64)
        ensures
            r == self.exponent(),
            r <= SPECIAL,
    {
        (self.bits / FRACTION) % 2048
    }

    fn fraction_field(&self) -> (r: u64)
        ensures
            r == self.fraction(),
            r < FRACTION,
    {
        self.bits % FRACTION
    }

    fn significand(&self) -> (r: u64)
        ensures
            r == self.mantissa(),
            r < 2 * FRACTION,
            self.exponent() > 0 ==> r >= FRACTION,
    {
        if self.exponent_field() == 0 {
            self.fraction_field()
        } else {
            self.fraction_field() + FRACTION
        }
    }

    fn left_shift(&self) -> (r: u64)
        ensures
            r == self.shift(),
            r <= 2046,
            self.exponent() == 0 ==> r == 0,
    {
        let e = self.exponent_field();
        if e == 0 {
            0
        } else {
            e - 1
        }
    }

    /// Whether this is no number.
    pub fn nan(&self) -> (r: bool)
        ensures
            r == self.is_nan(),
    {
        self.exponent_field() == SPECIAL && self.fraction_field() != 0
    }

    /// Whether this is infinitely large.
    pub fn infinite(&self) -> (r: bool)
        ensures
            r == self.is_infinite(),
    {
        self.exponent_field() == SPECIAL && self.fraction_field() == 0
    }

    /// Whether the sign is negative.
    pub fn below_zero(&self) -> (r: bool)
        ensures
            r == self.negative(),
    {
        self.bits >= SIGN
    }

    /// Whether the number is at least `n`.
    pub fn reaches(&self, n: u32) -> (r: bool)
        requires
            n > 0,
        ensures
            r == self.at_least(n as nat),
    {
        if self.nan() || self.below_zero() {
            return false;
        }
        if self.infinite() {
            return true;
        }
        let m = self.significand();
        let k = self.left_shift();
        if k >= 1074 {
            proof {
                large(*self);
                lemma_mul_inequality(n as int, FRACTION as int, one() as int);
            }
            return true;
        }
        let s: u64 = 1074 - k;
        proof {
            reduced(*self, s as nat, n as nat);
            lemma_pow2_pos(s as nat);
        }
        if s >= 64 {
            proof {
                lemma2_to64();
                if s > 64 {
                    lemma_pow2_strictly_increases(64, s as nat);
                }
                assert(n * pow2(s as nat) >= pow2(s as nat)) by (nonlinear_arith)
                    requires
                        n >= 1,
                        pow2(s as nat) >= 0,
                ;
            }
            return false;
        }
        proof {
            lemma_pow2_strictly_increases(s as nat, 64);
            lemma2_to64();
            assert(n * pow2(s as nat) <= 0x1_0000_0000 * 0x1_0000_0000_0000_0000) by (nonlinear_arith)
                requires
                    n < 0x1_0000_0000,
                    pow2(s as nat) < 0x1_0000_0000_0000_0000,
            ;
        }
        m as u128 >= n as u128 * two_to(s)
    }

    /// The nearest integer, as far as a `u32` can hold it.
    pub fn round(&self) -> (r: u32)
        ensures
            r == self.rounded(),
    {
        if self.nan() || self.below_zero() {
            return 0;
        }
        if self.infinite() {
            return u32::MAX;
        }
        let m = self.significand();
        let k = self.left_shift();
        if k >= 1074 {
            proof {
                large(*self);
                let u = self.units() as int;
                let o = one() as int;
                lemma_pow2_pos(1074);
                assert((2 * u + o) / (2 * o) >= FRACTION) by (nonlinear_arith)
                    requires
                        u >= FRACTION * o,
                        o > 0,
                        FRACTION == 0x10_0000_0000_0000u64,
                ;
            }
            return u32::MAX;
        }
        let s: u64 = 1074 - k;
        proof {
            reduced_ratio(*self, s as nat, 1);
            lemma_pow2_pos(s as nat);
        }
        let ghost p = pow2(s as nat);
        assert(half_up(self.units(), one()) == half_up(m as nat, p));
        if s >= 64 {
            proof {
                lemma2_to64();
                if s > 64 {
                    lemma_pow2_strictly_increases(64, s as nat);
                }
                let a = 2 * (m as int) + p as int;
                let d = 2 * (p as int);
                assert(a / d == 0) by (nonlinear_arith)
                    requires
                        0 <= a < d,
                ;
            }
            return 0;
        }
        proof {
            lemma_pow2_strictly_increases(s as nat, 64);
            lemma2_to64();
        }
        let d = two_to(s);
        let q: u128 = (2 * (m as u128) + d) / (2 * d);
        if q > u32::MAX as u128 {
            u32::MAX
        } else {
            q as u32
        }
    }
}

impl PartialEq for Double {
    fn eq(&self, other: &Double) -> (r: bool) {
        !self.nan() && !other.nan() && (self.bits == other.bits || (self.bits % SIGN == 0
            && other.bits % SIGN == 0))
    }
}

impl vstd::std_specs::cmp::PartialEqSpecImpl for Double {
    open spec fn obeys_eq_spec() -> bool {
        true
    }

    open spec fn eq_spec(&self, other: &Double) -> bool {
        self.same_number(*other)
    }
}

/// Two to the power of `s`.
fn two_to(s: u64) -> (r: u128)
    requires
        s < 128,
    ensures
        r == pow2(s as nat),
        r > 0,
{
    let mut r: u128 = 1;
    let mut i: u64 = 0;
    proof {
        lemma2_to64();
        lemma_pow2_adds(64, 63);
        lemma2_to64_rest();
    }
    while i < s
        invariant
            i <= s < 128,
            r == pow2(i as nat),
            pow2(127) <= u128::MAX,
        decreases s - i,
    {
        proof {
            lemma_pow2_unfold((i + 1) as nat);
            if i + 1 < 127 {
                lemma_pow2_strictly_increases((i + 1) as nat, 127);
            }
        }
        r = r * 2;
        i += 1;
    }
    proof {
        lemma_pow2_pos(s as nat);
    }
    r
}

/// A number whose significant bits stand left of the point is at least two to
/// the 52nd.
proof fn large(x: Double)
    requires
        x.shift() >= 1074,
    ensures
        x.units() >= FRACTION * one(),
{
    if x.shift() > 1074 {
        lemma_pow2_strictly_increases(1074, x.shift());
    }
    let m = x.mantissa() as int;
    let p = pow2(x.shift()) as int;
    let o = one() as int;
    assert(m * p >= FRACTION * o) by (nonlinear_arith)
        requires
            m >= FRACTION,
            p >= o >= 0,
            FRACTION >= 0,
    ;
}

/// Comparing the number with `n` is comparing the significant bits with `n`
/// shifted.
proof fn reduced(x: Double, s: nat, n: nat)
    requires
        s + x.shift() == 1074,
    ensures
        x.units() >= n * one() <==> x.mantissa() >= n * pow2(s),
{
    lemma_pow2_adds(s, x.shift());
    lemma_pow2_pos(x.shift());
    let m = x.mantissa() as int;
    let p = pow2(x.shift()) as int;
    let d = pow2(s) as int;
    assert(n * (d * p) == (n * d) * p) by (nonlinear_arith);
    let nd = n * d;
    assert(m * p >= nd * p <==> m >= nd) by (nonlinear_arith)
        requires
            p > 0,
    ;
}

/// A ratio to 1 is the ratio of the significant bits to a power of two.
proof fn reduced_ratio(x: Double, s: nat, c: nat)
    requires
        s + x.shift() == 1074,
    ensures
        half_up(x.units() * c, one()) == half_up(x.mantissa() * c, pow2(s)),
        half_even(x.units() * c, one()) == half_even(x.mantissa() * c, pow2(s)),
{
    lemma_pow2_adds(s, x.shift());
    lemma_pow2_pos(x.shift());
    lemma_pow2_pos(s);
    let m = x.mantissa() as int;
    let p = pow2(x.shift()) as int;
    let d = pow2(s) as int;
    let a = m * c;
    assert((m * p) * c == p * a) by (nonlinear_arith)
        requires
            a == m * c,
    ;
    assert(d * p == p * d) by (nonlinear_arith);
    assert(0 <= a) by (nonlinear_arith)
        requires
            a == m * c,
            m >= 0,
            c >= 0,
    ;
    assert(2 * (p * a) + p * d == p * (2 * a + d)) by (nonlinear_arith);
    assert(2 * (p * d) == p * (2 * d)) by (nonlinear_arith);
    lemma_div_multiples_vanish_quotient(p, 2 * a + d, 2 * d);
    lemma_div_multiples_vanish_quotient(p, a, d);
    lemma_truncate_middle(a, p, d);
    let r = a % d;
    assert(2 * (p * r) < p * d <==> 2 * r < d) by (nonlinear_arith)
        requires
            p > 0,
    ;
    assert(2 * (p * r) == p * d <==> 2 * r == d) by (nonlinear_arith)
        requires
            p > 0,
    ;
}

// ---------------------------------------------------------------------------
// Order
// ---------------------------------------------------------------------------

/// The bit pattern of the double nearest to a hundredth.
pub const CENT: u64 = 0x3f84_7ae1_47ae_147b;

/// Of two finite numbers that are not negative, the one with the smaller bit
/// pattern is the smaller.
proof fn bits_are_ordered(x: Double, y: Double)
    requires
        x.bits < SIGN,
        y.bits < SIGN,
        x.exponent() < SPECIAL,
        y.exponent() < SPECIAL,
        x.bits < y.bits,
    ensures
        x.units() < y.units(),
{
    let ex = x.exponent();
    let ey = y.exponent();
    let f = FRACTION as int;
    assert(x.bits / FRACTION < 2048);
    assert(y.bits / FRACTION < 2048);
    assert(ex <= ey);
    lemma_pow2_pos(x.shift());
    lemma_pow2_pos(y.shift());
    let mx = x.mantissa() as int;
    let my = y.mantissa() as int;
    let px = pow2(x.shift()) as int;
    let py = pow2(y.shift()) as int;
    if x.shift() == y.shift() {
        assert(mx < my);
        assert(mx * px < my * py) by (nonlinear_arith)
            requires
                mx < my,
                px == py,
                px > 0,
        ;
    } else {
        lemma_pow2_unfold((x.shift() + 1) as nat);
        if x.shift() + 1 < y.shift() {
            lemma_pow2_strictly_increases((x.shift() + 1) as nat, y.shift());
        }
        assert(mx * px < my * py) by (nonlinear_arith)
            requires
                0 <= mx < 2 * f,
                my >= f,
                f > 0,
                py >= 2 * px,
                px > 0,
        ;
    }
}

impl Double {
    /// `self < y`, for a finite positive `y`.
    pub open spec fn less_than(self, y: Double) -> bool {
        !self.is_nan() && (self.negative() || (!self.is_infinite() && self.units() < y.units()))
    }

    /// Whether the number is less than `y`.
    pub fn below(&self, y: Double) -> (r: bool)
        requires
            !y.negative(),
            y.exponent() < SPECIAL,
            y.bits > 0,
        ensures
            r == self.less_than(y),
    {
        if self.nan() {
            return false;
        }
        if self.below_zero() {
            return true;
        }
        if self.infinite() {
            return false;
        }
        proof {
            if self.bits < y.bits {
                bits_are_ordered(*self, y);
            } else if y.bits < self.bits {
                bits_are_ordered(y, *self);
            }
        }
        self.bits < y.bits
    }
}

/// Nothing but the sign is taken off.
pub proof fn magnitude_keeps_the_size(x: Double)
    ensures
        !x.magnitude().negative(),
        x.magnitude().is_nan() == x.is_nan(),
        x.magnitude().is_infinite() == x.is_infinite(),
        x.magnitude().units() == x.units(),
{
    let b = x.bits as int;
    let m = x.magnitude().bits as int;
    if b >= SIGN {
        assert(m == b - SIGN);
    } else {
        assert(m == b);
    }
    assert(m % FRACTION as int == b % FRACTION as int);
    assert((m / FRACTION as int) % 2048 == (b / FRACTION as int) % 2048);
}

impl Double {
    /// Whether the number is zero, of either sign.
    pub fn zero(&self) -> (r: bool)
        ensures
            r == self.is_zero(),
    {
        self.bits % SIGN == 0
    }

    /// The number without its sign.
    pub fn abs(&self) -> (r: Double)
        ensures
            r == self.magnitude(),
    {
        Double { bits: self.bits % SIGN }
    }
}

// ---------------------------------------------------------------------------
// Rounding to a double
// ---------------------------------------------------------------------------

/// How many bits `q` has beyond the 53 that a double keeps.
pub open spec fn excess(q: nat) -> nat
    decreases q,
{
    if q < 2 * FRACTION {
        0
    } else {
        1 + excess(q / 2)
    }
}

/// The double nearest to `n / d`, a tie to the even one, for a quotient that
/// has at least 53 bits before the point: further bits are rounded away.
pub open spec fn nearest(n: nat, d: nat) -> nat {
    let p = pow2(excess(n / d));
    half_even(n, d * p) * p
}

/// The double nearest to `n / d`.
pub fn round_to_double(n: u128, d: u128) -> (r: u128)
    requires
        n < 0x8000_0000_0000_0000_0000_0000_0000_0000,
        0 < d <= 1000,
    ensures
        r == nearest(n as nat, d as nat),
{
    let mut q: u128 = n / d;
    let mut p: u128 = 1;
    let ghost mut s: nat = 0;
    proof {
        lemma2_to64();
        assert(n / d <= n) by (nonlinear_arith)
            requires
                d >= 1,
        ;
    }
    while q >= 2 * (FRACTION as u128)
        invariant
            p == pow2(s),
            p >= 1,
            excess((n / d) as nat) == s + excess(q as nat),
            p * q <= n / d,
            n / d <= n,
            n < 0x8000_0000_0000_0000_0000_0000_0000_0000,
            s > 0 ==> q >= FRACTION,
        decreases q,
    {
        proof {
            lemma_pow2_unfold(s + 1);
            let h = (q / 2) as int;
            assert((2 * p) * h <= p * q) by (nonlinear_arith)
                requires
                    2 * h <= q,
                    p >= 1,
            ;
            assert(2 * p <= p * q) by (nonlinear_arith)
                requires
                    q >= 2,
                    p >= 1,
            ;
            s = s + 1;
        }
        q = q / 2;
        p = p * 2;
    }
    proof {
        assert(p <= p * q || p == 1) by (nonlinear_arith)
            requires
                q >= 1 || p == 1,
                p >= 1,
        ;
        let nd = (n / d) as int;
        assert(d * nd <= n) by (nonlinear_arith)
            requires
                nd == n as int / d as int,
                d > 0,
                n >= 0,
        ;
        assert(d * p <= n || p == 1) by (nonlinear_arith)
            requires
                p <= nd || p == 1,
                d * nd <= n,
                d > 0,
        ;
        assert(d * p > 0) by (nonlinear_arith)
            requires
                d > 0,
                p > 0,
        ;
    }
    let t: u128 = d * p;
    let whole: u128 = n / t;
    let rest: u128 = n % t;
    let up = !(2 * rest < t || (2 * rest == t && whole % 2 == 0));
    proof {
        let w = whole as int;
        assert(w * p <= n) by (nonlinear_arith)
            requires
                w == n as int / t as int,
                t == d * p,
                d >= 1,
                p >= 1,
                n >= 0,
        ;
        assert((w + 1) * p == w * p + p) by (nonlinear_arith);
    }
    if up {
        (whole + 1) * p
    } else {
        whole * p
    }
}

/// So many bits are enough for so large a number.
pub proof fn excess_fits(q: nat, s: nat)
    requires
        q < 2 * FRACTION * pow2(s),
    ensures
        excess(q) <= s,
    decreases q,
{
    if q >= 2 * FRACTION {
        if s == 0 {
            lemma2_to64();
        } else {
            lemma_pow2_unfold(s);
            let p = pow2((s - 1) as nat);
            assert(pow2(s) == 2 * p);
            let f = 2 * FRACTION as int;
            assert(f * (2 * p) == 2 * (f * p)) by (nonlinear_arith);
            excess_fits(q / 2, (s - 1) as nat);
        }
    }
}

/// The bits that are kept are enough.
pub proof fn excess_is_enough(q: nat)
    ensures
        q < 2 * FRACTION * pow2(excess(q)),
    decreases q,
{
    let f = 2 * FRACTION as int;
    if q < f {
        lemma2_to64();
        assert(excess(q) == 0);
        assert(pow2(excess(q)) == 1);
        assert(f * 1 == f);
    } else {
        let s = excess(q / 2);
        excess_is_enough(q / 2);
        lemma_pow2_unfold(s + 1);
        let p = pow2(s);
        assert(pow2(s + 1) == 2 * p);
        let half = q / 2;
        assert(q < f * (2 * p)) by (nonlinear_arith)
            requires
                half < f * p,
                half == q / 2,
        ;
        assert(excess(q) == s + 1);
        assert(pow2(excess(q)) == 2 * p);
        assert(q < f * pow2(excess(q)));
    }
}

/// The quotient and the remainder of a fraction whose quotient has just the bits
/// that a double keeps say which double is nearest, whatever powers of two are
/// taken out of the fraction.
proof fn nearest_of_reduced(
    n: nat,
    d: nat,
    e: nat,
    num: nat,
    den: nat,
    c: nat,
    q: nat,
    r: nat,
)
    requires
        d > 0,
        den > 0,
        c > 0,
        n == num * c,
        d * pow2(e) == den * c,
        num == q * den + r,
        r < den,
        FRACTION <= q < 2 * FRACTION,
    ensures
        nearest(n, d) == half_even(num, den) * pow2(e),
        num / den == q,
        num % den == r,
{
    let p = pow2(e);
    let f = FRACTION as int;
    lemma_pow2_pos(e);
    lemma_fundamental_div_mod_converse(num as int, den as int, q as int, r as int);
    let whole = n / d;
    lemma_fundamental_div_mod(n as int, d as int);
    let rest = n % d;
    assert(n >= d * (q * p) && n < d * ((q + 1) * p)) by (nonlinear_arith)
        requires
            n == num * c,
            d * p == den * c,
            num == q * den + r,
            r < den,
            c > 0,
    ;
    assert(whole >= q * p) by (nonlinear_arith)
        requires
            n == d * whole + rest,
            0 <= rest < d,
            n >= d * (q * p),
    ;
    assert(whole < (q + 1) * p) by (nonlinear_arith)
        requires
            n == d * whole + rest,
            0 <= rest < d,
            n < d * ((q + 1) * p),
    ;
    assert(whole < 2 * f * p) by (nonlinear_arith)
        requires
            whole < (q + 1) * p,
            q < 2 * f,
            p > 0,
    ;
    assert(whole >= f * p) by (nonlinear_arith)
        requires
            whole >= q * p,
            q >= f,
            p > 0,
    ;
    excess_fits(whole, e);
    excess_is_enough(whole);
    let g = excess(whole);
    if g < e {
        lemma_pow2_unfold(e);
        if g < e - 1 {
            lemma_pow2_strictly_increases(g, (e - 1) as nat);
        }
        let pg = pow2(g);
        assert(2 * f * pg <= f * p) by (nonlinear_arith)
            requires
                2 * pg <= p,
                f > 0,
        ;
    }
    half_even_of_scaled(num, den, c);
    assert(d * p == den * c);
}

/// A common factor does not matter.
proof fn half_even_of_scaled(n: nat, d: nat, c: nat)
    requires
        d > 0,
        c > 0,
    ensures
        half_even(n * c, d * c) == half_even(n, d),
{
    let q = (n / d) as int;
    let r = (n % d) as int;
    lemma_fundamental_div_mod(n as int, d as int);
    let dc = (d * c) as int;
    let rc = r * c;
    assert(n * c == q * dc + rc && 0 <= rc < dc) by (nonlinear_arith)
        requires
            n == d * q + r,
            0 <= r < d,
            c > 0,
            dc == d * c,
            rc == r * c,
    ;
    lemma_fundamental_div_mod_converse((n * c) as int, dc, q, rc);
    assert((2 * rc < dc) == (2 * r < d)) by (nonlinear_arith)
        requires
            rc == r * c,
            dc == d * c,
            c > 0,
    ;
    assert((2 * rc == dc) == (2 * r == d)) by (nonlinear_arith)
        requires
            rc == r * c,
            dc == d * c,
            c > 0,
    ;
}

/// The double with these significant bits, so far to the left. A carry out of the
/// bits moves it one further.
fn assembled(m: u64, e: u64) -> (r: Double)
    requires
        FRACTION <= m <= 2 * FRACTION,
        e <= 1200,
    ensures
        !r.negative(),
        r.exponent() < SPECIAL,
        r.units() == m as nat * pow2(e as nat),
        r.bits > 0,
{
    let r = Double { bits: e * FRACTION + m };
    proof {
        let b = r.bits as int;
        let f = FRACTION as int;
        if m < 2 * FRACTION {
            assert(b == (e + 1) * f + (m - f)) by (nonlinear_arith)
                requires
                    b == e * f + m,
            ;
            lemma_fundamental_div_mod_converse(b, f, e + 1, m - f);
        } else {
            assert(b == (e + 2) * f + 0) by (nonlinear_arith)
                requires
                    b == e * f + m,
                    m == 2 * f,
            ;
            lemma_fundamental_div_mod_converse(b, f, e + 2, 0);
            lemma_pow2_unfold((e + 1) as nat);
            let p = pow2(e as nat) as int;
            assert(f * (2 * p) == 2 * f * p) by (nonlinear_arith);
        }
    }
    r
}

/// The double nearest to `n / d`.
pub fn quotient(n: u128, d: u128) -> (r: Double)
    requires
        n <= 0x8000_0000_0000_0000_0000_0000_0000_0000,
        0 < d <= 1_000_000_000,
    ensures
        !r.negative(),
        r.exponent() < SPECIAL,
        r.units() == nearest(n as nat * one(), d as nat),
        n > 0 <==> r.bits > 0,
{
    if n == 0 {
        proof {
            lemma_pow2_pos(0);
            lemma2_to64();
            lemma_fundamental_div_mod_converse(0, d as int, 0, 0);
            assert(0nat * one() == 0);
            assert(excess(0) == 0);
        }
        return Double { bits: 0 };
    }
    let f: u128 = FRACTION as u128;
    let mut q: u128 = n / d;
    let mut rest: u128 = n % d;
    proof {
        lemma_fundamental_div_mod(n as int, d as int);
        assert(d * q == q * d) by (nonlinear_arith);
        lemma2_to64();
        lemma_pow2_pos(1074);
    }
    if q < 2 * f {
        let mut k: u64 = 0;
        while q < f
            invariant
                0 < n,
                0 < d <= 1_000_000_000,
                f == FRACTION,
                k <= 82,
                q < 2 * f,
                rest < d,
                n as nat * pow2(k as nat) == q as nat * d as nat + rest as nat,
            decreases 82 - k,
        {
            proof {
                let p = pow2(k as nat) as int;
                let nn = n as int;
                let qd = q * d;
                assert(p <= nn * p) by (nonlinear_arith)
                    requires
                        nn >= 1,
                        p >= 0,
                ;
                assert(qd + rest < 0x10_0000_0000_0000 * 1_000_000_000) by (nonlinear_arith)
                    requires
                        qd == q * d,
                        q <= 0x10_0000_0000_0000 - 1,
                        rest < d,
                        0 < d <= 1_000_000_000,
                ;
                lemma2_to64();
                lemma_pow2_adds(64, 18);
                if k == 82 {
                    assert(p == pow2(64) * pow2(18));
                    assert(false);
                }
                lemma_pow2_unfold((k + 1) as nat);
                assert(nn * (2 * p) == 2 * (nn * p)) by (nonlinear_arith);
                let q2 = 2 * q;
                assert(q2 * d == 2 * qd) by (nonlinear_arith)
                    requires
                        q2 == 2 * q,
                        qd == q * d,
                ;
                assert((q2 + 1) * d == q2 * d + d) by (nonlinear_arith);
            }
            rest = 2 * rest;
            q = 2 * q;
            if rest >= d {
                rest = rest - d;
                q = q + 1;
            }
            k += 1;
        }
        let up = !(2 * rest < d || (2 * rest == d && q % 2 == 0));
        let m: u64 = if up {
            (q + 1) as u64
        } else {
            q as u64
        };
        let e: u64 = 1074 - k;
        proof {
            let num = n as nat * pow2(k as nat);
            lemma_pow2_adds(k as nat, e as nat);
            lemma_pow2_pos(e as nat);
            let a = n as int;
            let b = pow2(k as nat) as int;
            let c = pow2(e as nat) as int;
            assert(a * (b * c) == (a * b) * c) by (nonlinear_arith);
            nearest_of_reduced(
                n as nat * one(),
                d as nat,
                e as nat,
                num,
                d as nat,
                pow2(e as nat),
                q as nat,
                rest as nat,
            );
        }
        return assembled(m, e);
    }
    let mut t: u128 = d;
    let mut s: u64 = 0;
    while q >= 2 * f
        invariant
            0 < n <= 0x8000_0000_0000_0000_0000_0000_0000_0000,
            0 < d <= t,
            f == FRACTION,
            q >= f,
            q == n / t,
            t as nat == d as nat * pow2(s as nat),
            s <= 100,
            q as nat * pow2(s as nat) <= n,
        decreases q,
    {
        proof {
            let p = pow2(s as nat) as int;
            let qq = q as int;
            if s == 100 {
                lemma2_to64();
                lemma2_to64_rest();
                lemma_pow2_adds(64, 36);
                assert(p == 0x1_0000_0000_0000_0000 * 0x10_0000_0000);
                assert(qq * p >= 2 * 0x10_0000_0000_0000 * p) by (nonlinear_arith)
                    requires
                        qq >= 2 * 0x10_0000_0000_0000,
                        p >= 0,
                ;
                assert(false);
            }
            lemma_fundamental_div_mod(n as int, t as int);
            let r = n as int % t as int;
            assert(2 * t <= n) by (nonlinear_arith)
                requires
                    n == t * qq + r,
                    r >= 0,
                    qq >= 2,
                    t > 0,
            ;
            lemma_pow2_unfold((s + 1) as nat);
            let dd = d as int;
            assert(dd * (2 * p) == 2 * (dd * p)) by (nonlinear_arith);
            lemma_div_denominator(n as int, t as int, 2);
            assert(t * 2 == 2 * t);
            let h = qq / 2;
            assert(h * (2 * p) <= qq * p) by (nonlinear_arith)
                requires
                    2 * h <= qq,
                    p >= 0,
            ;
        }
        t = 2 * t;
        q = n / t;
        s += 1;
    }
    let left: u128 = n % t;
    proof {
        lemma_fundamental_div_mod(n as int, t as int);
        let qq = q as int;
        let l = left as int;
        assert(2 * l < 2 * n) by (nonlinear_arith)
            requires
                n == t * qq + l,
                0 <= l < t,
                qq >= 1,
        ;
        assert(t * qq == qq * t) by (nonlinear_arith);
    }
    let up = !(2 * left < t || (2 * left == t && q % 2 == 0));
    let m: u64 = if up {
        (q + 1) as u64
    } else {
        q as u64
    };
    let e: u64 = 1074 + s;
    proof {
        lemma_pow2_adds(s as nat, 1074);
        let dd = d as int;
        let p = pow2(s as nat) as int;
        let o = one() as int;
        assert(dd * (p * o) == (dd * p) * o) by (nonlinear_arith);
        nearest_of_reduced(
            n as nat * one(),
            d as nat,
            e as nat,
            n as nat,
            t as nat,
            one(),
            q as nat,
            left as nat,
        );
    }
    assembled(m, e)
}

// ---------------------------------------------------------------------------
// Printing
// ---------------------------------------------------------------------------

/// Ten to the power of `places`.
pub open spec fn ten_to(places: nat) -> nat
    decreases places,
{
    if places == 0 {
        1
    } else {
        10 * ten_to((places - 1) as nat)
    }
}

/// `q` with the point before its last `places` digits.
pub open spec fn pointed(q: nat, places: nat) -> Seq<char> {
    text::dec(q / ten_to(places)) + seq!['.'] + text::dec_padded(q % ten_to(places), places)
}

/// The number with `places` digits behind the point, a tie to the even digit.
pub open spec fn fixed(x: Double, places: nat) -> Seq<char> {
    if x.is_nan() {
        "NaN"@
    } else {
        (if x.negative() {
            seq!['-']
        } else {
            Seq::empty()
        }) + (if x.is_infinite() {
            "inf"@
        } else {
            pointed(half_even(x.units() * ten_to(places), one()), places)
        })
    }
}

/// The number whose decimal digits these are, the lowest first.
spec fn digits_value(ds: Seq<u8>) -> nat
    decreases ds.len(),
{
    if ds.len() == 0 {
        0
    } else {
        digits_value(ds.drop_last()) + ds.last() as nat * ten_to((ds.len() - 1) as nat)
    }
}

/// Decimal digits, the lowest first, without zeros above the highest.
spec fn proper_digits(ds: Seq<u8>) -> bool {
    &&& ds.len() > 0
    &&& ds.len() > 1 ==> ds.last() != 0
    &&& forall|i: int| 0 <= i < ds.len() ==> #[trigger] ds[i] < 10
}

proof fn lowest_digit(ds: Seq<u8>)
    requires
        ds.len() > 0,
    ensures
        digits_value(ds) == ds[0] as nat + 10 * digits_value(ds.drop_first()),
    decreases ds.len(),
{
    let n = ds.len();
    if n == 1 {
        assert(ds.drop_last() =~= Seq::<u8>::empty());
        assert(ds.drop_first() =~= Seq::<u8>::empty());
        assert(ten_to(0) == 1);
        assert(ds[0] as nat * ten_to(0) == ds[0] as nat) by (nonlinear_arith)
            requires
                ten_to(0) == 1,
        ;
    } else {
        lowest_digit(ds.drop_last());
        assert(ds.drop_first().last() == ds.last());
        assert(ds.drop_last().drop_first() =~= ds.drop_first().drop_last());
        let t = ten_to((n - 2) as nat) as int;
        let d = ds.last() as int;
        assert(ten_to((n - 1) as nat) == 10 * t);
        assert(d * (10 * t) == 10 * (d * t)) by (nonlinear_arith);
    }
}

/// Writing the digits from the highest down is writing the number.
proof fn digits_are_decimal(ds: Seq<u8>)
    requires
        proper_digits(ds),
    ensures
        ds.reverse().map_values(|d: u8| text::digit(d as nat)) == text::dec(digits_value(ds)),
    decreases ds.len(),
{
    let show = |d: u8| text::digit(d as nat);
    lowest_digit(ds);
    let rest = ds.drop_first();
    if ds.len() == 1 {
        assert(rest =~= Seq::<u8>::empty());
        assert(ds.reverse().map_values(show) =~= text::dec(digits_value(ds)));
    } else {
        assert forall|i: int| 0 <= i < rest.len() implies #[trigger] rest[i] < 10 by {
            assert(ds[i + 1] < 10);
        }
        digits_are_decimal(rest);
        highest_digit(rest);
        assert(ds[0] < 10);
        assert(ds.reverse() =~= rest.reverse().push(ds[0]));
        assert(ds.reverse().map_values(show) =~= rest.reverse().map_values(show).push(
            text::digit(ds[0] as nat),
        ));
    }
}

/// A proper number whose highest digit is not zero is not zero.
proof fn highest_digit(ds: Seq<u8>)
    requires
        ds.len() > 0,
        ds.last() != 0,
    ensures
        digits_value(ds) > 0,
{
    let t = ten_to((ds.len() - 1) as nat);
    ten_to_positive((ds.len() - 1) as nat);
    assert(ds.last() as nat * t > 0) by (nonlinear_arith)
        requires
            ds.last() > 0,
            t > 0,
    ;
}

proof fn ten_to_positive(places: nat)
    ensures
        ten_to(places) > 0,
    decreases places,
{
    if places > 0 {
        ten_to_positive((places - 1) as nat);
    }
}

/// The digits of a number, the lowest first.
fn digits_of(n: u64) -> (ds: Vec<u8>)
    ensures
        proper_digits(ds@),
        digits_value(ds@) == n,
{
    let mut ds: Vec<u8> = Vec::new();
    let mut rest: u64 = n;
    let ghost mut t: nat = 1;
    while rest >= 10
        invariant
            t == ten_to(ds@.len()),
            digits_value(ds@) + rest * t == n,
            rest > 0 || ds@.len() == 0,
            forall|i: int| 0 <= i < ds@.len() ==> #[trigger] ds@[i] < 10,
        decreases rest,
    {
        let ghost before = ds@;
        let d: u8 = (rest % 10) as u8;
        ds.push(d);
        assert(ds@.drop_last() =~= before);
        proof {
            let r = rest as int;
            let h = r / 10;
            let l = r % 10;
            assert(r == 10 * h + l);
            assert(r * t == l * t + h * (10 * t)) by (nonlinear_arith)
                requires
                    r == 10 * h + l,
            ;
            t = 10 * t;
        }
        rest = rest / 10;
    }
    let ghost before = ds@;
    ds.push(rest as u8);
    assert(ds@.drop_last() =~= before);
    ds
}

/// Doubles a number that is held by its digits.
fn double_digits(ds: &mut Vec<u8>)
    requires
        proper_digits(old(ds)@),
    ensures
        proper_digits(final(ds)@),
        digits_value(final(ds)@) == 2 * digits_value(old(ds)@),
{
    let ghost before = ds@;
    let mut out: Vec<u8> = Vec::new();
    let mut carry: u8 = 0;
    let mut i: usize = 0;
    assert(before.take(0) =~= Seq::<u8>::empty());
    while i < ds.len()
        invariant
            ds@ == before,
            i <= ds@.len(),
            out@.len() == i,
            carry <= 1,
            proper_digits(before),
            forall|j: int| 0 <= j < i ==> #[trigger] out@[j] < 10,
            i > 0 && out@[i - 1] == 0 && carry == 0 ==> before[i - 1] == 0,
            digits_value(out@) + carry as nat * ten_to(i as nat) == 2 * digits_value(
                before.take(i as int),
            ),
        decreases ds@.len() - i,
    {
        let ghost done = out@;
        let ghost c = carry as int;
        assert(before[i as int] < 10);
        let d: u8 = 2 * ds[i] + carry;
        if d >= 10 {
            out.push(d - 10);
            carry = 1;
        } else {
            out.push(d);
            carry = 0;
        }
        proof {
            assert(out@.drop_last() =~= done);
            assert(before.take(i + 1).drop_last() =~= before.take(i as int));
            let t = ten_to(i as nat) as int;
            let o = before[i as int] as int;
            let l = out@.last() as int;
            let k = carry as int;
            assert(ten_to((i + 1) as nat) == 10 * t);
            assert(l * t + k * (10 * t) == c * t + 2 * (o * t)) by (nonlinear_arith)
                requires
                    l + 10 * k == 2 * o + c,
            ;
        }
        i += 1;
    }
    assert(before.take(before.len() as int) =~= before);
    if carry > 0 {
        let ghost done = out@;
        out.push(carry);
        assert(out@.drop_last() =~= done);
    }
    *ds = out;
}

/// Appends `m` times two to the power of `k`, in decimal.
fn push_shifted(out: &mut String, m: u64, k: u64)
    ensures
        final(out)@ == old(out)@ + text::dec(m as nat * pow2(k as nat)),
{
    let mut ds = digits_of(m);
    let mut i: u64 = 0;
    proof {
        lemma2_to64();
        assert(m as nat * 1 == m as nat);
    }
    while i < k
        invariant
            i <= k,
            proper_digits(ds@),
            digits_value(ds@) == m as nat * pow2(i as nat),
        decreases k - i,
    {
        double_digits(&mut ds);
        proof {
            lemma_pow2_unfold((i + 1) as nat);
            let p = pow2(i as nat);
            assert(m as nat * (2 * p) == 2 * (m as nat * p)) by (nonlinear_arith);
        }
        i += 1;
    }
    let ghost show = |d: u8| text::digit(d as nat);
    let ghost shown = ds@.reverse().map_values(show);
    let mut left: usize = ds.len();
    while left > 0
        invariant
            left <= ds@.len(),
            show == (|d: u8| text::digit(d as nat)),
            shown == ds@.reverse().map_values(show),
            proper_digits(ds@),
            out@ =~= old(out)@ + shown.take(ds@.len() - left),
        decreases left,
    {
        left -= 1;
        assert(ds@[left as int] < 10);
        out.push((48u8 + ds[left]) as char);
        assert(shown[ds@.len() - left - 1] == text::digit(ds@[left as int] as nat));
    }
    proof {
        digits_are_decimal(ds@);
        assert(shown.take(shown.len() as int) =~= shown);
    }
}

/// Appends `q` with the point before its last `places` digits.
pub fn push_pointed(out: &mut String, q: u128, places: u32)
    requires
        places <= 9,
    ensures
        final(out)@ == old(out)@ + pointed(q as nat, places as nat),
{
    let t = power_of_ten(places);
    push_dec(out, q / t);
    out.push('.');
    push_dec_padded(out, q % t, places as usize);
    assert(out@ =~= old(out)@ + pointed(q as nat, places as nat));
}

/// Ten to the power of `places`.
pub fn power_of_ten(places: u32) -> (r: u128)
    requires
        places <= 9,
    ensures
        r == ten_to(places as nat),
        0 < r <= 1_000_000_000,
        places <= 4 ==> r <= 10_000,
{
    let mut r: u128 = 1;
    let mut i: u32 = 0;
    while i < places
        invariant
            i <= places <= 9,
            r == ten_to(i as nat),
            0 < r,
            i == 0 ==> r <= 1,
            i == 1 ==> r <= 10,
            i == 2 ==> r <= 100,
            i == 3 ==> r <= 1_000,
            i == 4 ==> r <= 10_000,
            i == 5 ==> r <= 100_000,
            i == 6 ==> r <= 1_000_000,
            i == 7 ==> r <= 10_000_000,
            i == 8 ==> r <= 100_000_000,
            i == 9 ==> r <= 1_000_000_000,
        decreases places - i,
    {
        r = r * 10;
        i += 1;
    }
    r
}

/// Appends the number with `places` digits behind the point.
pub fn push_fixed(out: &mut String, x: Double, places: u32)
    requires
        places <= 4,
    ensures
        final(out)@ == old(out)@ + fixed(x, places as nat),
{
    if x.nan() {
        out.append("NaN");
        return;
    }
    if x.below_zero() {
        out.push('-');
    }
    let ghost signed = out@;
    if x.infinite() {
        out.append("inf");
        assert(out@ =~= old(out)@ + fixed(x, places as nat));
        return;
    }
    let m = x.significand();
    let k = x.left_shift();
    let t = power_of_ten(places);
    if k >= 1074 {
        push_shifted(out, m, k - 1074);
        out.push('.');
        push_dec_padded(out, 0, places as usize);
        proof {
            let j = (k - 1074) as nat;
            lemma_pow2_adds(j, 1074);
            lemma_pow2_pos(1074);
            let w = m as int * pow2(j);
            let o = one() as int;
            let tt = t as int;
            let pj = pow2(j) as int;
            assert(m as int * (pj * o) == w * o) by (nonlinear_arith)
                requires
                    w == m as int * pj,
            ;
            assert((w * o) * tt == (w * tt) * o + 0) by (nonlinear_arith);
            lemma_fundamental_div_mod_converse((w * o) * tt, o, w * tt, 0);
            assert(half_even(x.units() * t as nat, one()) == w * tt);
            lemma_fundamental_div_mod_converse(w * tt, tt, w, 0);
        }
        assert(out@ =~= old(out)@ + fixed(x, places as nat));
        return;
    }
    let s: u64 = 1074 - k;
    proof {
        reduced_ratio(x, s as nat, t as nat);
        lemma_pow2_pos(s as nat);
        assert(m * t <= 0x20_0000_0000_0000 * 10_000) by (nonlinear_arith)
            requires
                m < 0x20_0000_0000_0000,
                t <= 10_000,
        ;
    }
    let n: u128 = m as u128 * t;
    let mut q: u128 = 0;
    if s < 70 {
        proof {
            lemma2_to64();
            lemma_pow2_adds(64, 6);
            lemma_pow2_strictly_increases(s as nat, 70);
        }
        let d = two_to(s);
        q = n / d;
        let rest = n % d;
        if !(2 * rest < d || (2 * rest == d && q % 2 == 0)) {
            q = q + 1;
        }
    } else {
        proof {
            lemma2_to64();
            lemma_pow2_adds(64, 6);
            if s > 70 {
                lemma_pow2_strictly_increases(70, s as nat);
            }
            let p = pow2(s as nat) as int;
            assert(n as int / p == 0 && n as int % p == n) by (nonlinear_arith)
                requires
                    0 <= n < p,
            ;
        }
    }
    push_pointed(out, q, places);
    assert(out@ =~= old(out)@ + fixed(x, places as nat));
}

// ---------------------------------------------------------------------------
// Laws
// ---------------------------------------------------------------------------

/// Rounding to even goes to an integer that is nearest, and from the middle to the
/// even one.
pub proof fn law_half_even_is_nearest(n: nat, d: nat)
    requires
        d > 0,
    ensures
        ({
            let off = n - half_even(n, d) * d;
            &&& -(d as int) <= 2 * off <= d
            &&& 2 * off == d || 2 * off == -(d as int) ==> half_even(n, d) % 2 == 0
        }),
{
    let q = n as int / d as int;
    let r = n as int % d as int;
    lemma_fundamental_div_mod(n as int, d as int);
    lemma_mod_bound(n as int, d as int);
    assert(d * q == q * d) by (nonlinear_arith);
    assert((q + 1) * d == q * d + d) by (nonlinear_arith);
}

/// Rounding up goes to an integer that is nearest, and from the middle to the
/// larger one.
pub proof fn law_half_up_is_nearest(n: nat, d: nat)
    requires
        d > 0,
    ensures
        ({
            let off = n - half_up(n, d) * d;
            -(d as int) <= 2 * off < d
        }),
{
    let m = 2 * n + d;
    let e = 2 * d;
    lemma_fundamental_div_mod(m as int, e as int);
    lemma_mod_bound(m as int, e as int);
    let q = half_up(n, d);
    assert(e * q == 2 * (q * d)) by (nonlinear_arith)
        requires
            e == 2 * d,
    ;
}

/// Every digit of a number with a point is a digit, the point aside.
pub proof fn a_number_is_digits_and_a_point(q: nat, places: nat)
    ensures
        !pointed(q, places).contains(','),
        forall|i: int|
            0 <= i < pointed(q, places).len() ==> #[trigger] pointed(q, places)[i] == '.' || '0'
                <= pointed(q, places)[i] <= '9',
{
    let whole = text::dec(q / ten_to(places));
    let part = text::dec_padded(q % ten_to(places), places);
    let t = pointed(q, places);
    text::dec_digits(q / ten_to(places));
    text::law_a_padded_number_reads_back(q % ten_to(places), places);
    assert forall|i: int| 0 <= i < t.len() implies #[trigger] t[i] == '.' || '0' <= t[i]
        <= '9' by {
        if i < whole.len() {
            assert(t[i] == whole[i]);
        } else if i > whole.len() {
            assert(t[i] == part[i - whole.len() - 1]);
        }
    }
}

/// A number with a point reads back: the digits before the point and those behind
/// it are so many whole ones and so many of the last place, and so many places
/// stand behind the point.
pub proof fn law_a_pointed_number_reads_back(q: nat, places: nat)
    requires
        places > 0,
    ensures
        ({
            let t = pointed(q, places);
            let at = t.len() - 1 - places;
            &&& at > 0 && t[at] == '.'
            &&& text::read_dec(t.take(at)) * ten_to(places) + text::read_dec(t.skip(at + 1)) == q
        }),
{
    let t = pointed(q, places);
    let p = ten_to(places);
    ten_to_positive(places);
    let whole = text::dec(q / p);
    let part = text::dec_padded(q % p, places);
    lemma_fundamental_div_mod(q as int, p as int);
    lemma_mod_bound(q as int, p as int);
    below_a_power_fits(q % p, places);
    text::padded_steps(q % p, places);
    text::law_a_padded_number_reads_back(q % p, places);
    text::dec_reads_back(q / p);
    text::dec_nonempty(q / p);
    let at = t.len() - 1 - places;
    assert(t.take(at) =~= whole);
    assert(t.skip(at + 1) =~= part);
    assert(p * (q / p) == (q / p) * p) by (nonlinear_arith);
}

proof fn below_a_power_fits(n: nat, places: nat)
    requires
        n < ten_to(places),
    ensures
        text::fits(n, places),
    decreases places,
{
    if places > 0 {
        below_a_power_fits(n / 10, (places - 1) as nat);
    }
}

/// A number is shown with a minus exactly if it is below zero, and otherwise as
/// its size is.
pub proof fn law_the_sign_stands_first(x: Double, places: nat)
    requires
        !x.is_nan(),
    ensures
        x.negative() ==> fixed(x, places) == seq!['-'] + fixed(x.magnitude(), places),
        !x.negative() ==> fixed(x, places) == fixed(x.magnitude(), places),
        !x.is_infinite() ==> fixed(x.magnitude(), places) == pointed(
            half_even(x.units() * ten_to(places), one()),
            places,
        ),
        x.is_infinite() ==> fixed(x.magnitude(), places) == "inf"@,
{
    magnitude_keeps_the_size(x);
    let m = x.magnitude();
    assert(fixed(m, places) =~= (if x.is_infinite() {
        "inf"@
    } else {
        pointed(half_even(x.units() * ten_to(places), one()), places)
    }));
    assert(x.negative() ==> fixed(x, places) =~= seq!['-'] + fixed(m, places));
}

/// The exponent counts doublings: one more makes a number twice as large. The
/// pattern of one is one, and the smallest number is one unit.
#[verifier::rlimit(50)]
pub proof fn law_the_exponent_doubles(x: Double)
    requires
        1 <= x.exponent() < SPECIAL - 1,
    ensures
        (Double { bits: (x.bits + FRACTION) as u64 }).units() == 2 * x.units(),
        (Double { bits: 0x3ff0_0000_0000_0000 }).units() == one(),
        (Double { bits: 1 }).units() == 1,
{
    let y = Double { bits: (x.bits + FRACTION) as u64 };
    assert(x.bits + FRACTION <= u64::MAX && y.exponent() == x.exponent() + 1 && y.fraction()
        == x.fraction()) by {
        let b = x.bits;
        assert(b + 0x10_0000_0000_0000u64 <= 0xffff_ffff_ffff_ffffu64 && ((b
            + 0x10_0000_0000_0000u64) as u64 / 0x10_0000_0000_0000u64) % 2048 == (b
            / 0x10_0000_0000_0000u64) % 2048 + 1 && (b + 0x10_0000_0000_0000u64) as u64
            % 0x10_0000_0000_0000u64 == b % 0x10_0000_0000_0000u64) by (bit_vector)
            requires
                1 <= (b / 0x10_0000_0000_0000u64) % 2048 < 0x7fe,
        ;
    }
    lemma_pow2_unfold(y.shift());
    assert(y.mantissa() * (2 * pow2(x.shift())) == 2 * (x.mantissa() * pow2(x.shift())))
        by (nonlinear_arith)
        requires
            x.mantissa() == y.mantissa(),
    ;
    let unit = Double { bits: 0x3ff0_0000_0000_0000 };
    assert(unit.exponent() == 1023 && unit.fraction() == 0);
    lemma_pow2_adds(52, 1022);
    lemma2_to64();
    lemma2_to64_rest();
    let least = Double { bits: 1 };
    assert(least.exponent() == 0 && least.fraction() == 1);
    assert(least.units() == 1 * pow2(0));
    assert(1 * pow2(0) == pow2(0)) by (nonlinear_arith);
}

/// A quotient of many bits is rounded to a multiple of a power of two, to one that
/// is nearest, and no bit is dropped that a double can keep.
#[verifier::rlimit(50)]
pub proof fn law_nearest_is_nearest(n: nat, d: nat)
    requires
        d > 0,
    ensures
        ({
            let p = pow2(excess(n / d));
            let off = n - nearest(n, d) * d;
            &&& p > 0
            &&& -((d * p) as int) <= 2 * off <= d * p
            &&& nearest(n, d) % p == 0
            &&& p == 1 || n / d >= FRACTION * p
        }),
{
    let s = excess(n / d);
    let p = pow2(s);
    lemma_pow2_pos(s);
    assert(d * p > 0) by (nonlinear_arith)
        requires
            d > 0,
            p > 0,
    ;
    law_half_even_is_nearest(n, d * p);
    let h = half_even(n, d * p);
    assert(h * (d * p) == (h * p) * d) by (nonlinear_arith);
    lemma_mod_multiples_basic(h as int, p as int);
    no_bit_is_dropped(n / d);
}

proof fn no_bit_is_dropped(q: nat)
    ensures
        pow2(excess(q)) == 1 || q >= FRACTION * pow2(excess(q)),
    decreases q,
{
    if q < 2 * FRACTION {
        lemma2_to64();
    } else {
        no_bit_is_dropped(q / 2);
        lemma_pow2_unfold(excess(q));
        lemma2_to64();
        let p = pow2(excess(q / 2)) as int;
        assert(pow2(excess(q)) == 2 * p);
        if p == 1 {
            assert(FRACTION * (2 * p) == 2 * FRACTION) by (nonlinear_arith)
                requires
                    p == 1,
            ;
        } else {
            assert(FRACTION * (2 * p) == 2 * (FRACTION * p)) by (nonlinear_arith);
        }
    }
}

/// What is asked of a double is answered of the number it stands for.
#[verifier::rlimit(50)]
pub proof fn law_what_is_asked_of_doubles(
    x: &Double,
    y: Double,
    n: u32,
    reaches: bool,
    rounded: u32,
    below: bool,
    zero: bool,
    size: Double,
)
    requires
        n > 0,
        !y.negative() && y.exponent() < SPECIAL && y.bits > 0,
        !x.is_nan() && !x.is_infinite(),
        call_ensures(Double::reaches, (x, n), reaches),
        call_ensures(Double::round, (x,), rounded),
        call_ensures(Double::below, (x, y), below),
        call_ensures(Double::zero, (x,), zero),
        call_ensures(Double::abs, (x,), size),
    ensures
        !x.negative() ==> (reaches <==> x.units() >= n * one()),
        x.negative() ==> !reaches && rounded == 0,
        !x.negative() && x.units() < u32::MAX * one() ==> -(one() as int) <= 2 * (x.units()
            - rounded * one()) < one(),
        !x.negative() ==> (below <==> x.units() < y.units()),
        x.negative() ==> below,
        !size.negative() && size.units() == x.units(),
        zero ==> x.units() == 0,
{
    lemma_pow2_pos(1074);
    law_half_up_is_nearest(x.units(), one());
    magnitude_keeps_the_size(*x);
    let h = half_up(x.units(), one()) as int;
    let u = x.units() as int;
    let o = one() as int;
    if u < u32::MAX * o {
        assert(h <= u32::MAX) by (nonlinear_arith)
            requires
                o > 0,
                u < u32::MAX * o,
                -o <= 2 * (u - h * o) < o,
        ;
    }
    if zero {
        let b = x.bits;
        assert(b % 0x10_0000_0000_0000u64 == 0 && (b / 0x10_0000_0000_0000u64) % 2048 == 0)
            by (bit_vector)
            requires
                b % 0x8000_0000_0000_0000u64 == 0,
        ;
        assert(x.mantissa() == 0);
        assert(0 * pow2(x.shift()) == 0);
    }
}

/// Which patterns are numbers: those below the pattern of the infinite one, the
/// sign aside; those above it are none.
pub proof fn law_which_patterns_are_numbers(x: &Double, nan: bool, infinite: bool, below: bool)
    requires
        call_ensures(Double::nan, (x,), nan),
        call_ensures(Double::infinite, (x,), infinite),
        call_ensures(Double::below_zero, (x,), below),
    ensures
        nan <==> x.bits % 0x8000_0000_0000_0000 > 0x7ff0_0000_0000_0000,
        infinite <==> x.bits % 0x8000_0000_0000_0000 == 0x7ff0_0000_0000_0000,
        below <==> x.bits >= 0x8000_0000_0000_0000,
        nan ==> fixed(*x, 2) == "NaN"@,
{
    let b = x.bits;
    assert(((b / 0x10_0000_0000_0000u64) % 2048 == 0x7ff && b % 0x10_0000_0000_0000u64 != 0)
        == (b % 0x8000_0000_0000_0000u64 > 0x7ff0_0000_0000_0000u64)) by (bit_vector);
    assert(((b / 0x10_0000_0000_0000u64) % 2048 == 0x7ff && b % 0x10_0000_0000_0000u64 == 0)
        == (b % 0x8000_0000_0000_0000u64 == 0x7ff0_0000_0000_0000u64)) by (bit_vector);
}

/// Numbers are the same where their patterns are, and zero is the same under both
/// signs; what is no number is the same as nothing, itself not excepted.
pub proof fn law_which_numbers_are_the_same(x: Double, y: Double)
    ensures
        x.same_number(y) == y.same_number(x),
        x.is_nan() ==> !x.same_number(y),
        !x.is_nan() ==> x.same_number(x),
        (Double { bits: 0 }).same_number(Double { bits: 0x8000_0000_0000_0000 }),
        x.bits != y.bits && x.bits % 0x8000_0000_0000_0000 != 0 ==> !x.same_number(y),
{
}

/// The pattern of a cent is the double nearest to a hundredth.
#[verifier::rlimit(50)]
pub proof fn law_a_cent_is_a_hundredth()
    ensures
        ({
            let off = 100 * (Double { bits: CENT }).units() - one();
            -50 * pow2(1015) <= off <= 50 * pow2(1015)
        }),
        (Double { bits: CENT }).mantissa() >= FRACTION && (Double { bits: CENT }).shift() == 1015,
{
    let cent = Double { bits: CENT };
    assert(cent.exponent() == 1016);
    assert(cent.fraction() == 0x4_7ae1_47ae_147b);
    lemma_pow2_adds(59, 1015);
    lemma_pow2_pos(1015);
    lemma2_to64();
    lemma2_to64_rest();
    let p = pow2(1015) as int;
    let m = cent.mantissa() as int;
    assert(one() == 0x800_0000_0000_0000 * p);
    assert(100 * (m * p) == (100 * m) * p) by (nonlinear_arith);
    assert((100 * m) * p - 0x800_0000_0000_0000 * p == 12 * p) by (nonlinear_arith)
        requires
            m == 0x14_7ae1_47ae_147b,
    ;
}

/// What is appended of a number is the number with so many places.
pub proof fn law_what_is_appended_of_a_number(
    out: &mut String,
    x: Double,
    places: u32,
    also: &mut String,
    q: u128,
)
    requires
        places <= 4,
        call_ensures(push_fixed, (out, x, places), ()),
        call_ensures(push_pointed, (also, q, places), ()),
    ensures
        final(out)@ == old(out)@ + fixed(x, places as nat),
        final(also)@ == old(also)@ + pointed(q as nat, places as nat),
{
}

/// The quotient of two numbers is the double nearest to it.
pub proof fn law_a_quotient_is_nearest(n: u128, d: u128, r: Double)
    requires
        n <= 0x8000_0000_0000_0000_0000_0000_0000_0000,
        0 < d <= 1_000_000_000,
        call_ensures(quotient, (n, d), r),
    ensures
        ({
            let units = n as nat * one();
            let p = pow2(excess(units / d as nat));
            let off = units - r.units() * d;
            &&& -((d * p) as int) <= 2 * off <= d * p
            &&& !r.negative() && !r.is_nan() && !r.is_infinite()
        }),
{
    law_nearest_is_nearest(n as nat * one(), d as nat);
}

} // verus!
