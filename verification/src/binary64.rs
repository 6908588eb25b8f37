//! IEEE 754 binary64 numbers, held by their bit patterns.
//!
//! Success rates, exploration thresholds and decay factors are binary64
//! numbers. This module says what such a number is worth, what it means to
//! round a ratio to the nearest one, and computes the few operations that the
//! router needs on integers alone.

use vstd::arithmetic::mul::*;
use vstd::arithmetic::power2::*;
use vstd::prelude::*;

verus! {

/// Bits of the fraction field, as a power of two: 2^52.
pub const HIDDEN_BIT: u64 = 0x0010_0000_0000_0000;

/// The sign bit, 2^63.
pub const SIGN_BIT: u64 = 0x8000_0000_0000_0000;

/// The bit pattern of positive infinity. Smaller patterns are the finite
/// numbers from zero up; larger ones without the sign bit are not numbers.
pub const INFINITY_BITS: u64 = 0x7FF0_0000_0000_0000;

/// The bit pattern of 1.
pub const ONE_BITS: u64 = 0x3FF0_0000_0000_0000;

/// A binary64 number.
#[derive(Debug, Clone, Copy, PartialEq, Eq)]
pub struct Binary64 {
    pub bits: u64,
}

/// What a bit pattern without its sign is worth, in units of 2^-1074: the
/// smallest positive binary64 number is worth one unit, and every finite one a
/// whole number of them.
pub open spec fn magnitude(bits: nat) -> nat {
    let exponent = bits / (HIDDEN_BIT as nat);
    let fraction = bits % (HIDDEN_BIT as nat);
    if exponent == 0 {
        fraction
    } else {
        (HIDDEN_BIT as nat + fraction) * pow2((exponent - 1) as nat)
    }
}

/// The number of units in 1.
pub open spec fn unit() -> nat {
    pow2(1074)
}

/// How far the number with pattern `bits` is from `p / q`, times `q` units.
pub open spec fn gap(bits: nat, p: nat, q: nat) -> nat {
    let a: int = magnitude(bits) * q - p * unit();
    if a < 0 {
        (-a) as nat
    } else {
        a as nat
    }
}

impl Binary64 {
    pub open spec fn is_negative(self) -> bool {
        self.bits >= SIGN_BIT
    }

    /// The bit pattern without its sign.
    pub open spec fn absolute(self) -> nat {
        if self.is_negative() {
            (self.bits - SIGN_BIT) as nat
        } else {
            self.bits as nat
        }
    }

    pub open spec fn is_nan(self) -> bool {
        self.absolute() > INFINITY_BITS
    }

    /// Neither negative, nor infinite, nor NaN.
    pub open spec fn is_nonnegative_finite(self) -> bool {
        self.bits < INFINITY_BITS
    }

    /// What the number is worth in units of 2^-1074. Infinity is worth more
    /// than every finite number.
    pub open spec fn units(self) -> int {
        if self.is_negative() {
            -(magnitude(self.absolute()) as int)
        } else {
            magnitude(self.absolute()) as int
        }
    }

    /// The `<` of binary64: false as soon as either side is not a number.
    pub open spec fn lt(self, other: Binary64) -> bool {
        !self.is_nan() && !other.is_nan() && self.units() < other.units()
    }

    /// Greater than zero.
    pub open spec fn is_positive(self) -> bool {
        !self.is_nan() && self.units() > 0
    }

    /// Greater than or equal to one.
    pub open spec fn is_one_or_more(self) -> bool {
        !self.is_nan() && self.units() >= unit()
    }

    /// No finite number is closer to `p / q`, and none as close is preferred
    /// to this one: of two at the same distance, the one with an even pattern.
    pub open spec fn is_nearest(self, p: nat, q: nat) -> bool {
        &&& self.is_nonnegative_finite()
        &&& forall|other: Binary64|
            other.is_nonnegative_finite() ==> {
                &&& gap(self.bits as nat, p, q) <= #[trigger] gap(other.bits as nat, p, q)
                &&& other != self && gap(self.bits as nat, p, q) == gap(other.bits as nat, p, q)
                    ==> self.bits % 2 == 0
            }
    }

    /// `p / q` rounded to the nearest number, ties to even.
    pub open spec fn nearest(p: nat, q: nat) -> Binary64 {
        choose|b: Binary64| b.is_nearest(p, q)
    }

    /// An integer as a binary64 number.
    pub open spec fn cast(n: nat) -> Binary64 {
        Self::nearest(n, 1)
    }

    /// The sum of two finite numbers.
    pub open spec fn plus(self, other: Binary64) -> Binary64 {
        Self::nearest(magnitude(self.bits as nat) + magnitude(other.bits as nat), unit())
    }

    /// The product of two finite numbers.
    pub open spec fn times(self, other: Binary64) -> Binary64 {
        Self::nearest(
            magnitude(self.bits as nat) * magnitude(other.bits as nat),
            unit() * unit(),
        )
    }

    /// The quotient of two finite numbers.
    pub open spec fn over(self, other: Binary64) -> Binary64 {
        Self::nearest(magnitude(self.bits as nat), magnitude(other.bits as nat))
    }

    /// A finite number rounded to a whole one, halves away from zero.
    pub open spec fn rounded(self) -> nat {
        (2 * magnitude(self.bits as nat) + unit()) / (2 * unit())
    }
}

/// One is worth at least one unit.
pub proof fn lemma_unit_positive()
    ensures
        unit() > 0,
{
    lemma_pow2_pos(1074);
}

/// A larger pattern is worth more.
pub proof fn lemma_magnitude_increases(a: nat, b: nat)
    requires
        a < b,
    ensures
        magnitude(a) < magnitude(b),
{
    let h: nat = HIDDEN_BIT as nat;
    let ea: nat = a / h;
    let eb: nat = b / h;
    let fa: nat = a % h;
    let fb: nat = b % h;
    assert(a == ea * h + fa && b == eb * h + fb) by (nonlinear_arith)
        requires
            h > 0,
            ea == a / h,
            eb == b / h,
            fa == a % h,
            fb == b % h,
    ;
    assert(ea <= eb) by (nonlinear_arith)
        requires
            h > 0,
            a < b,
            ea == a / h,
            eb == b / h,
    ;
    if ea == eb {
        assert(fa < fb);
        if ea > 0 {
            let s: nat = pow2((ea - 1) as nat);
            lemma_pow2_pos((ea - 1) as nat);
            assert((h + fa) * s < (h + fb) * s) by (nonlinear_arith)
                requires
                    fa < fb,
                    s > 0,
            ;
        }
    } else {
        let s: nat = pow2((eb - 1) as nat);
        lemma_pow2_pos((eb - 1) as nat);
        assert(h * s <= (h + fb) * s) by (nonlinear_arith)
            requires
                s > 0,
        ;
        assert(h <= h * s) by (nonlinear_arith)
            requires
                s > 0,
        ;
        if ea > 0 {
            let r: nat = pow2((ea - 1) as nat);
            lemma_pow2_pos((ea - 1) as nat);
            lemma_pow2_unfold(ea);
            if ea < eb - 1 {
                lemma_pow2_strictly_increases(ea, (eb - 1) as nat);
            }
            assert(2 * r <= s);
            assert((h + fa) * r < h * s) by (nonlinear_arith)
                requires
                    fa < h,
                    r > 0,
                    2 * r <= s,
            ;
        }
    }
}

proof fn lemma_magnitude_injective(a: nat, b: nat)
    requires
        magnitude(a) == magnitude(b),
    ensures
        a == b,
{
    if a < b {
        lemma_magnitude_increases(a, b);
    } else if b < a {
        lemma_magnitude_increases(b, a);
    }
}

impl Binary64 {
    pub fn from_bits(bits: u64) -> (r: Binary64)
        ensures
            r.bits == bits,
    {
        Binary64 { bits }
    }

    /// The pattern's place among all numbers, from the most negative up.
    fn rank(self) -> (r: i64)
        requires
            !self.is_nan(),
        ensures
            r == (if self.is_negative() {
                -(self.absolute() as int)
            } else {
                self.absolute() as int
            }),
    {
        if self.bits >= SIGN_BIT {
            -((self.bits - SIGN_BIT) as i64)
        } else {
            self.bits as i64
        }
    }

    fn not_a_number(self) -> (r: bool)
        ensures
            r == self.is_nan(),
    {
        let absolute: u64 = if self.bits >= SIGN_BIT {
            self.bits - SIGN_BIT
        } else {
            self.bits
        };
        absolute > INFINITY_BITS
    }

    /// The `<` of binary64.
    pub fn less_than(self, other: Binary64) -> (r: bool)
        ensures
            r == self.lt(other),
    {
        if self.not_a_number() || other.not_a_number() {
            return false;
        }
        let a: i64 = self.rank();
        let b: i64 = other.rank();
        proof {
            lemma_units_follow_rank(self, other);
        }
        a < b
    }
}

spec fn rank_of(b: Binary64) -> int {
    if b.is_negative() {
        -(b.absolute() as int)
    } else {
        b.absolute() as int
    }
}

proof fn lemma_units_follow_rank(a: Binary64, b: Binary64)
    ensures
        rank_of(a) < rank_of(b) <==> a.units() < b.units(),
{
    let x: nat = a.absolute();
    let y: nat = b.absolute();
    assert(magnitude(0) == 0);
    if x < y {
        lemma_magnitude_increases(x, y);
    } else if y < x {
        lemma_magnitude_increases(y, x);
    }
    if x > 0 {
        lemma_magnitude_increases(0, x);
    }
    if y > 0 {
        lemma_magnitude_increases(0, y);
    }
}

/// Of two numbers that are both nearest to one ratio, neither is the smaller.
proof fn lemma_nearest_not_smaller(a: Binary64, b: Binary64, p: nat, q: nat)
    requires
        q > 0,
        a.is_nearest(p, q),
        b.is_nearest(p, q),
    ensures
        a.bits >= b.bits,
{
    if a.bits < b.bits {
        let ga: nat = gap(a.bits as nat, p, q);
        let gb: nat = gap(b.bits as nat, p, q);
        assert(ga == gb);
        assert(a.bits % 2 == 0 && b.bits % 2 == 0);
        // an odd pattern stands between the two, and is closer
        let c: Binary64 = Binary64 { bits: (a.bits + 1) as u64 };
        assert(c.bits < b.bits);
        lemma_magnitude_increases(a.bits as nat, c.bits as nat);
        lemma_magnitude_increases(c.bits as nat, b.bits as nat);
        let ma: int = magnitude(a.bits as nat) as int;
        let mb: int = magnitude(b.bits as nat) as int;
        let mc: int = magnitude(c.bits as nat) as int;
        lemma_mul_strict_inequality(ma, mc, q as int);
        lemma_mul_strict_inequality(mc, mb, q as int);
        assert(gap(c.bits as nat, p, q) < ga);
        assert(ga <= gap(c.bits as nat, p, q));
    }
}

/// Two numbers that are both nearest to one ratio are the same number.
proof fn lemma_nearest_unique(a: Binary64, b: Binary64, p: nat, q: nat)
    requires
        q > 0,
        a.is_nearest(p, q),
        b.is_nearest(p, q),
    ensures
        a == b,
{
    lemma_nearest_not_smaller(a, b, p, q);
    lemma_nearest_not_smaller(b, a, p, q);
}

/// A number that is nearest to a ratio is that ratio rounded.
proof fn lemma_is_nearest(b: Binary64, p: nat, q: nat)
    requires
        q > 0,
        b.is_nearest(p, q),
    ensures
        Binary64::nearest(p, q) == b,
{
    lemma_nearest_unique(Binary64::nearest(p, q), b, p, q);
}

/// Rounding keeps the order of the ratios `p / q <= r / s`.
proof fn lemma_nearest_monotone(a: Binary64, p: nat, q: nat, b: Binary64, r: nat, s: nat)
    requires
        q > 0,
        s > 0,
        p * s <= r * q,
        a.is_nearest(p, q),
        b.is_nearest(r, s),
    ensures
        a.bits <= b.bits,
{
    if b.bits < a.bits {
        let ma: int = magnitude(a.bits as nat) as int;
        let mb: int = magnitude(b.bits as nat) as int;
        let u: int = unit() as int;
        lemma_magnitude_increases(b.bits as nat, a.bits as nat);
        // `a` is at least as close to p / q as `b`: the middle of the two is not above p / q
        assert(gap(a.bits as nat, p, q) <= gap(b.bits as nat, p, q));
        assert(gap(b.bits as nat, r, s) <= gap(a.bits as nat, r, s));
        lemma_mul_strict_inequality(mb, ma, q as int);
        lemma_mul_strict_inequality(mb, ma, s as int);
        assert((ma + mb) * q <= 2 * (p * u)) by {
            assert((ma + mb) * q == ma * q + mb * q) by (nonlinear_arith);
        }
        assert((ma + mb) * s >= 2 * (r * u)) by {
            assert((ma + mb) * s == ma * s + mb * s) by (nonlinear_arith);
        }
        // so both ratios are the middle, and both numbers are as close to p / q
        assert((ma + mb) * q * s <= 2 * (p * u) * s) by (nonlinear_arith)
            requires
                (ma + mb) * q <= 2 * (p * u),
                s > 0,
        ;
        assert((ma + mb) * s * q >= 2 * (r * u) * q) by (nonlinear_arith)
            requires
                (ma + mb) * s >= 2 * (r * u),
                q > 0,
        ;
        assert(2 * (p * u) * s <= 2 * (r * u) * q) by (nonlinear_arith)
            requires
                p * s <= r * q,
                u >= 0,
        ;
        assert((ma + mb) * q * s == (ma + mb) * s * q) by (nonlinear_arith);
        assert((ma + mb) * q * s == 2 * (p * u) * s);
        assert((ma + mb) * q == 2 * (p * u)) by (nonlinear_arith)
            requires
                (ma + mb) * q * s == 2 * (p * u) * s,
                s > 0,
        ;
        assert((ma + mb) * q == ma * q + mb * q) by (nonlinear_arith);
        assert(gap(a.bits as nat, p, q) == gap(b.bits as nat, p, q));
        assert(b.is_nearest(p, q)) by {
            assert((ma + mb) * s * q == 2 * (r * u) * q);
            assert((ma + mb) * s == 2 * (r * u)) by (nonlinear_arith)
                requires
                    (ma + mb) * s * q == 2 * (r * u) * q,
                    q > 0,
            ;
            assert((ma + mb) * s == ma * s + mb * s) by (nonlinear_arith);
            assert(gap(a.bits as nat, r, s) == gap(b.bits as nat, r, s));
            assert(b.bits % 2 == 0);
        }
        lemma_nearest_unique(a, b, p, q);
    }
}

/// A common factor of numerator and denominator does not change the rounding.
proof fn lemma_nearest_scale(b: Binary64, p: nat, q: nat, k: nat)
    requires
        k > 0,
    ensures
        b.is_nearest(p, q) <==> b.is_nearest(p * k, q * k),
{
    assert forall|other: Binary64| #[trigger]
        gap(other.bits as nat, p * k, q * k) == gap(other.bits as nat, p, q) * k by {
        let m: int = magnitude(other.bits as nat) as int;
        let u: int = unit() as int;
        assert(m * (q * k) - (p * k) * u == (m * q - p * u) * k) by (nonlinear_arith);
        assert((m * q - p * u) < 0 ==> (m * q - p * u) * k < 0 && (-(m * q - p * u)) * k == -((m
            * q - p * u) * k)) by (nonlinear_arith)
            requires
                k > 0,
        ;
        assert((m * q - p * u) >= 0 ==> (m * q - p * u) * k >= 0) by (nonlinear_arith)
            requires
                k > 0,
        ;
    }
    assert forall|x: nat, y: nat| (#[trigger] (x * k) <= #[trigger] (y * k)) == (x <= y) by {
        assert((x * k <= y * k) == (x <= y)) by (nonlinear_arith)
            requires
                k > 0,
        ;
    }
    let g: nat = gap(b.bits as nat, p, q);
    let gk: nat = gap(b.bits as nat, p * k, q * k);
    assert(gk == g * k);
    if b.is_nearest(p, q) {
        assert forall|other: Binary64| other.is_nonnegative_finite() implies {
            &&& gk <= #[trigger] gap(other.bits as nat, p * k, q * k)
            &&& other != b && gk == gap(other.bits as nat, p * k, q * k) ==> b.bits % 2 == 0
        } by {
            let h: nat = gap(other.bits as nat, p, q);
            assert(g <= h);
            assert(g * k <= h * k);
            assert(h * k <= g * k ==> h <= g);
        }
    }
    if b.is_nearest(p * k, q * k) {
        assert forall|other: Binary64| other.is_nonnegative_finite() implies {
            &&& g <= #[trigger] gap(other.bits as nat, p, q)
            &&& other != b && g == gap(other.bits as nat, p, q) ==> b.bits % 2 == 0
        } by {
            let h: nat = gap(other.bits as nat, p, q);
            assert(gk <= gap(other.bits as nat, p * k, q * k));
            assert(g * k <= h * k);
        }
    }
}

/// A ratio that some finite number is worth is rounded to that number.
proof fn lemma_nearest_exact(b: Binary64, p: nat, q: nat)
    requires
        q > 0,
        b.is_nonnegative_finite(),
        magnitude(b.bits as nat) * q == p * unit(),
    ensures
        b.is_nearest(p, q),
{
    assert(gap(b.bits as nat, p, q) == 0);
    assert forall|other: Binary64| other.is_nonnegative_finite() && other != b implies #[trigger] gap(
        other.bits as nat,
        p,
        q,
    ) > 0 by {
        if gap(other.bits as nat, p, q) == 0 {
            let x: int = magnitude(other.bits as nat) as int;
            let y: int = magnitude(b.bits as nat) as int;
            assert(x == y) by (nonlinear_arith)
                requires
                    x * q == y * q,
                    q > 0,
            ;
            lemma_magnitude_injective(other.bits as nat, b.bits as nat);
        }
    }
}

/// Every whole number of 2^k units below 2^53 of them is a finite number.
proof fn lemma_representable(m: nat, k: nat) -> (b: Binary64)
    requires
        m < 2 * HIDDEN_BIT,
        k < 2000,
    ensures
        b.is_nonnegative_finite(),
        magnitude(b.bits as nat) == m * pow2(k),
    decreases k,
{
    let h: nat = HIDDEN_BIT as nat;
    if m >= h {
        let bits: nat = (k + 1) * h + (m - h) as nat;
        assert(bits / h == k + 1 && bits % h == m - h) by (nonlinear_arith)
            requires
                h > 0,
                h <= m < 2 * h,
                bits == (k + 1) * h + (m - h) as nat,
        ;
        Binary64 { bits: bits as u64 }
    } else if k == 0 {
        lemma2_to64();
        assert(pow2(0) == 1);
        Binary64 { bits: m as u64 }
    } else {
        lemma_pow2_unfold(k);
        let b: Binary64 = lemma_representable(2 * m, (k - 1) as nat);
        assert((2 * m) * pow2((k - 1) as nat) == m * (2 * pow2((k - 1) as nat)))
            by (nonlinear_arith);
        b
    }
}

/// `pp / qq`, scaled by a power of two, is the ratio `p / q`: one unit of the
/// scaled ratio is worth `pow2(exponent)` units of the ratio, halved.
spec fn scaled(p: nat, q: nat, pp: nat, qq: nat, exponent: nat) -> bool {
    p * qq * pow2(1075) == pp * q * pow2(exponent)
}

proof fn lemma_scaled_double_denominator(p: nat, q: nat, pp: nat, qq: nat, exponent: nat)
    requires
        scaled(p, q, pp, qq, exponent),
    ensures
        scaled(p, q, pp, 2 * qq, exponent + 1),
{
    lemma_pow2_unfold(exponent + 1);
    let u: nat = pow2(1075);
    let e: nat = pow2(exponent);
    assert(p * (2 * qq) * u == 2 * (p * qq * u)) by (nonlinear_arith);
    assert(pp * q * (2 * e) == 2 * (pp * q * e)) by (nonlinear_arith);
}

proof fn lemma_scaled_halve_denominator(p: nat, q: nat, pp: nat, qq: nat, exponent: nat)
    requires
        exponent > 0,
        scaled(p, q, pp, 2 * qq, exponent),
    ensures
        scaled(p, q, pp, qq, (exponent - 1) as nat),
{
    lemma_pow2_unfold(exponent);
    let u: nat = pow2(1075);
    let e: nat = pow2((exponent - 1) as nat);
    assert(p * (2 * qq) * u == 2 * (p * qq * u)) by (nonlinear_arith);
    assert(pp * q * (2 * e) == 2 * (pp * q * e)) by (nonlinear_arith);
}

proof fn lemma_scaled_double_numerator(p: nat, q: nat, pp: nat, qq: nat, exponent: nat)
    requires
        exponent > 0,
        scaled(p, q, pp, qq, exponent),
    ensures
        scaled(p, q, 2 * pp, qq, (exponent - 1) as nat),
{
    lemma_pow2_unfold(exponent);
    let e: nat = pow2((exponent - 1) as nat);
    assert(pp * q * (2 * e) == (2 * pp) * q * e) by (nonlinear_arith);
}

/// The scaling exponent stays far above zero.
proof fn lemma_scaled_exponent(p: nat, q: nat, pp: nat, qq: nat, exponent: nat)
    requires
        p > 0,
        q < pow2(128),
        qq > 0,
        pp < qq * pow2(53),
        scaled(p, q, pp, qq, exponent),
    ensures
        exponent > 800,
{
    if exponent <= 800 {
        let u: nat = pow2(1075);
        let e: nat = pow2(exponent);
        lemma_pow2_pos(exponent);
        if exponent < 800 {
            lemma_pow2_strictly_increases(exponent, 800);
        }
        lemma_pow2_adds(53, 128);
        lemma_pow2_adds(181, 800);
        lemma_pow2_strictly_increases(981, 1075);
        let w: nat = pow2(53);
        let z: nat = pow2(128);
        lemma_pow2_pos(53);
        lemma_pow2_pos(128);
        assert(p * qq * u >= qq * u) by (nonlinear_arith)
            requires
                p > 0,
        ;
        assert(pp * q * e <= (qq * w) * z * e) by (nonlinear_arith)
            requires
                pp <= qq * w,
                q <= z,
        ;
        assert((qq * w) * z * e == qq * (w * z * e)) by (nonlinear_arith);
        assert(u <= w * z * e) by (nonlinear_arith)
            requires
                qq * u <= qq * (w * z * e),
                qq > 0,
        ;
        assert(w * z * e <= w * z * pow2(800)) by (nonlinear_arith)
            requires
                e <= pow2(800),
        ;
    }
}

/// Around a scaled ratio `pp / qq` with quotient `m`, the two candidates are
/// the patterns `low` and `low + 1`; the closer one is nearest to the ratio.
proof fn lemma_round_scaled(
    p: nat,
    q: nat,
    pp: nat,
    qq: nat,
    exponent: nat,
    m: nat,
    low: Binary64,
    r: Binary64,
)
    requires
        p > 0,
        q > 0,
        qq > 0,
        0 < exponent < 2000,
        scaled(p, q, pp, qq, exponent),
        m == pp / qq,
        HIDDEN_BIT <= m < 2 * HIDDEN_BIT,
        low.bits == exponent * HIDDEN_BIT + (m - HIDDEN_BIT),
        r.bits == low.bits || r.bits == low.bits + 1,
        r.bits == low.bits ==> 2 * (pp % qq) < qq || 2 * (pp % qq) == qq && m % 2 == 0,
        r.bits == low.bits + 1 ==> 2 * (pp % qq) > qq || 2 * (pp % qq) == qq && m % 2 == 1,
    ensures
        r.is_nearest(p, q),
{
    let h: nat = HIDDEN_BIT as nat;
    let s: nat = pow2((exponent - 1) as nat);
    lemma_pow2_pos((exponent - 1) as nat);
    lemma_pow2_unfold(exponent);
    lemma_pow2_unfold(1075);
    let rem: nat = pp % qq;
    assert(pp == m * qq + rem) by (nonlinear_arith)
        requires
            qq > 0,
            m == pp / qq,
            rem == pp % qq,
    ;
    let lo: nat = low.bits as nat;
    let hi: nat = lo + 1;
    assert(lo / h == exponent && lo % h == m - h) by (nonlinear_arith)
        requires
            h > 0,
            h <= m < 2 * h,
            lo == exponent * h + (m - h) as nat,
    ;
    assert(magnitude(lo) == m * s);
    assert(magnitude(hi) == (m + 1) * s) by {
        if m + 1 < 2 * h {
            assert(hi / h == exponent && hi % h == m + 1 - h) by (nonlinear_arith)
                requires
                    h > 0,
                    h <= m,
                    m + 1 < 2 * h,
                    hi == exponent * h + (m + 1 - h) as nat,
            ;
        } else {
            assert(hi / h == exponent + 1 && hi % h == 0) by (nonlinear_arith)
                requires
                    h > 0,
                    m + 1 == 2 * h,
                    hi == exponent * h + (m + 1 - h) as nat,
            ;
            lemma_pow2_unfold(exponent);
            assert(h * (2 * s) == (2 * h) * s) by (nonlinear_arith);
        }
    }
    assert(lo % 2 == m % 2) by {
        assert(h % 2 == 0);
        let k: nat = h / 2;
        assert(h == 2 * k);
        assert(exponent * h == 2 * (exponent * k)) by (nonlinear_arith)
            requires
                h == 2 * k,
        ;
    }
    // the ratio, in the scaled measure, is `pp * s / qq` units
    let u: nat = unit();
    assert(p * qq * u == pp * q * s) by {
        assert(p * qq * (2 * u) == 2 * (p * qq * u)) by (nonlinear_arith);
        assert(pp * q * (2 * s) == 2 * (pp * q * s)) by (nonlinear_arith);
    }
    assert forall|c: nat| #[trigger]
        gap(c, p, q) * qq == q * (if magnitude(c) * qq >= pp * s {
            magnitude(c) * qq - pp * s
        } else {
            pp * s - magnitude(c) * qq
        }) by {
        let g: int = magnitude(c) as int;
        assert((g * q - p * u) * qq == g * q * qq - p * qq * u) by (nonlinear_arith);
        assert(q * (g * qq - pp * s) == g * q * qq - pp * q * s) by (nonlinear_arith);
        let a: int = g * q - p * u;
        let b: int = g * qq - pp * s;
        assert((-a) * qq == q * (-b)) by (nonlinear_arith)
            requires
                a * qq == q * b,
        ;
        assert(a < 0 ==> b < 0) by (nonlinear_arith)
            requires
                a * qq == q * b,
                q > 0,
                qq > 0,
        ;
        assert(a >= 0 ==> b >= 0) by (nonlinear_arith)
            requires
                a * qq == q * b,
                q > 0,
                qq > 0,
        ;
    }
    assert(pp * s == (m * s) * qq + rem * s) by (nonlinear_arith)
        requires
            pp == m * qq + rem,
    ;
    assert(((m + 1) * s) * qq == (m * s) * qq + qq * s) by (nonlinear_arith);
    assert(rem < qq) by (nonlinear_arith)
        requires
            qq > 0,
            rem == pp % qq,
    ;
    let below: nat = rem * s;
    let above: nat = (qq - rem) as nat * s;
    assert(above + below == qq * s) by (nonlinear_arith)
        requires
            below == rem * s,
            above == (qq - rem) as nat * s,
            rem < qq,
    ;
    assert((below < above) == (2 * rem < qq)) by (nonlinear_arith)
        requires
            below == rem * s,
            above == (qq - rem) as nat * s,
            rem < qq,
            s > 0,
    ;
    assert((below == above) == (2 * rem == qq)) by (nonlinear_arith)
        requires
            below == rem * s,
            above == (qq - rem) as nat * s,
            rem < qq,
            s > 0,
    ;
    assert(gap(lo, p, q) * qq == q * below);
    assert(gap(hi, p, q) * qq == q * above);
    let best: nat = if r.bits == low.bits {
        below
    } else {
        above
    };
    assert(gap(r.bits as nat, p, q) * qq == q * best);
    assert(hi < INFINITY_BITS) by (nonlinear_arith)
        requires
            hi == exponent * h + (m + 1 - h) as nat,
            h <= m < 2 * h,
            exponent < 2000,
            h == 0x0010_0000_0000_0000nat,
    ;
    assert forall|other: Binary64| other.is_nonnegative_finite() implies {
        &&& gap(r.bits as nat, p, q) <= #[trigger] gap(other.bits as nat, p, q)
        &&& other != r && gap(r.bits as nat, p, q) == gap(other.bits as nat, p, q) ==> r.bits % 2
            == 0
    } by {
        let c: nat = other.bits as nat;
        let g: nat = magnitude(c);
        let far: nat = if g * qq >= pp * s {
            (g * qq - pp * s) as nat
        } else {
            (pp * s - g * qq) as nat
        };
        assert(gap(c, p, q) * qq == q * far);
        if c <= lo {
            if c < lo {
                lemma_magnitude_increases(c, lo);
                lemma_mul_strict_inequality(g as int, (m * s) as int, qq as int);
            }
            assert(far >= below);
            assert(c < lo ==> far > below);
        } else {
            if c > hi {
                lemma_magnitude_increases(hi, c);
                lemma_mul_strict_inequality(((m + 1) * s) as int, g as int, qq as int);
            }
            assert(far >= above);
            assert(c > hi ==> far > above);
        }
        assert(best <= far);
        let gr: nat = gap(r.bits as nat, p, q);
        let gc: nat = gap(c, p, q);
        assert(gr <= gc) by (nonlinear_arith)
            requires
                gr * qq == q * best,
                gc * qq == q * far,
                best <= far,
                qq > 0,
        ;
        if other != r && gr == gc {
            assert(best == far) by (nonlinear_arith)
                requires
                    gr * qq == q * best,
                    gr * qq == q * far,
                    q > 0,
            ;
            assert(below == above);
        }
    }
}

/// Comparing a quotient with a whole number is comparing the dividend with
/// that many divisors.
proof fn lemma_quotient_bounds(p: nat, q: nat, k: nat)
    requires
        q > 0,
    ensures
        (p / q >= k) == (p >= q * k),
{
    let d: nat = p / q;
    let m: nat = p % q;
    assert(p == q * d + m && m < q) by (nonlinear_arith)
        requires
            q > 0,
            d == p / q,
            m == p % q,
    ;
    assert((d >= k) == (p >= q * k)) by (nonlinear_arith)
        requires
            p == q * d + m,
            m < q,
    ;
}

impl Binary64 {
    /// `p / q` rounded to the nearest number, ties to even.
    fn round_ratio(p: u128, q: u128) -> (r: Binary64)
        requires
            p > 0,
            0 < q < 0x4_0000_0000_0000_0000 || is_pow2(q as int),
        ensures
            r.is_nearest(p as nat, q as nat),
    {
        let mut pp: u128 = p;
        let mut qq: u128 = q;
        let mut exponent: u64 = 1075;
        proof {
            reveal_with_fuel(is_pow2, 2);
            lemma2_to64();
            assert(q > 0);
        }
        while pp / qq >= 0x20_0000_0000_0000
            invariant
                pp == p,
                qq > 0,
                p > 0,
                qq == q || pp / qq >= 0x10_0000_0000_0000,
                1075 <= exponent <= 1200,
                qq >= pow2((exponent - 1075) as nat),
                scaled(p as nat, q as nat, pp as nat, qq as nat, exponent as nat),
            decreases pp / qq,
        {
            proof {
                lemma_quotient_bounds(pp as nat, qq as nat, 0x20_0000_0000_0000);
                assert(qq < 0x1000_0000_0000_0000_0000);
                if exponent >= 1155 {
                    lemma_pow2_adds(16, 64);
                    lemma2_to64();
                    lemma2_to64_rest();
                    if exponent > 1155 {
                        lemma_pow2_strictly_increases(80, (exponent - 1075) as nat);
                    }
                }
                lemma_pow2_unfold((exponent - 1075 + 1) as nat);
                lemma_scaled_double_denominator(
                    p as nat,
                    q as nat,
                    pp as nat,
                    qq as nat,
                    exponent as nat,
                );
                lemma_quotient_bounds(pp as nat, 2 * qq as nat, 0x10_0000_0000_0000);
                let d: nat = (pp / qq) as nat;
                let half: nat = pp as nat / (2 * qq as nat);
                lemma_quotient_bounds(pp as nat, qq as nat, d + 1);
                lemma_quotient_bounds(pp as nat, 2 * qq as nat, d);
                assert(half < d) by (nonlinear_arith)
                    requires
                        !(pp >= qq * (d + 1)),
                        (half >= d) == (pp >= (2 * qq) * d),
                        d >= 2,
                        qq > 0,
                ;
            }
            qq = qq * 2;
            exponent = exponent + 1;
        }
        proof {
            lemma_quotient_bounds(pp as nat, qq as nat, 0x20_0000_0000_0000);
        }
        while pp / qq < 0x10_0000_0000_0000
            invariant
                pp > 0,
                qq > 0,
                p > 0,
                q > 0,
                800 <= exponent <= 1200,
                pp / qq >= 0x10_0000_0000_0000 || qq < 0x4_0000_0000_0000_0000 || is_pow2(
                    qq as int,
                ),
                pp < qq * 0x20_0000_0000_0000,
                scaled(p as nat, q as nat, pp as nat, qq as nat, exponent as nat),
            decreases exponent,
        {
            proof {
                lemma_quotient_bounds(pp as nat, qq as nat, 0x10_0000_0000_0000);
                lemma2_to64_rest();
                lemma_pow2_adds(64, 64);
                reveal_with_fuel(is_pow2, 2);
                lemma_scaled_exponent(p as nat, q as nat, pp as nat, qq as nat, exponent as nat);
            }
            if qq % 2 == 0 {
                proof {
                    lemma_scaled_halve_denominator(
                        p as nat,
                        q as nat,
                        pp as nat,
                        (qq / 2) as nat,
                        exponent as nat,
                    );
                }
                qq = qq / 2;
            } else {
                proof {
                    lemma_scaled_double_numerator(
                        p as nat,
                        q as nat,
                        pp as nat,
                        qq as nat,
                        exponent as nat,
                    );
                }
                pp = pp * 2;
            }
            exponent = exponent - 1;
        }
        let m: u128 = pp / qq;
        let rem: u128 = pp % qq;
        proof {
            lemma_quotient_bounds(pp as nat, qq as nat, 0x20_0000_0000_0000);
            assert(rem < qq) by (nonlinear_arith)
                requires
                    qq > 0,
                    rem == pp % qq,
            ;
        }
        let low: u64 = exponent * HIDDEN_BIT + (m as u64 - HIDDEN_BIT);
        let up: bool = rem > qq - rem || rem == qq - rem && m % 2 == 1;
        let bits: u64 = if up {
            low + 1
        } else {
            low
        };
        let r: Binary64 = Binary64 { bits };
        proof {
            lemma_round_scaled(
                p as nat,
                q as nat,
                pp as nat,
                qq as nat,
                exponent as nat,
                m as nat,
                Binary64 { bits: low },
                r,
            );
        }
        r
    }
}

/// The number that a whole number of 2^k units, below 2^53 of them, rounds to.
proof fn lemma_nearest_of_units(m: nat, k: nat, p: nat, q: nat)
    requires
        m < 2 * HIDDEN_BIT,
        k < 2000,
        q > 0,
        m * pow2(k) * q == p * unit(),
    ensures
        Binary64::nearest(p, q).is_nearest(p, q),
        magnitude(Binary64::nearest(p, q).bits as nat) == m * pow2(k),
{
    let b: Binary64 = lemma_representable(m, k);
    lemma_nearest_exact(b, p, q);
    lemma_is_nearest(b, p, q);
}

/// A ratio that does not exceed `m * 2^k` units is not rounded above it.
proof fn lemma_nearest_at_most(b: Binary64, p: nat, q: nat, m: nat, k: nat)
    requires
        m < 2 * HIDDEN_BIT,
        k < 2000,
        q > 0,
        b.is_nearest(p, q),
        p * unit() <= m * pow2(k) * q,
    ensures
        magnitude(b.bits as nat) <= m * pow2(k),
{
    let c: Binary64 = lemma_representable(m, k);
    let u: nat = unit();
    lemma_pow2_pos(1074);
    lemma_nearest_exact(c, m * pow2(k), u);
    assert(p * u <= (m * pow2(k)) * q);
    lemma_nearest_monotone(b, p, q, c, m * pow2(k), u);
    if b.bits < c.bits {
        lemma_magnitude_increases(b.bits as nat, c.bits as nat);
    }
}

/// A ratio that reaches `m * 2^k` units is not rounded below it.
proof fn lemma_nearest_at_least(b: Binary64, p: nat, q: nat, m: nat, k: nat)
    requires
        m < 2 * HIDDEN_BIT,
        k < 2000,
        q > 0,
        b.is_nearest(p, q),
        p * unit() >= m * pow2(k) * q,
    ensures
        magnitude(b.bits as nat) >= m * pow2(k),
{
    let c: Binary64 = lemma_representable(m, k);
    let u: nat = unit();
    lemma_pow2_pos(1074);
    lemma_nearest_exact(c, m * pow2(k), u);
    lemma_nearest_monotone(c, m * pow2(k), u, b, p, q);
    if c.bits < b.bits {
        lemma_magnitude_increases(c.bits as nat, b.bits as nat);
    }
}

impl Binary64 {
    /// The whole number that `n` becomes as a binary64 number.
    fn round_integer(n: u128) -> (r: u128)
        requires
            n < 0x2_0000_0000_0000_0000,
        ensures
            Self::cast(n as nat).is_nearest(n as nat, 1),
            magnitude(Self::cast(n as nat).bits as nat) == r * unit(),
            r <= 0x2_0000_0000_0000_0000,
            n > 0 ==> r > 0,
            n <= 0x1_0000_0000_0000_0000 ==> r <= 0x1_0000_0000_0000_0000,
    {
        if n < 0x20_0000_0000_0000 {
            proof {
                assert(n * pow2(1074) * 1 == n * unit());
                lemma_nearest_of_units(n as nat, 1074, n as nat, 1);
            }
            return n;
        }
        let b: Binary64 = Self::round_ratio(n, 1);
        proof {
            lemma_is_nearest(b, n as nat, 1);
            lemma2_to64();
            lemma2_to64_rest();
            let u: nat = unit();
            // 2^53 and 2^65 bound the result
            lemma_pow2_adds(1, 1074);
            lemma_pow2_adds(13, 1074);
            assert(0x10_0000_0000_0000nat * pow2(1075) == 0x20_0000_0000_0000 * u)
                by (nonlinear_arith)
                requires
                    pow2(1075) == 2 * u,
            ;
            assert(0x10_0000_0000_0000nat * pow2(1087) == 0x2_0000_0000_0000_0000 * u)
                by (nonlinear_arith)
                requires
                    pow2(1087) == 0x2000 * u,
            ;
            assert(n * u >= 0x20_0000_0000_0000 * u && n * u <= 0x2_0000_0000_0000_0000 * u)
                by (nonlinear_arith)
                requires
                    0x20_0000_0000_0000 <= n <= 0x2_0000_0000_0000_0000,
                    u >= 0,
            ;
            lemma_nearest_at_least(b, n as nat, 1, 0x10_0000_0000_0000, 1075);
            lemma_nearest_at_most(b, n as nat, 1, 0x10_0000_0000_0000, 1087);
        }
        let r: u128 = b.whole();
        proof {
            if n <= 0x1_0000_0000_0000_0000 {
                let u: nat = unit();
                lemma_pow2_pos(1074);
                lemma_pow2_adds(12, 1074);
                assert(0x10_0000_0000_0000nat * pow2(1086) == 0x1_0000_0000_0000_0000 * u)
                    by (nonlinear_arith)
                    requires
                        pow2(1086) == 0x1000 * u,
                ;
                assert(n * u <= 0x1_0000_0000_0000_0000 * u) by (nonlinear_arith)
                    requires
                        n <= 0x1_0000_0000_0000_0000,
                        u >= 0,
                ;
                lemma_nearest_at_most(b, n as nat, 1, 0x10_0000_0000_0000, 1086);
                assert(r <= 0x1_0000_0000_0000_0000) by (nonlinear_arith)
                    requires
                        r * u <= 0x1_0000_0000_0000_0000 * u,
                        u > 0,
                ;
            }
        }
        r
    }

    /// The value of a number that is a whole one of at least 2^53.
    fn whole(self) -> (r: u128)
        requires
            self.is_nonnegative_finite(),
            0x20_0000_0000_0000 * unit() <= magnitude(self.bits as nat)
                <= 0x2_0000_0000_0000_0000 * unit(),
        ensures
            magnitude(self.bits as nat) == r * unit(),
            0 < r <= 0x2_0000_0000_0000_0000,
    {
        let exponent: u64 = self.bits / HIDDEN_BIT;
        let fraction: u64 = self.bits % HIDDEN_BIT;
        proof {
            lemma_exponent_bounds(self.bits as nat);
        }
        let mut r: u128 = HIDDEN_BIT as u128 + fraction as u128;
        let mut left: u64 = exponent - 1075;
        let ghost m: nat = HIDDEN_BIT as nat + fraction as nat;
        proof {
            lemma2_to64();
            lemma_pow2_adds(left as nat, 1074);
            assert(m * (pow2(left as nat) * unit()) == m * pow2(left as nat) * unit())
                by (nonlinear_arith);
        }
        while left > 0
            invariant
                left <= 13,
                r * pow2(left as nat) * unit() == magnitude(self.bits as nat),
                0 < r <= 0x20_0000_0000_0000 * pow2((13 - left) as nat),
                magnitude(self.bits as nat) <= 0x2_0000_0000_0000_0000 * unit(),
            decreases left,
        {
            proof {
                lemma_pow2_unfold(left as nat);
                lemma_pow2_unfold((14 - left) as nat);
                lemma2_to64();
                if left < 13 {
                    lemma_pow2_strictly_increases((13 - left) as nat, 13);
                }
                assert(r <= 0x20_0000_0000_0000 * 0x2000) by (nonlinear_arith)
                    requires
                        r <= 0x20_0000_0000_0000 * pow2((13 - left) as nat),
                        pow2((13 - left) as nat) <= 0x2000,
                ;
                let w: nat = pow2((left - 1) as nat);
                assert((2 * r) * w == r * (2 * w)) by (nonlinear_arith);
            }
            r = r * 2;
            left = left - 1;
        }
        proof {
            lemma2_to64();
            lemma_pow2_pos(1074);
            let u: nat = unit();
            assert(r * pow2(0) == r) by (nonlinear_arith)
                requires
                    pow2(0) == 1,
            ;
            assert(r <= 0x2_0000_0000_0000_0000) by (nonlinear_arith)
                requires
                    r * u <= 0x2_0000_0000_0000_0000 * u,
                    u > 0,
            ;
        }
        r
    }
}

/// The exponent field of a number between 2^53 and 2^65.
proof fn lemma_exponent_bounds(bits: nat)
    requires
        0x20_0000_0000_0000 * unit() <= magnitude(bits) <= 0x2_0000_0000_0000_0000 * unit(),
    ensures
        1075 <= bits / (HIDDEN_BIT as nat) <= 1088,
{
    let h: nat = HIDDEN_BIT as nat;
    let u: nat = unit();
    lemma2_to64();
    lemma_pow2_pos(1074);
    lemma_pow2_adds(1, 1074);
    lemma_pow2_adds(13, 1074);
    let low: nat = 1076 * h;
    let high: nat = 1088 * h;
    assert(magnitude(low) == h * pow2(1075));
    assert(magnitude(high) == h * pow2(1087));
    assert(h * (2 * u) == 0x20_0000_0000_0000 * u) by (nonlinear_arith)
        requires
            h == 0x10_0000_0000_0000nat,
    ;
    assert(h * (0x2000 * u) == 0x2_0000_0000_0000_0000 * u) by (nonlinear_arith)
        requires
            h == 0x10_0000_0000_0000nat,
    ;
    if bits < low {
        lemma_magnitude_increases(bits, low);
    }
    if bits > high {
        lemma_magnitude_increases(high, bits);
    }
}

/// The sum of two whole numbers is their sum, rounded.
proof fn lemma_plus_whole(a: Binary64, x: nat, b: Binary64, y: nat)
    requires
        magnitude(a.bits as nat) == x * unit(),
        magnitude(b.bits as nat) == y * unit(),
        Binary64::cast(x + y).is_nearest(x + y, 1),
    ensures
        a.plus(b) == Binary64::cast(x + y),
{
    let u: nat = unit();
    lemma_pow2_pos(1074);
    assert(x * u + y * u == (x + y) * u) by (nonlinear_arith);
    lemma_nearest_scale(Binary64::cast(x + y), x + y, 1, u);
    assert(1 * u == u);
    lemma_is_nearest(Binary64::cast(x + y), (x + y) * u, u);
}

/// The quotient of two whole numbers is their ratio, rounded.
proof fn lemma_over_whole(a: Binary64, x: nat, b: Binary64, y: nat, r: Binary64)
    requires
        magnitude(a.bits as nat) == x * unit(),
        magnitude(b.bits as nat) == y * unit(),
        y > 0,
        r.is_nearest(x, y),
    ensures
        a.over(b) == r,
{
    let u: nat = unit();
    lemma_pow2_pos(1074);
    lemma_nearest_scale(r, x, y, u);
    assert(y * u > 0) by (nonlinear_arith)
        requires
            y > 0,
            u > 0,
    ;
    lemma_is_nearest(r, x * u, y * u);
}

/// The smoothed success rate `(successes + 1) / (samples + 2)`, computed in
/// binary64 arithmetic throughout.
pub open spec fn smoothed(successes: nat, samples: nat) -> Binary64 {
    Binary64::cast(successes).plus(Binary64::cast(1)).over(
        Binary64::cast(samples).plus(Binary64::cast(2)),
    )
}

/// A count scaled by a factor in binary64 arithmetic, rounded to a whole
/// number and clamped to 64 bits.
pub open spec fn scaled_count(count: nat, factor: Binary64) -> nat {
    let product: nat = Binary64::cast(count).times(factor).rounded();
    if product > u64::MAX {
        u64::MAX as nat
    } else {
        product
    }
}

impl Binary64 {
    /// The smoothed success rate of `successes` out of `samples`.
    pub fn smoothed_rate(successes: u64, samples: u64) -> (r: Binary64)
        ensures
            r == smoothed(successes as nat, samples as nat),
            r.is_nonnegative_finite(),
    {
        let a: u128 = Self::round_integer(successes as u128);
        let b: u128 = Self::round_integer(samples as u128);
        let x: u128 = Self::round_integer(a + 1);
        let y: u128 = Self::round_integer(b + 2);
        let r: Binary64 = Self::round_ratio(x, y);
        proof {
            assert(1 * pow2(1074) * 1 == 1 * unit());
            assert(2 * pow2(1074) * 1 == 2 * unit());
            lemma_nearest_of_units(1, 1074, 1, 1);
            lemma_nearest_of_units(2, 1074, 2, 1);
            let sa: Binary64 = Self::cast(successes as nat);
            let sb: Binary64 = Self::cast(samples as nat);
            lemma_plus_whole(sa, a as nat, Self::cast(1), 1);
            lemma_plus_whole(sb, b as nat, Self::cast(2), 2);
            lemma_over_whole(sa.plus(Self::cast(1)), x as nat, sb.plus(Self::cast(2)), y as nat, r);
        }
        r
    }
}

impl Binary64 {
    /// The quotient of two integers as binary64 numbers.
    pub fn quotient(n: u64, d: u64) -> (r: Binary64)
        requires
            d > 0,
        ensures
            r == Self::cast(n as nat).over(Self::cast(d as nat)),
            r.is_nonnegative_finite(),
            distance(r.units() * d, n * unit()) * 0x4_0000_0000_0000 <= n * unit(),
    {
        proof {
            if n > 0 {
                lemma_quotient_is_the_ratio(n as nat, d as nat);
            } else {
                assert(0 * pow2(1074) * 1 == 0 * unit());
                lemma_nearest_of_units(0, 1074, 0, 1);
                assert(0 * pow2(1074) == 0);
                lemma_pow2_pos(1074);
            }
        }
        let x: u128 = Self::round_integer(n as u128);
        proof {
            if n == 0 {
                assert(x == 0) by (nonlinear_arith)
                    requires
                        x * unit() == 0,
                        unit() > 0,
                ;
            }
        }
        let y: u128 = Self::round_integer(d as u128);
        if x == 0 {
            proof {
                assert(magnitude(0) == 0);
                let zero: Binary64 = Binary64 { bits: 0 };
                lemma_nearest_exact(zero, 0, y as nat);
                lemma_over_whole(Self::cast(n as nat), 0, Self::cast(d as nat), y as nat, zero);
                assert(zero.units() * d == 0) by (nonlinear_arith)
                    requires
                        zero.units() == 0,
                ;
            }
            return Binary64 { bits: 0 };
        }
        let r: Binary64 = Self::round_ratio(x, y);
        proof {
            lemma_over_whole(Self::cast(n as nat), x as nat, Self::cast(d as nat), y as nat, r);
        }
        r
    }
}

/// Of the patterns below `n`, the first of those closest to `p / q`.
proof fn lemma_closest_below(n: nat, p: nat, q: nat) -> (b: nat)
    requires
        n > 0,
    ensures
        b < n,
        forall|c: nat| c < n ==> gap(b, p, q) <= #[trigger] gap(c, p, q),
        forall|c: nat| c < b ==> gap(b, p, q) < #[trigger] gap(c, p, q),
    decreases n,
{
    if n == 1 {
        0
    } else {
        let b: nat = lemma_closest_below((n - 1) as nat, p, q);
        if gap((n - 1) as nat, p, q) < gap(b, p, q) {
            (n - 1) as nat
        } else {
            b
        }
    }
}

/// Every ratio has a nearest number.
pub proof fn lemma_nearest_exists(p: nat, q: nat)
    requires
        q > 0,
    ensures
        Binary64::nearest(p, q).is_nearest(p, q),
{
    let b: nat = lemma_closest_below(INFINITY_BITS as nat, p, q);
    let first: Binary64 = Binary64 { bits: b as u64 };
    let second: Binary64 = Binary64 { bits: (b + 1) as u64 };
    if second.is_nonnegative_finite() && gap(b + 1, p, q) == gap(b, p, q) && b % 2 == 1 {
        assert(second.is_nearest(p, q)) by {
            assert forall|other: Binary64| other.is_nonnegative_finite() implies gap(b + 1, p, q)
                <= #[trigger] gap(other.bits as nat, p, q) by {}
        }
        lemma_is_nearest(second, p, q);
    } else {
        assert(first.is_nearest(p, q)) by {
            assert forall|other: Binary64|
                other.is_nonnegative_finite() && other != first && b % 2 == 1 implies gap(b, p, q)
                < #[trigger] gap(other.bits as nat, p, q) by {
                let c: nat = other.bits as nat;
                if c > b + 1 && gap(c, p, q) == gap(b, p, q) {
                    lemma_magnitude_increases(b, b + 1);
                    lemma_magnitude_increases(b + 1, c);
                    lemma_mul_strict_inequality(
                        magnitude(b) as int,
                        magnitude(b + 1) as int,
                        q as int,
                    );
                    lemma_mul_strict_inequality(
                        magnitude(b + 1) as int,
                        magnitude(c) as int,
                        q as int,
                    );
                    assert(gap(b + 1, p, q) < gap(b, p, q));
                    assert(gap(second.bits as nat, p, q) >= gap(b, p, q));
                }
            }
        }
        lemma_is_nearest(first, p, q);
    }
}

/// `unit() * unit()` and the powers of two that the product of a count and a
/// factor goes through.
proof fn lemma_product_scale(v: nat, m: nat, exponent: nat)
    requires
        0 < exponent < 1075,
    ensures
        (v * unit()) * (m * pow2((exponent - 1) as nat)) == (v * m) * (unit() * pow2(
            (exponent - 1) as nat,
        )),
        unit() * unit() == pow2((1075 - exponent) as nat) * (unit() * pow2(
            (exponent - 1) as nat,
        )),
        unit() * pow2((exponent - 1) as nat) > 0,
{
    let u: nat = unit();
    let e: nat = pow2((exponent - 1) as nat);
    let k: nat = pow2((1075 - exponent) as nat);
    lemma_pow2_pos(1074);
    lemma_pow2_pos((exponent - 1) as nat);
    lemma_pow2_adds((1075 - exponent) as nat, (exponent - 1) as nat);
    assert(k * e == u);
    assert((v * u) * (m * e) == (v * m) * (u * e)) by (nonlinear_arith);
    assert(u * u == k * (u * e)) by (nonlinear_arith)
        requires
            k * e == u,
    ;
    assert(u * e > 0) by (nonlinear_arith)
        requires
            u > 0,
            e > 0,
    ;
}

/// A factor below 2^-119 takes every 64-bit count below a quarter.
proof fn lemma_tiny_product(v: Binary64, x: nat, factor: Binary64)
    requires
        magnitude(v.bits as nat) == x * unit(),
        x <= 0x1_0000_0000_0000_0000,
        factor.bits < 956 * HIDDEN_BIT,
    ensures
        v.times(factor).rounded() == 0,
{
    let h: nat = HIDDEN_BIT as nat;
    let u: nat = unit();
    let f: nat = magnitude(factor.bits as nat);
    lemma2_to64();
    lemma2_to64_rest();
    lemma_pow2_pos(1074);
    lemma_pow2_adds(66, 1008);
    lemma_pow2_adds(2, 64);
    lemma_pow2_adds(52, 955);
    lemma_pow2_strictly_increases(1007, 1008);
    assert(f < pow2(1008)) by {
        lemma_magnitude_increases(factor.bits as nat, 956 * h);
        assert(magnitude(956 * h) == h * pow2(955));
    }
    let a: nat = pow2(1008);
    assert(u == 0x4_0000_0000_0000_0000 * a);
    assert(u * u > 0) by (nonlinear_arith)
        requires
            u > 0,
    ;
    lemma_nearest_exists((x * u) * f, u * u);
    let r: Binary64 = v.times(factor);
    lemma_pow2_adds(2, 1072);
    let quarter: nat = pow2(1072);
    assert((x * u) * f * u <= 1 * quarter * (u * u)) by {
        assert(4 * (x * f) <= u) by (nonlinear_arith)
            requires
                x <= 0x1_0000_0000_0000_0000,
                f <= a,
                u == 0x4_0000_0000_0000_0000 * a,
        ;
        assert(x * f <= quarter);
        assert((x * u) * f * u <= quarter * (u * u)) by (nonlinear_arith)
            requires
                x * f <= quarter,
        ;
    }
    lemma_nearest_at_most(r, (x * u) * f, u * u, 1, 1072);
    let g: nat = magnitude(r.bits as nat);
    assert(4 * g <= u);
    assert((2 * g + u) / (2 * u) == 0) by (nonlinear_arith)
        requires
            4 * g <= u,
            u > 0,
    ;
}

/// A positive number below one has neither sign nor a pattern as large as one's.
proof fn lemma_below_one(b: Binary64)
    requires
        b.is_positive(),
        !b.is_one_or_more(),
    ensures
        0 < b.bits < ONE_BITS,
{
    lemma2_to64_rest();
    lemma_pow2_adds(52, 1022);
    let one: nat = ONE_BITS as nat;
    assert(one / (HIDDEN_BIT as nat) == 1023 && one % (HIDDEN_BIT as nat) == 0);
    assert(magnitude(one) == unit());
    if b.bits >= ONE_BITS && !b.is_negative() {
        if b.bits > ONE_BITS {
            lemma_magnitude_increases(one, b.bits as nat);
        }
    }
}

/// 2^k.
fn power_of_two(k: u64) -> (r: u128)
    requires
        k < 128,
    ensures
        r == pow2(k as nat),
        is_pow2(r as int),
{
    let mut r: u128 = 1;
    let mut i: u64 = 0;
    proof {
        lemma2_to64();
        reveal_with_fuel(is_pow2, 2);
    }
    while i < k
        invariant
            i <= k < 128,
            r == pow2(i as nat),
            is_pow2(r as int),
        decreases k - i,
    {
        proof {
            lemma2_to64_rest();
            lemma_pow2_adds(63, 64);
            lemma_pow2_unfold((i + 1) as nat);
            if i < 126 {
                lemma_pow2_strictly_increases((i + 1) as nat, 127);
            }
        }
        r = r * 2;
        i = i + 1;
        proof {
            reveal_with_fuel(is_pow2, 2);
        }
    }
    r
}

impl Binary64 {
    /// The number rounded to a whole one, halves away from zero, and clamped
    /// to 64 bits.
    fn round_half_away(self) -> (r: u64)
        requires
            self.is_nonnegative_finite(),
        ensures
            r == (if self.rounded() > u64::MAX {
                u64::MAX as nat
            } else {
                self.rounded()
            }),
    {
        let exponent: u64 = self.bits / HIDDEN_BIT;
        let fraction: u64 = self.bits % HIDDEN_BIT;
        let ghost u: nat = unit();
        let ghost g: nat = magnitude(self.bits as nat);
        let ghost h: nat = HIDDEN_BIT as nat;
        proof {
            lemma2_to64();
            lemma2_to64_rest();
            lemma_pow2_pos(1074);
        }
        if exponent < 1022 {
            proof {
                lemma_magnitude_increases(self.bits as nat, 1022 * h);
                assert(magnitude(1022 * h) == h * pow2(1021));
                lemma_pow2_adds(52, 1021);
                lemma_pow2_unfold(1074);
                assert((2 * g + u) / (2 * u) == 0) by (nonlinear_arith)
                    requires
                        2 * g < u,
                ;
            }
            return 0;
        }
        let m: u128 = HIDDEN_BIT as u128 + fraction as u128;
        let ghost w: nat = pow2((exponent - 1) as nat);
        assert(g == m * w);
        proof {
            lemma_pow2_pos((exponent - 1) as nat);
        }
        if exponent < 1075 {
            let t: u128 = power_of_two(1075 - exponent);
            proof {
                lemma_pow2_adds((exponent - 1) as nat, (1075 - exponent) as nat);
                lemma_pow2_pos((1075 - exponent) as nat);
                if 1075 - exponent < 53 {
                    lemma_pow2_strictly_increases((1075 - exponent) as nat, 53);
                }
                assert(2 * (m * w) + w * t == (2 * m + t) * w && 2 * (w * t) == (2 * t) * w)
                    by (nonlinear_arith);
                vstd::arithmetic::div_mod::lemma_div_denominator(
                    ((2 * m + t) * w) as int,
                    w as int,
                    (2 * t) as int,
                );
                vstd::arithmetic::div_mod::lemma_div_by_multiple((2 * m + t) as int, w as int);
                assert(w * (2 * t) == 2 * (w * t)) by (nonlinear_arith);
                assert(self.rounded() == (2 * m + t) / (2 * t));
                assert((2 * m + t) / (2 * t) <= 2 * m + t) by (nonlinear_arith)
                    requires
                        t > 0,
                ;
            }
            return ((2 * m + t) / (2 * t)) as u64;
        }
        if exponent >= 1087 {
            proof {
                lemma_pow2_adds(12, 1074);
                if exponent > 1087 {
                    lemma_pow2_strictly_increases(1086, (exponent - 1) as nat);
                }
                assert(g >= 0x1_0000_0000_0000_0000 * u) by (nonlinear_arith)
                    requires
                        g == m * w,
                        m >= 0x10_0000_0000_0000,
                        w >= 0x1000 * u,
                ;
                assert((2 * g + u) / (2 * u) >= 0x1_0000_0000_0000_0000) by (nonlinear_arith)
                    requires
                        g >= 0x1_0000_0000_0000_0000 * u,
                        u > 0,
                ;
            }
            return u64::MAX;
        }
        let t: u128 = power_of_two(exponent - 1075);
        proof {
            lemma_pow2_adds((exponent - 1075) as nat, 1074);
            if exponent - 1075 < 11 {
                lemma_pow2_strictly_increases((exponent - 1075) as nat, 11);
            }
            assert(m * t <= 0x1F_FFFF_FFFF_FFFF * 0x800) by (nonlinear_arith)
                requires
                    m <= 0x1F_FFFF_FFFF_FFFF,
                    t <= 0x800,
            ;
            let r: nat = (m * t) as nat;
            assert(g == r * u) by (nonlinear_arith)
                requires
                    g == m * w,
                    w == t * u,
                    r == m * t,
            ;
            assert((2 * g + u) / (2 * u) == r) by (nonlinear_arith)
                requires
                    g == r * u,
                    u > 0,
            ;
        }
        (m * t) as u64
    }
}

impl Binary64 {
    /// A count scaled by a factor between zero and one.
    pub fn scale_count(count: u64, factor: Binary64) -> (r: u64)
        requires
            count > 0,
            factor.is_positive(),
            !factor.is_one_or_more(),
        ensures
            r == scaled_count(count as nat, factor),
    {
        proof {
            lemma_below_one(factor);
        }
        let v: u128 = Self::round_integer(count as u128);
        let exponent: u64 = factor.bits / HIDDEN_BIT;
        let fraction: u64 = factor.bits % HIDDEN_BIT;
        if exponent < 956 {
            proof {
                lemma_tiny_product(Self::cast(count as nat), v as nat, factor);
            }
            return 0;
        }
        let m: u128 = HIDDEN_BIT as u128 + fraction as u128;
        let q: u128 = power_of_two(1075 - exponent);
        proof {
            lemma_mul_upper_bound(v as int, 0x1_0000_0000_0000_0000, m as int, 0x20_0000_0000_0000);
            assert(v * m > 0) by (nonlinear_arith)
                requires
                    v > 0,
                    m > 0,
            ;
        }
        let product: Binary64 = Self::round_ratio(v * m, q);
        proof {
            let e: nat = exponent as nat;
            lemma_product_scale(v as nat, m as nat, e);
            let k: nat = unit() * pow2((e - 1) as nat);
            lemma_nearest_scale(product, (v * m) as nat, q as nat, k);
            lemma_pow2_pos(1074);
            assert(unit() * unit() > 0) by (nonlinear_arith)
                requires
                    unit() > 0,
            ;
            assert(magnitude(factor.bits as nat) == m * pow2((e - 1) as nat));
            lemma_is_nearest(
                product,
                magnitude(Self::cast(count as nat).bits as nat) * magnitude(factor.bits as nat),
                unit() * unit(),
            );
            assert(product == Self::cast(count as nat).times(factor));
        }
        product.round_half_away()
    }
}

/// A larger ratio, and so a larger number.
proof fn lemma_magnitude_monotone(a: Binary64, b: Binary64)
    requires
        a.bits <= b.bits,
    ensures
        magnitude(a.bits as nat) <= magnitude(b.bits as nat),
{
    if a.bits < b.bits {
        lemma_magnitude_increases(a.bits as nat, b.bits as nat);
    }
}

/// The parts of a smoothed rate: numerator and denominator are whole sums, the
/// numerator is at least one and the denominator at most 2^65.
proof fn lemma_smoothed_parts(successes: nat, samples: nat)
    requires
        samples <= u64::MAX,
    ensures
        Binary64::cast(successes).is_nearest(successes, 1),
        Binary64::cast(samples).is_nearest(samples, 1),
        magnitude(Binary64::cast(1).bits as nat) == unit(),
        magnitude(Binary64::cast(2).bits as nat) == 2 * unit(),
        ({
            let a: Binary64 = Binary64::cast(successes);
            let b: Binary64 = Binary64::cast(samples);
            let x: Binary64 = a.plus(Binary64::cast(1));
            let y: Binary64 = b.plus(Binary64::cast(2));
            &&& x.is_nearest(magnitude(a.bits as nat) + unit(), unit())
            &&& y.is_nearest(magnitude(b.bits as nat) + 2 * unit(), unit())
            &&& magnitude(x.bits as nat) >= unit()
            &&& unit() <= magnitude(y.bits as nat) <= 0x2_0000_0000_0000_0000 * unit()
            &&& smoothed(successes, samples).is_nearest(
                magnitude(x.bits as nat),
                magnitude(y.bits as nat),
            )
        }),
{
    let u: nat = unit();
    lemma2_to64();
    lemma2_to64_rest();
    lemma_pow2_pos(1074);
    assert(1 * pow2(1074) * 1 == 1 * u);
    assert(2 * pow2(1074) * 1 == 2 * u);
    lemma_nearest_of_units(1, 1074, 1, 1);
    lemma_nearest_of_units(2, 1074, 2, 1);
    lemma_nearest_exists(successes, 1);
    lemma_nearest_exists(samples, 1);
    let a: Binary64 = Binary64::cast(successes);
    let b: Binary64 = Binary64::cast(samples);
    let ma: nat = magnitude(a.bits as nat);
    let mb: nat = magnitude(b.bits as nat);
    lemma_nearest_exists(ma + u, u);
    lemma_nearest_exists(mb + 2 * u, u);
    let x: Binary64 = a.plus(Binary64::cast(1));
    let y: Binary64 = b.plus(Binary64::cast(2));
    assert((ma + u) * u >= 1 * pow2(1074) * u) by (nonlinear_arith)
        requires
            u == pow2(1074),
    ;
    lemma_nearest_at_least(x, ma + u, u, 1, 1074);
    assert((mb + 2 * u) * u >= 1 * pow2(1074) * u) by (nonlinear_arith)
        requires
            u == pow2(1074),
    ;
    lemma_nearest_at_least(y, mb + 2 * u, u, 1, 1074);
    lemma_pow2_adds(12, 1074);
    lemma_pow2_adds(13, 1074);
    assert(0x10_0000_0000_0000nat * pow2(1086) == 0x1_0000_0000_0000_0000 * u) by (nonlinear_arith)
        requires
            pow2(1086) == 0x1000 * u,
    ;
    assert(0x10_0000_0000_0000nat * pow2(1087) == 0x2_0000_0000_0000_0000 * u) by (nonlinear_arith)
        requires
            pow2(1087) == 0x2000 * u,
    ;
    assert(samples * u <= 0x1_0000_0000_0000_0000 * u) by (nonlinear_arith)
        requires
            samples <= 0x1_0000_0000_0000_0000,
    ;
    lemma_nearest_at_most(b, samples, 1, 0x10_0000_0000_0000, 1086);
    assert((mb + 2 * u) * u <= 0x2_0000_0000_0000_0000 * u * u) by (nonlinear_arith)
        requires
            mb <= 0x1_0000_0000_0000_0000 * u,
            u >= 0,
    ;
    lemma_nearest_at_most(y, mb + 2 * u, u, 0x10_0000_0000_0000, 1087);
    lemma_nearest_exists(magnitude(x.bits as nat), magnitude(y.bits as nat));
}

/// A smoothed rate is above zero and not above one.
pub proof fn lemma_smoothed_in_unit(successes: nat, samples: nat)
    requires
        successes <= samples <= u64::MAX,
    ensures
        smoothed(successes, samples).is_nonnegative_finite(),
        0 < smoothed(successes, samples).units() <= unit(),
{
    let u: nat = unit();
    lemma_pow2_pos(1074);
    lemma_smoothed_parts(successes, samples);
    let a: Binary64 = Binary64::cast(successes);
    let b: Binary64 = Binary64::cast(samples);
    let x: Binary64 = a.plus(Binary64::cast(1));
    let y: Binary64 = b.plus(Binary64::cast(2));
    let ma: nat = magnitude(a.bits as nat);
    let mb: nat = magnitude(b.bits as nat);
    let mx: nat = magnitude(x.bits as nat);
    let my: nat = magnitude(y.bits as nat);
    lemma_nearest_monotone(a, successes, 1, b, samples, 1);
    lemma_magnitude_monotone(a, b);
    assert((ma + u) * u <= (mb + 2 * u) * u) by (nonlinear_arith)
        requires
            ma <= mb,
            u >= 0,
    ;
    lemma_nearest_monotone(x, ma + u, u, y, mb + 2 * u, u);
    lemma_magnitude_monotone(x, y);
    let r: Binary64 = smoothed(successes, samples);
    assert(mx * u <= 1 * pow2(1074) * my) by (nonlinear_arith)
        requires
            mx <= my,
            u == pow2(1074),
    ;
    lemma_nearest_at_most(r, mx, my, 1, 1074);
    lemma2_to64();
    lemma2_to64_rest();
    lemma_pow2_adds(65, 1009);
    lemma_pow2_adds(1, 64);
    let z: nat = pow2(1009);
    lemma_pow2_pos(1009);
    assert(mx * u >= 1 * z * my) by (nonlinear_arith)
        requires
            mx >= u,
            my <= 0x2_0000_0000_0000_0000 * u,
            u == 0x2_0000_0000_0000_0000 * z,
    ;
    lemma_nearest_at_least(r, mx, my, 1, 1009);
}

/// More successes among as many samples: a rate that is not lower.
pub proof fn lemma_smoothed_monotone(fewer: nat, more: nat, samples: nat)
    requires
        fewer <= more,
        samples <= u64::MAX,
    ensures
        smoothed(fewer, samples).bits <= smoothed(more, samples).bits,
{
    let u: nat = unit();
    lemma_pow2_pos(1074);
    lemma_smoothed_parts(fewer, samples);
    lemma_smoothed_parts(more, samples);
    let a: Binary64 = Binary64::cast(fewer);
    let b: Binary64 = Binary64::cast(more);
    let x: Binary64 = a.plus(Binary64::cast(1));
    let z: Binary64 = b.plus(Binary64::cast(1));
    let y: Binary64 = Binary64::cast(samples).plus(Binary64::cast(2));
    let ma: nat = magnitude(a.bits as nat);
    let mb: nat = magnitude(b.bits as nat);
    lemma_nearest_monotone(a, fewer, 1, b, more, 1);
    lemma_magnitude_monotone(a, b);
    assert((ma + u) * u <= (mb + u) * u) by (nonlinear_arith)
        requires
            ma <= mb,
            u >= 0,
    ;
    lemma_nearest_monotone(x, ma + u, u, z, mb + u, u);
    lemma_magnitude_monotone(x, z);
    let mx: nat = magnitude(x.bits as nat);
    let mz: nat = magnitude(z.bits as nat);
    let my: nat = magnitude(y.bits as nat);
    assert(mx * my <= mz * my) by (nonlinear_arith)
        requires
            mx <= mz,
            my >= 0,
    ;
    lemma_nearest_monotone(smoothed(fewer, samples), mx, my, smoothed(more, samples), mz, my);
}

/// The distance from a number to the one below it is less than 2^-52 of it.
proof fn lemma_step_below(bits: nat)
    requires
        bits >= 2 * HIDDEN_BIT,
    ensures
        magnitude((bits - 1) as nat) < magnitude(bits),
        (magnitude(bits) - magnitude((bits - 1) as nat)) * 0x10_0000_0000_0000 < magnitude(bits),
{
    let h: nat = HIDDEN_BIT as nat;
    let e: nat = bits / h;
    let fraction: nat = bits % h;
    let below: nat = (bits - 1) as nat;
    lemma_magnitude_increases(below, bits);
    lemma_pow2_pos((e - 1) as nat);
    lemma_pow2_pos((e - 2) as nat);
    let w: nat = pow2((e - 1) as nat);
    if fraction > 0 {
        assert(below / h == e && below % h == fraction - 1);
        assert((h + fraction) * w - (h + fraction - 1) * w == w) by (nonlinear_arith);
        assert(w * h < (h + fraction) * w) by (nonlinear_arith)
            requires
                fraction > 0,
                w > 0,
        ;
    } else {
        assert(below / h == e - 1 && below % h == h - 1);
        let x: nat = pow2((e - 2) as nat);
        lemma_pow2_unfold((e - 1) as nat);
        assert(h * w - (h + h - 1) * x == x) by (nonlinear_arith)
            requires
                w == 2 * x,
        ;
        assert(x * h < h * w) by (nonlinear_arith)
            requires
                w == 2 * x,
                x > 0,
                h > 0,
        ;
    }
}

/// The largest number below one is 1 - 2^-53.
proof fn lemma_largest_below_one(b: Binary64)
    requires
        0 < b.bits < ONE_BITS,
    ensures
        magnitude(b.bits as nat) + pow2(1021) <= unit(),
        unit() == 0x20_0000_0000_0000 * pow2(1021),
{
    let top: nat = (ONE_BITS - 1) as nat;
    let h: nat = HIDDEN_BIT as nat;
    lemma2_to64_rest();
    lemma_pow2_adds(53, 1021);
    assert(top / h == 1022 && top % h == h - 1);
    assert(magnitude(top) == (h + h - 1) * pow2(1021));
    assert((h + h - 1) * pow2(1021) + pow2(1021) == 0x20_0000_0000_0000 * pow2(1021))
        by (nonlinear_arith)
        requires
            h == 0x10_0000_0000_0000,
    ;
    if b.bits < top {
        lemma_magnitude_increases(b.bits as nat, top);
    }
}

/// A product with a factor below one stays below the number in front of the
/// other factor, or at it.
proof fn lemma_product_below(v: Binary64, factor: Binary64)
    requires
        v.is_nonnegative_finite(),
        v.bits >= 2 * HIDDEN_BIT,
        0 < factor.bits < ONE_BITS,
    ensures
        v.times(factor).bits < v.bits,
        v.times(factor).is_nonnegative_finite(),
{
    let u: nat = unit();
    let a: nat = pow2(1021);
    lemma_pow2_pos(1074);
    lemma_pow2_pos(1021);
    lemma_step_below(v.bits as nat);
    lemma_largest_below_one(factor);
    let m: nat = magnitude(v.bits as nat);
    let d: Binary64 = Binary64 { bits: (v.bits - 1) as u64 };
    let e: nat = magnitude(d.bits as nat);
    let f: nat = magnitude(factor.bits as nat);
    let q: nat = u * u;
    assert(q > 0) by (nonlinear_arith)
        requires
            u > 0,
            q == u * u,
    ;
    let p: nat = m * f;
    lemma_nearest_exists(p, q);
    let r: Binary64 = v.times(factor);
    assert(r.is_nearest(p, q));
    if r.bits >= v.bits {
        let g: nat = magnitude(r.bits as nat);
        if r.bits > v.bits {
            lemma_magnitude_increases(v.bits as nat, r.bits as nat);
        }
        assert(gap(r.bits as nat, p, q) <= gap(d.bits as nat, p, q));
        assert(g * q - p * u >= m * q - p * u && m * q > p * u) by (nonlinear_arith)
            requires
                g >= m,
                m > 0,
                u > 0,
                f < u,
                p == m * f,
                q == u * u,
        ;
        assert(e * q < m * q) by (nonlinear_arith)
            requires
                e < m,
                q > 0,
        ;
        assert(2 * p < (m + e) * u) by (nonlinear_arith)
            requires
                p == m * f,
                f + a <= u,
                u == 0x20_0000_0000_0000 * a,
                a > 0,
                (m - e) * 0x10_0000_0000_0000 < m,
        {
            assert(2 * (m * f) <= 2 * (m * (u - a)));
            assert(2 * (m * (u - a)) == 2 * (m * u) - 2 * (m * a));
            assert(((m - e) * 0x10_0000_0000_0000) * (2 * a) < m * (2 * a));
            assert(((m - e) * 0x10_0000_0000_0000) * (2 * a) == (m - e) * u);
            assert((m - e) * u == m * u - e * u);
        };
        assert(2 * (p * u) < (m + e) * q) by (nonlinear_arith)
            requires
                2 * p < (m + e) * u,
                q == u * u,
                u > 0,
        ;
        assert((m + e) * q == m * q + e * q) by (nonlinear_arith);
    }
}

/// Scaling by a factor below one does not enlarge a count.
pub proof fn lemma_scaled_count_shrinks(count: nat, factor: Binary64)
    requires
        count <= u64::MAX,
        factor.is_positive(),
        !factor.is_one_or_more(),
    ensures
        scaled_count(count, factor) <= count,
        scaled_count(count, factor) == Binary64::cast(count).times(factor).rounded(),
{
    let u: nat = unit();
    lemma_pow2_pos(1074);
    lemma_below_one(factor);
    lemma_largest_below_one(factor);
    let v: Binary64 = Binary64::cast(count);
    lemma_nearest_exists(count, 1);
    let m: nat = magnitude(v.bits as nat);
    let f: nat = magnitude(factor.bits as nat);
    let q: nat = u * u;
    assert(q > 0) by (nonlinear_arith)
        requires
            u > 0,
            q == u * u,
    ;
    lemma_nearest_exists(m * f, q);
    let r: Binary64 = v.times(factor);
    let g: nat = magnitude(r.bits as nat);
    if m <= count * u {
        lemma_nearest_exact(v, m, u);
        assert((m * f) * u <= m * q) by (nonlinear_arith)
            requires
                f <= u,
                q == u * u,
        ;
        lemma_nearest_monotone(r, m * f, q, v, m, u);
        if r.bits < v.bits {
            lemma_magnitude_increases(r.bits as nat, v.bits as nat);
        }
    } else {
        if v.bits < 2 * HIDDEN_BIT {
            let low: nat = (2 * HIDDEN_BIT) as nat;
            lemma_magnitude_increases(v.bits as nat, low);
            assert(low / (HIDDEN_BIT as nat) == 2 && low % (HIDDEN_BIT as nat) == 0);
            lemma2_to64();
            lemma2_to64_rest();
            lemma_pow2_adds(52, 1);
            assert(magnitude(low) == pow2(53));
            lemma_pow2_strictly_increases(53, 1074);
            if count >= 1 {
                assert(u <= count * u) by (nonlinear_arith)
                    requires
                        count >= 1,
                ;
            } else {
                assert(magnitude(0) == 0);
                assert(0 * u == 0);
                assert(magnitude(0) * 1 == 0);
                lemma_nearest_exact(Binary64 { bits: 0 }, 0, 1);
                lemma_is_nearest(Binary64 { bits: 0 }, 0, 1);
            }
        }
        let d: Binary64 = Binary64 { bits: (v.bits - 1) as u64 };
        let e: nat = magnitude(d.bits as nat);
        lemma_step_below(v.bits as nat);
        assert(gap(v.bits as nat, count, 1) <= gap(d.bits as nat, count, 1));
        assert(e <= count * u);
        lemma_product_below(v, factor);
        if r.bits < d.bits {
            lemma_magnitude_increases(r.bits as nat, d.bits as nat);
        }
    }
    assert(g <= count * u);
    assert((2 * g + u) / (2 * u) <= count) by (nonlinear_arith)
        requires
            g <= count * u,
            u > 0,
    ;
}

/// A larger count, scaled by a larger factor, is at least as large.
pub proof fn lemma_scaled_count_rises(
    fewer: nat,
    more: nat,
    smaller: Binary64,
    larger: Binary64,
)
    requires
        fewer <= more,
        smaller.is_positive(),
        !smaller.is_one_or_more(),
        larger.is_positive(),
        !larger.is_one_or_more(),
        smaller.units() <= larger.units(),
    ensures
        scaled_count(fewer, smaller) <= scaled_count(more, larger),
{
    let u: nat = unit();
    lemma_pow2_pos(1074);
    lemma_below_one(smaller);
    lemma_below_one(larger);
    let a: Binary64 = Binary64::cast(fewer);
    let b: Binary64 = Binary64::cast(more);
    lemma_nearest_exists(fewer, 1);
    lemma_nearest_exists(more, 1);
    lemma_nearest_monotone(a, fewer, 1, b, more, 1);
    lemma_magnitude_monotone(a, b);
    let (ma, mb): (nat, nat) = (magnitude(a.bits as nat), magnitude(b.bits as nat));
    let (fa, fb): (nat, nat) = (magnitude(smaller.bits as nat), magnitude(larger.bits as nat));
    let q: nat = u * u;
    assert(q > 0) by (nonlinear_arith)
        requires
            u > 0,
            q == u * u,
    ;
    assert((ma * fa) * q <= (mb * fb) * q) by (nonlinear_arith)
        requires
            ma <= mb,
            fa <= fb,
    ;
    lemma_nearest_exists(ma * fa, q);
    lemma_nearest_exists(mb * fb, q);
    let x: Binary64 = a.times(smaller);
    let y: Binary64 = b.times(larger);
    lemma_nearest_monotone(x, ma * fa, q, y, mb * fb, q);
    lemma_magnitude_monotone(x, y);
    let (gx, gy): (nat, nat) = (magnitude(x.bits as nat), magnitude(y.bits as nat));
    assert((2 * gx + u) / (2 * u) <= (2 * gy + u) / (2 * u)) by (nonlinear_arith)
        requires
            gx <= gy,
            u > 0,
    ;
}

/// One half as a binary64 number.
pub open spec fn one_half() -> Binary64 {
    Binary64 { bits: 0x3FE0_0000_0000_0000 }
}

/// One half is greater than zero and less than one.
pub proof fn lemma_one_half()
    ensures
        one_half().is_positive(),
        !one_half().is_one_or_more(),
        2 * one_half().units() == unit(),
{
    lemma_pow2_pos(1073);
    lemma_pow2_unfold(1074);
    lemma2_to64_rest();
    lemma_pow2_adds(52, 1021);
    let bits: nat = one_half().bits as nat;
    assert(bits / (HIDDEN_BIT as nat) == 1022 && bits % (HIDDEN_BIT as nat) == 0);
    assert(magnitude(bits) == pow2(1073));
}

/// Where nothing was observed, the smoothed success rate is one half.
pub proof fn lemma_smoothed_of_nothing()
    ensures
        smoothed(0, 0) == one_half(),
{
    let u: nat = unit();
    lemma_pow2_pos(1074);
    lemma_pow2_pos(1073);
    lemma_pow2_unfold(1074);
    lemma_one_half();
    let one: Binary64 = Binary64::cast(1);
    let two: Binary64 = Binary64::cast(2);
    let zero: Binary64 = Binary64::cast(0);
    assert(0 * pow2(1074) * 1 == 0 * u);
    assert(1 * pow2(1074) * 1 == 1 * u);
    assert(2 * pow2(1074) * 1 == 2 * u);
    lemma_nearest_of_units(0, 1074, 0, 1);
    lemma_nearest_of_units(1, 1074, 1, 1);
    lemma_nearest_of_units(2, 1074, 2, 1);
    lemma_plus_whole(zero, 0, one, 1);
    lemma_plus_whole(zero, 0, two, 2);
    assert(magnitude(one_half().bits as nat) * 2 == 1 * u);
    lemma_nearest_exact(one_half(), 1, 2);
    lemma_over_whole(one, 1, two, 2, one_half());
}

/// Up to 2^53, scaling by one half halves an even count.
pub proof fn lemma_scaled_count_halves(half: nat)
    requires
        half <= 0x10_0000_0000_0000,
    ensures
        scaled_count(2 * half, one_half()) == half,
{
    let u: nat = unit();
    let w: nat = pow2(1073);
    lemma_pow2_pos(1073);
    lemma_pow2_unfold(1074);
    lemma_pow2_unfold(1075);
    lemma2_to64_rest();
    lemma_pow2_adds(52, 1021);
    let count: nat = 2 * half;
    let v: Binary64 = Binary64::cast(count);
    let (m, k): (nat, nat) = if count < 0x20_0000_0000_0000 {
        (count, 1074)
    } else {
        (0x10_0000_0000_0000, 1075)
    };
    assert(m * pow2(k) == count * u) by (nonlinear_arith)
        requires
            m == count && pow2(k) == u || 2 * m == count && pow2(k) == 2 * u,
    ;
    lemma_nearest_of_units(m, k, count, 1);
    let bits: nat = one_half().bits as nat;
    assert(bits / (HIDDEN_BIT as nat) == 1022 && bits % (HIDDEN_BIT as nat) == 0);
    assert(magnitude(bits) == w);
    assert(half * u * (u * u) == (count * u) * w * u) by (nonlinear_arith)
        requires
            count == 2 * half,
            u == 2 * w,
    ;
    assert(u * u > 0) by (nonlinear_arith)
        requires
            u > 0,
    ;
    lemma_nearest_of_units(half, 1074, (count * u) * w, u * u);
    assert((2 * (half * u) + u) / (2 * u) == half) by (nonlinear_arith)
        requires
            u > 0,
    ;
}

impl Binary64 {
    /// Greater than zero.
    pub fn positive(self) -> (r: bool)
        ensures
            r == self.is_positive(),
    {
        assert(magnitude(0) == 0);
        Binary64 { bits: 0 }.less_than(self)
    }

    /// Greater than or equal to one.
    pub fn one_or_more(self) -> (r: bool)
        ensures
            r == self.is_one_or_more(),
    {
        proof {
            lemma2_to64_rest();
            lemma_pow2_adds(52, 1022);
            let one: nat = ONE_BITS as nat;
            assert(one / (HIDDEN_BIT as nat) == 1023 && one % (HIDDEN_BIT as nat) == 0);
            assert(magnitude(one) == unit());
        }
        !self.not_a_number() && !self.less_than(Binary64 { bits: ONE_BITS })
    }

    /// `k / 2^53`, which is a number from zero up to, but not including, one.
    pub fn unit_fraction(k: u64) -> (r: Binary64)
        requires
            k < 0x20_0000_0000_0000,
        ensures
            r == Self::cast(k as nat).over(Self::cast(0x20_0000_0000_0000)),
            r.is_nonnegative_finite(),
            r.units() == k * pow2(1021),
            0 <= r.units() < unit(),
    {
        proof {
            lemma_unit_fraction(k as nat);
        }
        if k == 0 {
            assert(magnitude(0) == 0);
            return Binary64 { bits: 0 };
        }
        let r: Binary64 = Self::round_ratio(k as u128, 0x20_0000_0000_0000);
        proof {
            lemma_is_nearest(r, k as nat, 0x20_0000_0000_0000);
        }
        r
    }
}

/// `k / 2^53` is exactly `k * 2^1021` units.
pub(crate) proof fn lemma_unit_fraction(k: nat)
    requires
        k < 0x20_0000_0000_0000,
    ensures
        Binary64::cast(k).over(Binary64::cast(0x20_0000_0000_0000)) == Binary64::nearest(
            k,
            0x20_0000_0000_0000,
        ),
        Binary64::nearest(k, 0x20_0000_0000_0000).is_nonnegative_finite(),
        magnitude(Binary64::nearest(k, 0x20_0000_0000_0000).bits as nat) == k * pow2(1021),
        k * pow2(1021) < unit(),
        k == 0 ==> Binary64::nearest(k, 0x20_0000_0000_0000).bits == 0,
{
    let u: nat = unit();
    let q: nat = 0x20_0000_0000_0000;
    let w: nat = pow2(1021);
    lemma_pow2_pos(1021);
    lemma_pow2_unfold(1075);
    lemma2_to64_rest();
    lemma_pow2_adds(53, 1021);
    assert(0x10_0000_0000_0000nat * pow2(1075) == q * u) by (nonlinear_arith)
        requires
            pow2(1075) == 2 * u,
            q == 0x20_0000_0000_0000nat,
    ;
    lemma_nearest_of_units(0x10_0000_0000_0000, 1075, q, 1);
    assert(k * pow2(1074) * 1 == k * u);
    lemma_nearest_of_units(k, 1074, k, 1);
    assert(k * w * q == k * u) by (nonlinear_arith)
        requires
            u == q * w,
    ;
    lemma_nearest_of_units(k, 1021, k, q);
    lemma_over_whole(
        Binary64::cast(k),
        k,
        Binary64::cast(q),
        q,
        Binary64::nearest(k, q),
    );
    assert(k * w < u) by (nonlinear_arith)
        requires
            u == q * w,
            k < q,
            w > 0,
    ;
    if k == 0 {
        assert(magnitude(0) == 0);
        lemma_magnitude_injective(Binary64::nearest(k, q).bits as nat, 0);
    }
}

/// A power of two by which a value of `total` over `q` lies between 2^52 and 2^53.
proof fn lemma_scale(total: nat, q: nat, bound: nat) -> (k: nat)
    requires
        HIDDEN_BIT * q <= total < 2 * HIDDEN_BIT * pow2(bound) * q,
    ensures
        k <= bound,
        HIDDEN_BIT * pow2(k) * q <= total < 2 * HIDDEN_BIT * pow2(k) * q,
    decreases bound,
{
    lemma2_to64();
    if HIDDEN_BIT * pow2(bound) * q <= total {
        bound
    } else {
        if bound == 0 {
            assert(HIDDEN_BIT * pow2(0) * q == HIDDEN_BIT * q);
        }
        lemma_pow2_unfold(bound);
        let less: nat = (bound - 1) as nat;
        assert(2 * HIDDEN_BIT * pow2(less) * q == HIDDEN_BIT * pow2(bound) * q)
            by (nonlinear_arith)
            requires
                pow2(bound) == 2 * pow2(less),
        ;
        lemma_scale(total, q, less)
    }
}

/// The distance between two numbers.
pub open spec fn distance(a: int, b: int) -> int {
    if a < b {
        b - a
    } else {
        a - b
    }
}

/// A ratio is rounded by at most one part in 2^53 of it.
proof fn lemma_nearest_error(b: Binary64, p: nat, q: nat)
    requires
        q > 0,
        b.is_nearest(p, q),
        HIDDEN_BIT * q <= p * unit() < 2 * HIDDEN_BIT * pow2(1900) * q,
    ensures
        distance(b.units() * q, (p * unit()) as int) * 0x20_0000_0000_0000 <= p * unit(),
{
    let total: nat = p * unit();
    let k: nat = lemma_scale(total, q, 1900);
    let s: nat = pow2(k);
    lemma_pow2_pos(k);
    let w: nat = s * q;
    assert(w > 0) by (nonlinear_arith)
        requires
            s > 0,
            q > 0,
            w == s * q,
    ;
    let h: nat = HIDDEN_BIT as nat;
    assert(h * s * q == h * w && 2 * h * s * q == 2 * h * w) by (nonlinear_arith)
        requires
            w == s * q,
    ;
    let m: nat = total / w;
    let rest: nat = total % w;
    assert(total == m * w + rest && rest < w) by (nonlinear_arith)
        requires
            w > 0,
            m == total / w,
            rest == total % w,
    ;
    assert(h <= m < 2 * h) by (nonlinear_arith)
        requires
            h * w <= total < 2 * h * w,
            total == m * w + rest,
            0 <= rest < w,
    ;
    let low: Binary64 = lemma_representable(m, k);
    let high: Binary64 = if m + 1 < 2 * h {
        lemma_representable(m + 1, k)
    } else {
        lemma_pow2_unfold(k + 1);
        lemma_representable(h, k + 1)
    };
    assert(magnitude(high.bits as nat) == (m + 1) * s) by (nonlinear_arith)
        requires
            magnitude(high.bits as nat) == (m + 1) * s || (m + 1 == 2 * h && magnitude(
                high.bits as nat,
            ) == h * (2 * s)),
    ;
    assert((m * s) * q == m * w && ((m + 1) * s) * q == m * w + w) by (nonlinear_arith)
        requires
            w == s * q,
    ;
    assert(gap(low.bits as nat, p, q) == rest);
    assert(gap(high.bits as nat, p, q) == w - rest);
    let g: nat = gap(b.bits as nat, p, q);
    assert(2 * g <= w);
    assert(g * (2 * h) <= total) by (nonlinear_arith)
        requires
            2 * g <= w,
            h * w <= total,
    ;
    assert(g == distance(b.units() * q, total as int));
}

/// An integer becomes itself as a binary64 number up to 2^53, and above that it
/// is rounded by at most one part in 2^53 of it.
pub proof fn lemma_cast_error(n: nat)
    requires
        0 < n <= 0x2_0000_0000_0000_0000,
    ensures
        Binary64::cast(n).is_nonnegative_finite(),
        distance(Binary64::cast(n).units(), (n * unit()) as int) * 0x20_0000_0000_0000 <= n
            * unit(),
        n <= 0x20_0000_0000_0000 ==> Binary64::cast(n).units() == n * unit(),
{
    let u: nat = unit();
    lemma_nearest_exists(n, 1);
    lemma2_to64();
    lemma2_to64_rest();
    lemma_pow2_pos(1074);
    lemma_pow2_adds(52, 1022);
    lemma_pow2_pos(1022);
    lemma_pow2_adds(65, 1074);
    lemma_pow2_adds(64, 1);
    lemma_pow2_strictly_increases(1139, 1900);
    assert(HIDDEN_BIT * 1 <= n * u) by (nonlinear_arith)
        requires
            n >= 1,
            u == HIDDEN_BIT * pow2(1022),
            pow2(1022) > 0,
    ;
    assert(n * u <= pow2(1139)) by (nonlinear_arith)
        requires
            n <= pow2(65),
            pow2(65) * u == pow2(1139),
    ;
    assert(n * u < 2 * HIDDEN_BIT * pow2(1900) * 1) by (nonlinear_arith)
        requires
            n * u < pow2(1900),
    ;
    let b: Binary64 = Binary64::cast(n);
    lemma_nearest_error(b, n, 1);
    assert(b.units() * 1 == b.units());
    if n < 0x20_0000_0000_0000 {
        assert(n * pow2(1074) * 1 == n * u);
        lemma_nearest_of_units(n, 1074, n, 1);
    } else if n == 0x20_0000_0000_0000 {
        lemma_pow2_adds(53, 1074);
        lemma_pow2_adds(52, 1);
        assert(1 * pow2(1127) * 1 == n * u);
        lemma_nearest_of_units(1, 1127, n, 1);
    }
}

/// The range of ratios of which the rounding is known, in units.
proof fn lemma_ratio_range(x: nat, y: nat)
    requires
        unit() <= 2 * x,
        unit() <= 2 * y,
        x <= 0x4_0000_0000_0000_0000 * unit(),
        y <= 0x4_0000_0000_0000_0000 * unit(),
    ensures
        HIDDEN_BIT * y <= x * unit() < 2 * HIDDEN_BIT * pow2(1900) * y,
{
    let u: nat = unit();
    let h: nat = HIDDEN_BIT as nat;
    let top: nat = 0x4_0000_0000_0000_0000;
    lemma2_to64();
    lemma2_to64_rest();
    lemma_pow2_adds(64, 2);
    lemma_pow2_adds(52, 1);
    lemma_pow2_adds(53, 66);
    lemma_pow2_adds(119, 955);
    lemma_pow2_pos(955);
    assert(u >= pow2(119)) by (nonlinear_arith)
        requires
            u == pow2(119) * pow2(955),
            pow2(955) > 0,
    ;
    assert(2 * (h * y) <= u * u) by {
        assert(2 * h * y <= (2 * h * top) * u) by (nonlinear_arith)
            requires
                y <= top * u,
        ;
        assert((2 * h * top) * u <= u * u) by (nonlinear_arith)
            requires
                2 * h * top <= u,
        ;
        assert(2 * h * y == 2 * (h * y)) by (nonlinear_arith);
    }
    assert(u * u <= 2 * (x * u)) by (nonlinear_arith)
        requires
            u <= 2 * x,
    ;
    lemma_pow2_adds(66, 1074);
    lemma_pow2_strictly_increases(1140, 1900);
    let z: nat = pow2(1900);
    assert(x * u <= z * u) by (nonlinear_arith)
        requires
            x <= z,
    ;
    assert(z * u <= z * (2 * y)) by (nonlinear_arith)
        requires
            u <= 2 * y,
    ;
    lemma_pow2_pos(1900);
    lemma_pow2_pos(1074);
    assert(z * (2 * y) < 2 * h * z * y) by (nonlinear_arith)
        requires
            z > 0,
            y > 0,
            h > 1,
    ;
}

/// What becomes of small errors in dividend, divisor and quotient.
proof fn lemma_ratio_error(n: nat, d: nat, x: nat, y: nat, g: nat)
    requires
        distance(x as int, (n * unit()) as int) * 0x20_0000_0000_0000 <= 3 * (n * unit()),
        distance(y as int, (d * unit()) as int) * 0x20_0000_0000_0000 <= 3 * (d * unit()),
        distance((g * y) as int, (x * unit()) as int) * 0x20_0000_0000_0000 <= x * unit(),
    ensures
        distance((g * d) as int, (n * unit()) as int) * 0x4_0000_0000_0000 <= n * unit(),
{
    let u: nat = unit();
    let k: int = 0x20_0000_0000_0000;
    lemma_pow2_pos(1074);
    let nu: int = (n * u) as int;
    let du: int = (d * u) as int;
    let xu: int = (x * u) as int;
    let gy: int = (g * y) as int;
    let gd: int = (g * d) as int;
    assert(gd * u == g * du) by (nonlinear_arith)
        requires
            gd == g * d,
            du == d * u,
    ;
    let e1: int = distance(g * du, gy);
    assert(k * e1 <= 3 * (g * du)) by {
        let t: int = distance(y as int, du);
        assert(e1 == g * t) by (nonlinear_arith)
            requires
                e1 == distance(g * du, gy),
                gy == g * y,
                t == distance(y as int, du),
                g >= 0,
        ;
        assert(k * (g * t) == g * (t * k)) by (nonlinear_arith);
        assert(g * (t * k) <= g * (3 * du)) by (nonlinear_arith)
            requires
                t * k <= 3 * du,
                g >= 0,
        ;
        assert(g * (3 * du) == 3 * (g * du)) by (nonlinear_arith);
    }
    let e2: int = distance(gy, xu);
    let e3: int = distance(xu, nu * u);
    assert(k * e3 <= 3 * (nu * u)) by {
        let t: int = distance(x as int, nu);
        assert(e3 == t * u) by (nonlinear_arith)
            requires
                e3 == distance(xu, nu * u),
                xu == x * u,
                t == distance(x as int, nu),
                u > 0,
        ;
        assert(k * (t * u) == (t * k) * u) by (nonlinear_arith);
        assert((t * k) * u <= (3 * nu) * u) by (nonlinear_arith)
            requires
                t * k <= 3 * nu,
                u > 0,
        ;
        assert((3 * nu) * u == 3 * (nu * u)) by (nonlinear_arith);
    }
    assert(nu * u >= 0) by (nonlinear_arith)
        requires
            nu >= 0,
            u >= 0,
    ;
    assert(10 * xu <= 11 * (nu * u));
    assert(10 * gy <= 12 * (nu * u));
    assert(10 * (g * du) <= 13 * (nu * u));
    assert(distance(gd * u, nu * u) <= e1 + e2 + e3);
    assert(k * distance(gd * u, nu * u) <= 8 * (nu * u));
    assert(distance(gd * u, nu * u) == distance(gd, nu) * u) by (nonlinear_arith)
        requires
            u > 0,
    ;
    assert(distance(gd, nu) * 0x4_0000_0000_0000 <= nu) by (nonlinear_arith)
        requires
            k * (distance(gd, nu) * u) <= 8 * (nu * u),
            k == 8 * 0x4_0000_0000_0000,
            u > 0,
    ;
}

/// The quotient of two integers in binary64 arithmetic is their ratio up to
/// rounding: it times the divisor differs from the dividend by at most one part in
/// 2^50. Up to 2^53 it is the number nearest to the ratio, and then it lies below
/// one where the dividend is the smaller.
pub proof fn lemma_quotient_is_the_ratio(n: nat, d: nat)
    requires
        0 < n <= u64::MAX,
        0 < d <= u64::MAX,
    ensures
        ({
            let r = Binary64::cast(n).over(Binary64::cast(d));
            &&& r.is_nonnegative_finite()
            &&& r.units() > 0
            &&& distance(r.units() * d, (n * unit()) as int) * 0x4_0000_0000_0000 <= n * unit()
            &&& n <= 0x20_0000_0000_0000 && d <= 0x20_0000_0000_0000 ==> r.is_nearest(n, d)
            &&& n < d <= 0x20_0000_0000_0000 ==> r.units() < unit()
            &&& n == d ==> r.units() == unit()
        }),
{
    let u: nat = unit();
    let x: nat = magnitude(Binary64::cast(n).bits as nat);
    let y: nat = magnitude(Binary64::cast(d).bits as nat);
    let r: Binary64 = Binary64::cast(n).over(Binary64::cast(d));
    lemma_pow2_pos(1074);
    lemma_cast_error(n);
    lemma_cast_error(d);
    assert(n * u >= u && d * u >= u) by (nonlinear_arith)
        requires
            n >= 1,
            d >= 1,
    ;
    assert(x > 0 && y > 0);
    lemma_nearest_exists(x, y);
    let g: nat = magnitude(r.bits as nat);
    let nu: int = (n * u) as int;
    let du: int = (d * u) as int;
    assert(2 * x >= nu && x <= 2 * nu && 2 * y >= du && y <= 2 * du);
    assert(nu <= 0x1_0000_0000_0000_0000 * u && du <= 0x1_0000_0000_0000_0000 * u)
        by (nonlinear_arith)
        requires
            nu == n * u,
            du == d * u,
            n <= 0x1_0000_0000_0000_0000,
            d <= 0x1_0000_0000_0000_0000,
    ;
    lemma_ratio_range(x, y);
    lemma_nearest_error(r, x, y);
    assert(r.units() == g);
    lemma_ratio_error(n, d, x, y, g);
    let gd: int = (g * d) as int;
    if g == 0 {
        assert(gd == 0) by (nonlinear_arith)
            requires
                g == 0,
                gd == g * d,
        ;
    }
    if n <= 0x20_0000_0000_0000 && d <= 0x20_0000_0000_0000 {
        lemma_nearest_exists(n, d);
        let b: Binary64 = Binary64::nearest(n, d);
        lemma_over_whole(Binary64::cast(n), n, Binary64::cast(d), d, b);
        if n < d {
            let a: nat = pow2(1021);
            lemma2_to64_rest();
            lemma_pow2_adds(53, 1021);
            lemma_pow2_adds(52, 1);
            let most: nat = 0x1F_FFFF_FFFF_FFFF;
            assert(n * u <= most * a * d) by {
                assert(n * u == (n * 0x20_0000_0000_0000) * a) by (nonlinear_arith)
                    requires
                        u == 0x20_0000_0000_0000 * a,
                ;
                assert(most * a * d == (most * d) * a) by (nonlinear_arith);
                assert(n * 0x20_0000_0000_0000 <= most * d) by (nonlinear_arith)
                    requires
                        most == 0x20_0000_0000_0000 - 1,
                        n + 1 <= d <= 0x20_0000_0000_0000,
                ;
                assert((n * 0x20_0000_0000_0000) * a <= (most * d) * a) by (nonlinear_arith)
                    requires
                        n * 0x20_0000_0000_0000 <= most * d,
                ;
            }
            lemma_nearest_at_most(r, n, d, most, 1021);
            lemma_pow2_pos(1021);
            assert(most * a < u) by (nonlinear_arith)
                requires
                    u == 0x20_0000_0000_0000 * a,
                    most == 0x20_0000_0000_0000 - 1,
                    a > 0,
            ;
        }
    }
    if n == d {
        assert(1 * pow2(1074) * y == x * u) by (nonlinear_arith)
            requires
                x == y,
                u == pow2(1074),
        ;
        lemma_nearest_of_units(1, 1074, x, y);
        assert(1 * pow2(1074) == u);
    }
}

/// A larger dividend gives a quotient that is at least as large.
pub proof fn lemma_quotient_rises(fewer: nat, more: nat, d: nat)
    requires
        fewer <= more,
        0 < d <= u64::MAX,
    ensures
        Binary64::cast(fewer).over(Binary64::cast(d)).units() <= Binary64::cast(more).over(
            Binary64::cast(d),
        ).units(),
{
    lemma_nearest_exists(fewer, 1);
    lemma_nearest_exists(more, 1);
    let a: Binary64 = Binary64::cast(fewer);
    let b: Binary64 = Binary64::cast(more);
    lemma_nearest_monotone(a, fewer, 1, b, more, 1);
    lemma_magnitude_monotone(a, b);
    lemma_cast_error(d);
    lemma_pow2_pos(1074);
    let y: nat = magnitude(Binary64::cast(d).bits as nat);
    assert(d * unit() >= unit()) by (nonlinear_arith)
        requires
            d >= 1,
    ;
    let x: nat = magnitude(a.bits as nat);
    let z: nat = magnitude(b.bits as nat);
    lemma_nearest_exists(x, y);
    lemma_nearest_exists(z, y);
    assert(x * y <= z * y) by (nonlinear_arith)
        requires
            x <= z,
    ;
    lemma_nearest_monotone(a.over(Binary64::cast(d)), x, y, b.over(Binary64::cast(d)), z, y);
    lemma_magnitude_monotone(a.over(Binary64::cast(d)), b.over(Binary64::cast(d)));
}

/// The product of two numbers is rounded by at most one part in 2^53 of it, if it
/// is not tiny.
proof fn lemma_product_error(v: Binary64, factor: Binary64)
    requires
        magnitude(v.bits as nat) <= 0x2_0000_0000_0000_0000 * unit(),
        magnitude(factor.bits as nat) <= unit(),
        magnitude(v.bits as nat) * magnitude(factor.bits as nat) >= HIDDEN_BIT * unit(),
    ensures
        ({
            let p: nat = magnitude(v.bits as nat) * magnitude(factor.bits as nat);
            distance((magnitude(v.times(factor).bits as nat) * unit()) as int, p as int)
                * 0x20_0000_0000_0000 <= p
        }),
        v.times(factor).is_nonnegative_finite(),
{
    let u: nat = unit();
    let p: nat = magnitude(v.bits as nat) * magnitude(factor.bits as nat);
    let q: nat = u * u;
    lemma_pow2_pos(1074);
    assert(q > 0) by (nonlinear_arith)
        requires
            u > 0,
            q == u * u,
    ;
    lemma_nearest_exists(p, q);
    let r: Binary64 = v.times(factor);
    let g: nat = magnitude(r.bits as nat);
    lemma2_to64();
    lemma2_to64_rest();
    assert(HIDDEN_BIT * q <= p * u) by (nonlinear_arith)
        requires
            p >= HIDDEN_BIT * u,
            q == u * u,
            u > 0,
    ;
    lemma_pow2_adds(65, 1074);
    lemma_pow2_adds(64, 1);
    lemma_pow2_strictly_increases(1139, 1900);
    assert(p <= pow2(1139) * u) by (nonlinear_arith)
        requires
            p == magnitude(v.bits as nat) * magnitude(factor.bits as nat),
            magnitude(v.bits as nat) <= pow2(1139),
            magnitude(factor.bits as nat) <= u,
    ;
    assert(p * u <= pow2(1139) * q) by (nonlinear_arith)
        requires
            p <= pow2(1139) * u,
            q == u * u,
    ;
    assert(pow2(1139) * q < 2 * HIDDEN_BIT * pow2(1900) * q) by (nonlinear_arith)
        requires
            pow2(1139) < pow2(1900),
            q > 0,
    ;
    lemma_nearest_error(r, p, q);
    assert(g * q == (g * u) * u) by (nonlinear_arith)
        requires
            q == u * u,
    ;
    let d: int = distance((g * u) as int, p as int);
    assert(distance((g * u) * u as int, (p * u) as int) == d * u) by (nonlinear_arith)
        requires
            d == distance((g * u) as int, p as int),
            u > 0,
    ;
    assert(d * 0x20_0000_0000_0000 <= p) by (nonlinear_arith)
        requires
            (d * u) * 0x20_0000_0000_0000 <= p * u,
            u > 0,
    ;
}

/// A count that is scaled by a factor below one is their product, rounded to the
/// nearest whole number: twice the two differ by no more than one, but for one part
/// in 2^50 of the product.
pub proof fn lemma_scaled_count_is_the_product(count: nat, factor: Binary64)
    requires
        count <= u64::MAX,
        factor.is_positive(),
        !factor.is_one_or_more(),
    ensures
        distance(
            2 * (scaled_count(count, factor) * unit()) as int,
            2 * (count * factor.units()),
        ) * 0x4_0000_0000_0000 <= unit() * 0x4_0000_0000_0000 + count * factor.units(),
{
    let u: nat = unit();
    lemma_pow2_pos(1074);
    lemma_below_one(factor);
    lemma_largest_below_one(factor);
    lemma_scaled_count_shrinks(count, factor);
    let f: nat = magnitude(factor.bits as nat);
    let w: nat = count * f;
    let r: nat = scaled_count(count, factor);
    assert(f > 0 && factor.units() == f);
    if count == 0 {
        assert(r * u == 0 && w == 0) by (nonlinear_arith)
            requires
                r == 0,
                w == 0 * f,
        ;
    } else {
        let v: Binary64 = Binary64::cast(count);
        let m: nat = magnitude(v.bits as nat);
        let p: nat = m * f;
        let g: nat = magnitude(v.times(factor).bits as nat);
        let q: nat = u * u;
        lemma_cast_error(count);
        let nu: nat = count * u;
        assert(w * u == nu * f) by (nonlinear_arith)
            requires
                w == count * f,
                nu == count * u,
        ;
        let k: int = 0x20_0000_0000_0000;
        // the product of the rounded count is off by one part in 2^53
        let e: int = distance(p as int, (w * u) as int);
        assert(e * k <= w * u) by {
            let t: int = distance(m as int, nu as int);
            assert(e == t * f) by (nonlinear_arith)
                requires
                    e == distance((m * f) as int, (nu * f) as int),
                    t == distance(m as int, nu as int),
            ;
            assert((t * f) * k == (t * k) * f) by (nonlinear_arith);
            assert((t * k) * f <= nu * f) by (nonlinear_arith)
                requires
                    t * k <= nu,
            ;
        }
        let d: int = distance((g * u) as int, p as int);
        assert(d * k <= p) by {
            if p >= HIDDEN_BIT * u {
                assert(nu <= 0x1_0000_0000_0000_0000 * u) by (nonlinear_arith)
                    requires
                        nu == count * u,
                        count <= 0x1_0000_0000_0000_0000,
                ;
                lemma_product_error(v, factor);
            } else {
                if count > 0x20_0000_0000_0000 {
                    assert(nu >= 0x20_0000_0000_0000 * u) by (nonlinear_arith)
                        requires
                            nu == count * u,
                            count >= 0x20_0000_0000_0000,
                    ;
                    assert(m * f >= m) by (nonlinear_arith)
                        requires
                            f >= 1,
                    ;
                }
                assert(w < HIDDEN_BIT) by (nonlinear_arith)
                    requires
                        w * u < HIDDEN_BIT * u,
                        u > 0,
                ;
                lemma2_to64();
                assert(q > 0) by (nonlinear_arith)
                    requires
                        u > 0,
                        q == u * u,
                ;
                assert(w * pow2(0) * q == p * u) by (nonlinear_arith)
                    requires
                        pow2(0) == 1,
                        p == w * u,
                        q == u * u,
                ;
                lemma_nearest_of_units(w, 0, p, q);
                assert(w * pow2(0) == w);
            }
        }
        // together by fewer than four parts in 2^53
        let c: int = distance(g as int, w as int);
        assert(distance((g * u) as int, (w * u) as int) == c * u) by (nonlinear_arith)
            requires
                c == distance(g as int, w as int),
                u > 0,
        ;
        assert((c * u) * k <= 4 * (w * u));
        assert(c * k <= 4 * w) by (nonlinear_arith)
            requires
                (c * u) * k <= 4 * (w * u),
                u > 0,
        ;
        // and rounding to a whole number by one half
        let a: nat = 2 * g + u;
        assert(2 * (r * u) <= a < 2 * (r * u) + 2 * u) by (nonlinear_arith)
            requires
                r == a / (2 * u),
                u > 0,
        ;
        assert(distance(2 * (r * u) as int, 2 * w as int) <= u + 2 * c);
        assert(2 * (count * factor.units()) == 2 * w);
    }
}

/// A sum of two numbers that is not tiny is rounded by at most one part in 2^53.
proof fn lemma_sum_error(a: Binary64, b: Binary64)
    requires
        a.is_nonnegative_finite(),
        b.is_nonnegative_finite(),
        unit() <= 2 * (magnitude(a.bits as nat) + magnitude(b.bits as nat)),
        magnitude(a.bits as nat) + magnitude(b.bits as nat) <= 0x4_0000_0000_0000_0000 * unit(),
    ensures
        distance(
            magnitude(a.plus(b).bits as nat) as int,
            (magnitude(a.bits as nat) + magnitude(b.bits as nat)) as int,
        ) * 0x20_0000_0000_0000 <= magnitude(a.bits as nat) + magnitude(b.bits as nat),
{
    let u: nat = unit();
    let p: nat = magnitude(a.bits as nat) + magnitude(b.bits as nat);
    let g: nat = magnitude(a.plus(b).bits as nat);
    lemma_pow2_pos(1074);
    lemma_nearest_exists(p, u);
    assert(u <= 0x4_0000_0000_0000_0000 * u);
    lemma_ratio_range(p, u);
    lemma_nearest_error(a.plus(b), p, u);
    let d: int = distance(g as int, p as int);
    assert(distance((g * u) as int, (p * u) as int) == d * u) by (nonlinear_arith)
        requires
            d == distance(g as int, p as int),
            u > 0,
    ;
    assert(d * 0x20_0000_0000_0000 <= p) by (nonlinear_arith)
        requires
            (d * u) * 0x20_0000_0000_0000 <= p * u,
            u > 0,
    ;
}

/// A count, and what is added to it in binary64 arithmetic, up to rounding.
proof fn lemma_count_plus(count: nat, more: nat)
    requires
        count <= u64::MAX,
        0 < more <= 2,
    ensures
        ({
            let r: nat = magnitude(Binary64::cast(count).plus(Binary64::cast(more)).bits as nat);
            &&& distance(r as int, ((count + more) * unit()) as int) * 0x20_0000_0000_0000 <= 3 * (
            (count + more) * unit())
            &&& count + more <= 0x20_0000_0000_0000 ==> r == (count + more) * unit()
                && Binary64::cast(count).plus(Binary64::cast(more)) == Binary64::cast(count + more)
        }),
{
    let u: nat = unit();
    lemma_pow2_pos(1074);
    lemma_cast_error(more);
    let a: Binary64 = Binary64::cast(count);
    let b: Binary64 = Binary64::cast(more);
    if count > 0 {
        lemma_cast_error(count);
    } else {
        assert(0 * pow2(1074) * 1 == 0 * u);
        lemma_nearest_of_units(0, 1074, 0, 1);
        assert(0 * pow2(1074) == 0);
    }
    let m: nat = magnitude(a.bits as nat);
    let cu: nat = count * u;
    let mu: nat = more * u;
    assert((count + more) * u == cu + mu) by (nonlinear_arith)
        requires
            cu == count * u,
            mu == more * u,
    ;
    assert(u <= mu <= 2 * u && cu <= 0x1_0000_0000_0000_0000 * u) by (nonlinear_arith)
        requires
            cu == count * u,
            mu == more * u,
            1 <= more <= 2,
            count <= 0x1_0000_0000_0000_0000,
    ;
    lemma_sum_error(a, b);
    if count + more <= 0x20_0000_0000_0000 {
        lemma_nearest_exists(count + more, 1);
        lemma_plus_whole(a, count, b, more);
        lemma_cast_error(count + more);
    }
}

/// The smoothed success rate is `(successes + 1) / (samples + 2)` up to rounding:
/// the number nearest to it for up to 2^53 samples, and otherwise one that differs
/// by at most one part in 2^50.
pub proof fn lemma_smoothed_is_the_ratio(successes: nat, samples: nat)
    requires
        successes <= samples <= u64::MAX,
    ensures
        samples + 2 <= 0x20_0000_0000_0000 ==> smoothed(successes, samples).is_nearest(
            successes + 1,
            samples + 2,
        ),
        distance(
            smoothed(successes, samples).units() * (samples + 2),
            ((successes + 1) * unit()) as int,
        ) * 0x4_0000_0000_0000 <= (successes + 1) * unit(),
{
    let n: nat = successes + 1;
    let d: nat = samples + 2;
    let u: nat = unit();
    lemma_pow2_pos(1074);
    lemma_count_plus(successes, 1);
    lemma_count_plus(samples, 2);
    lemma_smoothed_parts(successes, samples);
    let a: Binary64 = Binary64::cast(successes).plus(Binary64::cast(1));
    let b: Binary64 = Binary64::cast(samples).plus(Binary64::cast(2));
    let x: nat = magnitude(a.bits as nat);
    let y: nat = magnitude(b.bits as nat);
    let r: Binary64 = smoothed(successes, samples);
    let g: nat = magnitude(r.bits as nat);
    assert(n * u <= 0x1_0000_0000_0000_0000 * u) by (nonlinear_arith)
        requires
            n <= 0x1_0000_0000_0000_0000,
    ;
    lemma_ratio_range(x, y);
    lemma_nearest_error(r, x, y);
    assert(r.units() == g);
    lemma_ratio_error(n, d, x, y, g);
    if d <= 0x20_0000_0000_0000 {
        lemma_nearest_exists(n, d);
        lemma_over_whole(a, n, b, d, Binary64::nearest(n, d));
    }
}

/// Up to 2^24 samples, smoothed rates are ordered as the ratios
/// `(successes + 1) / (samples + 2)` themselves, and equal where those are.
pub proof fn lemma_smoothed_order(s: nat, n: nat, t: nat, m: nat)
    requires
        s <= n,
        t <= m,
        n + 2 <= 0x100_0000,
        m + 2 <= 0x100_0000,
    ensures
        smoothed(s, n).units() < smoothed(t, m).units() <==> (s + 1) * (m + 2) < (t + 1) * (n + 2),
        smoothed(s, n) == smoothed(t, m) <==> (s + 1) * (m + 2) == (t + 1) * (n + 2),
{
    lemma_smoothed_is_the_ratio(s, n);
    lemma_smoothed_is_the_ratio(t, m);
    if (s + 1) * (m + 2) < (t + 1) * (n + 2) {
        lemma_smoothed_strict(s, n, t, m);
    } else if (s + 1) * (m + 2) > (t + 1) * (n + 2) {
        lemma_smoothed_strict(t, m, s, n);
    } else {
        lemma_nearest_monotone(smoothed(s, n), s + 1, n + 2, smoothed(t, m), t + 1, m + 2);
        lemma_nearest_monotone(smoothed(t, m), t + 1, m + 2, smoothed(s, n), s + 1, n + 2);
    }
}

proof fn lemma_smoothed_strict(s: nat, n: nat, t: nat, m: nat)
    requires
        s <= n,
        t <= m,
        n + 2 <= 0x100_0000,
        m + 2 <= 0x100_0000,
        (s + 1) * (m + 2) < (t + 1) * (n + 2),
    ensures
        smoothed(s, n).units() < smoothed(t, m).units(),
{
    lemma_smoothed_is_the_ratio(s, n);
    lemma_smoothed_is_the_ratio(t, m);
    lemma_pow2_pos(1074);
    let u: int = unit() as int;
    let k: int = 0x4_0000_0000_0000;
    let (p, q): (int, int) = ((s + 1) as int, (n + 2) as int);
    let (v, w): (int, int) = ((t + 1) as int, (m + 2) as int);
    let a: int = smoothed(s, n).units();
    let b: int = smoothed(t, m).units();
    let pu: int = p * u;
    let vu: int = v * u;
    assert(k * (a * q) <= (k + 1) * pu);
    assert((k - 1) * vu <= k * (b * w));
    if a >= b {
        // a q w <= (1 + e) p w u, and b w q >= (1 - e) v q u
        assert(k * (a * q) * w <= (k + 1) * (pu * w)) by (nonlinear_arith)
            requires
                k * (a * q) <= (k + 1) * pu,
                w > 0,
        ;
        assert((k - 1) * (vu * q) <= k * (b * w) * q) by (nonlinear_arith)
            requires
                (k - 1) * vu <= k * (b * w),
                q > 0,
        ;
        assert(k * (b * w) * q <= k * (a * q) * w) by (nonlinear_arith)
            requires
                b <= a,
                q > 0,
                w > 0,
                k > 0,
        ;
        let x: int = p * w;
        let y: int = v * q;
        assert(pu * w == x * u && vu * q == y * u) by (nonlinear_arith)
            requires
                pu == p * u,
                vu == v * u,
                x == p * w,
                y == v * q,
        ;
        assert((k - 1) * (y * u) <= (k + 1) * (x * u));
        assert((k - 1) * y <= (k + 1) * x) by (nonlinear_arith)
            requires
                (k - 1) * (y * u) <= (k + 1) * (x * u),
                u > 0,
        ;
        assert(y <= 0x1_0000_0000_0000) by (nonlinear_arith)
            requires
                y == v * q,
                0 < v <= 0x100_0000,
                0 < q <= 0x100_0000,
        ;
        assert(x + 1 <= y);
        assert(false);
    }
}

} // verus!
