//! Numbers: IEEE 754 double precision, held as the 64-bit interchange pattern.
//!
//! Every finite double is a whole multiple of `2^-1074`, the least positive
//! one, so the meaning of a pattern is a whole number of such units and every
//! operation is stated over integers: the exact result, rounded to the nearest
//! double with ties to the even pattern.
use vstd::arithmetic::mul::{lemma_mul_inequality, lemma_mul_strict_inequality};
use vstd::arithmetic::power2::{lemma_pow2_pos, lemma_pow2_unfold, pow2};
use vstd::prelude::*;

use crate::bignum::{Big, Side};

verus! {

/// The sign bit.
pub const SIGN: u64 = 0x8000_0000_0000_0000;

/// The magnitude pattern of infinity; larger magnitudes are NaNs.
pub const INFINITE: u64 = 0x7ff0_0000_0000_0000;

/// The pattern of the NaN that arithmetic gives.
pub const NAN: u64 = 0x7ff8_0000_0000_0000;

/// One more than the largest fraction field.
pub const HIDDEN: u64 = 0x10_0000_0000_0000;

/// The unit is `2^-UNIT`.
pub const UNIT: u32 = 1074;

/// A double-precision number.
#[derive(Clone, Copy, Debug, PartialEq, Eq, Structural)]
pub struct Number {
    pub bits: u64,
}

/// Units of the non-negative double with magnitude pattern `m`. The pattern of
/// infinity counts as the value that would follow the largest finite one.
pub open spec fn scaled(m: int) -> nat {
    let e = m / 0x10_0000_0000_0000;
    let f = m % 0x10_0000_0000_0000;
    if e <= 0 {
        f as nat
    } else {
        (0x10_0000_0000_0000 + f) as nat * pow2((e - 1) as nat)
    }
}

/// Distance, in `d`-ths of a unit, between pattern `m` and `n / d` units.
pub open spec fn distance(m: int, n: int, d: int) -> int {
    let x = scaled(m) * d - n;
    if x < 0 {
        -x
    } else {
        x
    }
}

/// Whether `m` is the double nearest to `n / d` units, ties to even.
pub open spec fn nearest(m: int, n: int, d: int) -> bool {
    &&& 0 <= m <= INFINITE
    &&& forall|k: int|
        #![trigger distance(k, n, d)]
        0 <= k <= INFINITE ==> distance(m, n, d) < distance(k, n, d) || (distance(m, n, d)
            == distance(k, n, d) && (k == m || m % 2 == 0))
}

/// The magnitude pattern of the double nearest to `n / d` units.
pub open spec fn round_ratio(n: int, d: int) -> int {
    choose|m: int| nearest(m, n, d)
}

/// Whether `m` is the double nearest to the square root of `n` (in units).
pub open spec fn nearest_root(m: int, n: int) -> bool {
    &&& 0 <= m < INFINITE
    &&& m > 0 ==> {
        let low = scaled(m - 1) + scaled(m);
        low * low < 4 * n || (low * low == 4 * n && m % 2 == 0)
    }
    &&& {
        let high = scaled(m) + scaled(m + 1);
        4 * n < high * high || (4 * n == high * high && m % 2 == 0)
    }
}

pub open spec fn round_root(n: int) -> int {
    choose|m: int| nearest_root(m, n)
}

impl Number {
    /// The sign bit, set for negative numbers and for `-0`.
    pub open spec fn negative(self) -> bool {
        self.bits >= SIGN
    }

    /// The pattern without its sign.
    pub open spec fn mag(self) -> int {
        if self.negative() {
            self.bits - SIGN
        } else {
            self.bits as int
        }
    }

    pub open spec fn nan(self) -> bool {
        self.mag() > INFINITE
    }

    pub open spec fn infinite(self) -> bool {
        self.mag() == INFINITE
    }

    pub open spec fn finite(self) -> bool {
        self.mag() < INFINITE
    }

    pub open spec fn zero(self) -> bool {
        self.mag() == 0
    }

    /// The value, in units of `2^-1074`.
    pub open spec fn units(self) -> int {
        if self.negative() {
            -(scaled(self.mag()) as int)
        } else {
            scaled(self.mag()) as int
        }
    }

    /// Position on the number line among the non-NaNs.
    pub open spec fn key(self) -> int {
        if self.negative() {
            -self.mag()
        } else {
            self.mag()
        }
    }

    /// The number with the given sign and magnitude pattern.
    pub open spec fn make(negative: bool, mag: int) -> Number {
        Number {
            bits: if negative {
                (mag + SIGN) as u64
            } else {
                mag as u64
            },
        }
    }

    pub open spec fn nan_value() -> Number {
        Number { bits: NAN }
    }

    pub open spec fn lt_spec(self, other: Number) -> bool {
        !self.nan() && !other.nan() && self.key() < other.key()
    }

    pub open spec fn eq_value(self, other: Number) -> bool {
        !self.nan() && !other.nan() && self.key() == other.key()
    }

    pub open spec fn neg_spec(self) -> Number {
        Number::make(!self.negative(), self.mag())
    }

    pub open spec fn abs_spec(self) -> Number {
        Number::make(false, self.mag())
    }

    /// The double nearest to `n / d` units, with the given sign.
    pub open spec fn rounded(negative: bool, n: int, d: int) -> Number {
        Number::make(negative, round_ratio(n, d))
    }

    pub open spec fn plus_spec(self, other: Number) -> Number {
        if self.nan() || other.nan() {
            Number::nan_value()
        } else if self.infinite() {
            if other.infinite() && self.negative() != other.negative() {
                Number::nan_value()
            } else {
                self
            }
        } else if other.infinite() {
            other
        } else {
            let u = self.units() + other.units();
            if u == 0 {
                Number::make(self.negative() && other.negative(), 0)
            } else if u < 0 {
                Number::rounded(true, -u, 1)
            } else {
                Number::rounded(false, u, 1)
            }
        }
    }

    pub open spec fn times_spec(self, other: Number) -> Number {
        let negative = self.negative() != other.negative();
        if self.nan() || other.nan() {
            Number::nan_value()
        } else if self.infinite() || other.infinite() {
            if self.zero() || other.zero() {
                Number::nan_value()
            } else {
                Number::make(negative, INFINITE as int)
            }
        } else {
            Number::rounded(negative, (scaled(self.mag()) * scaled(other.mag())) as int, pow2(UNIT as nat) as int)
        }
    }

    pub open spec fn over_spec(self, other: Number) -> Number {
        let negative = self.negative() != other.negative();
        if self.nan() || other.nan() {
            Number::nan_value()
        } else if self.infinite() {
            if other.infinite() {
                Number::nan_value()
            } else {
                Number::make(negative, INFINITE as int)
            }
        } else if other.infinite() {
            Number::make(negative, 0)
        } else if other.zero() {
            if self.zero() {
                Number::nan_value()
            } else {
                Number::make(negative, INFINITE as int)
            }
        } else {
            Number::rounded(negative, (scaled(self.mag()) * pow2(UNIT as nat)) as int, scaled(other.mag()) as int)
        }
    }

    pub open spec fn rem_spec(self, other: Number) -> Number {
        if self.nan() || other.nan() || self.infinite() || other.zero() {
            Number::nan_value()
        } else if other.infinite() {
            self
        } else {
            Number::rounded(self.negative(), (scaled(self.mag()) % scaled(other.mag())) as int, 1)
        }
    }

    pub open spec fn sqrt_spec(self) -> Number {
        if self.nan() || (self.negative() && !self.zero()) {
            Number::nan_value()
        } else if self.infinite() || self.zero() {
            self
        } else {
            Number::make(false, round_root((scaled(self.mag()) * pow2(UNIT as nat)) as int))
        }
    }

    /// The whole part of a finite number, towards zero, without its sign.
    pub open spec fn whole(self) -> nat {
        scaled(self.mag()) / pow2(UNIT as nat)
    }

    /// Whether a finite number has a fractional part.
    pub open spec fn fractional(self) -> bool {
        scaled(self.mag()) % pow2(UNIT as nat) != 0
    }

    /// The whole number `q` with the given sign as a double.
    pub open spec fn of_whole(negative: bool, q: nat) -> Number {
        Number::rounded(negative, (q * pow2(UNIT as nat)) as int, 1)
    }

    pub open spec fn of_int(q: int) -> Number {
        if q < 0 {
            Number::of_whole(true, (-q) as nat)
        } else {
            Number::of_whole(false, q as nat)
        }
    }

    pub open spec fn floor_spec(self) -> Number {
        if !self.finite() {
            self
        } else if self.negative() && self.fractional() {
            Number::of_whole(true, self.whole() + 1)
        } else {
            Number::of_whole(self.negative(), self.whole())
        }
    }

    pub open spec fn ceil_spec(self) -> Number {
        if !self.finite() {
            self
        } else if !self.negative() && self.fractional() {
            Number::of_whole(false, self.whole() + 1)
        } else {
            Number::of_whole(self.negative(), self.whole())
        }
    }

    pub open spec fn trunc_spec(self) -> Number {
        if !self.finite() {
            self
        } else {
            Number::of_whole(self.negative(), self.whole())
        }
    }

    /// Rounding to the nearest whole number, halves away from zero.
    pub open spec fn round_spec(self) -> Number {
        if !self.finite() {
            self
        } else if 2 * (scaled(self.mag()) % pow2(UNIT as nat)) >= pow2(UNIT as nat) {
            Number::of_whole(self.negative(), self.whole() + 1)
        } else {
            Number::of_whole(self.negative(), self.whole())
        }
    }

    /// The whole part, as a conversion to an integer type keeps it: NaN is
    /// zero and anything outside `lo..=hi` is the nearer bound.
    pub open spec fn saturated(self, lo: int, hi: int) -> int {
        let q = if self.negative() {
            -(self.whole() as int)
        } else {
            self.whole() as int
        };
        if self.nan() {
            0
        } else if self.infinite() {
            if self.negative() {
                lo
            } else {
                hi
            }
        } else if q < lo {
            lo
        } else if q > hi {
            hi
        } else {
            q
        }
    }
}

proof fn lemma_scaled_step(m: int)
    requires
        0 <= m,
    ensures
        scaled(m) < scaled(m + 1),
{
    let h = 0x10_0000_0000_0000int;
    let e = m / h;
    let f = m % h;
    if f + 1 < h {
        assert((m + 1) / h == e && (m + 1) % h == f + 1);
        if e > 0 {
            let p = pow2((e - 1) as nat);
            lemma_pow2_pos((e - 1) as nat);
            assert((h + f) * p < (h + f + 1) * p) by (nonlinear_arith)
                requires
                    p > 0,
            ;
        }
    } else {
        assert((m + 1) / h == e + 1 && (m + 1) % h == 0);
        lemma_pow2_pos(e as nat);
        if e > 0 {
            lemma_pow2_unfold(e as nat);
            let p = pow2((e - 1) as nat);
            lemma_pow2_pos((e - 1) as nat);
            assert((h + f) * p < h * (2 * p)) by (nonlinear_arith)
                requires
                    p > 0,
                    f == h - 1,
            ;
        } else {
            vstd::arithmetic::power2::lemma2_to64();
            assert(h * pow2(0) == h);
        }
    }
}

/// A larger magnitude pattern is a larger magnitude.
pub proof fn lemma_scaled_monotone(a: int, b: int)
    requires
        0 <= a < b,
    ensures
        scaled(a) < scaled(b),
    decreases b - a,
{
    lemma_scaled_step(b - 1);
    if a < b - 1 {
        lemma_scaled_monotone(a, b - 1);
    }
}

/// At most one double is nearest.
pub proof fn lemma_nearest_unique(a: int, b: int, n: int, d: int)
    requires
        nearest(a, n, d),
        nearest(b, n, d),
        d > 0,
    ensures
        a == b,
{
    if a != b {
        let (x, y) = if a < b {
            (a, b)
        } else {
            (b, a)
        };
        assert(distance(a, n, d) == distance(b, n, d));
        assert(x % 2 == 0 && y % 2 == 0);
        let z = x + 1;
        lemma_scaled_monotone(x, z);
        lemma_scaled_monotone(z, y);
        lemma_mul_strict_inequality(scaled(x) as int, scaled(z) as int, d);
        lemma_mul_strict_inequality(scaled(z) as int, scaled(y) as int, d);
        assert(distance(z, n, d) < distance(x, n, d));
    }
}

proof fn lemma_rounded(m: int, n: int, d: int)
    requires
        nearest(m, n, d),
        d > 0,
    ensures
        round_ratio(n, d) == m,
{
    lemma_nearest_unique(m, round_ratio(n, d), n, d);
}

/// A value between two neighbouring doubles is nearest to one of them.
proof fn lemma_nearest_neighbour(m: int, r: int, n: int, d: int)
    requires
        0 <= m <= INFINITE,
        d > 0,
        scaled(m) * d <= n,
        m == INFINITE || n < scaled(m + 1) * d,
        m == INFINITE ==> r == m,
        m < INFINITE ==> {
            let t = (scaled(m) + scaled(m + 1)) * d;
            &&& 2 * n < t ==> r == m
            &&& 2 * n > t ==> r == m + 1
            &&& 2 * n == t ==> r == (if m % 2 == 0 {
                m
            } else {
                m + 1
            })
        },
    ensures
        nearest(r, n, d),
{
    let a = scaled(m) as int;
    let b = scaled(m + 1) as int;
    assert((a + b) * d == a * d + b * d) by (nonlinear_arith);
    assert forall|k: int|
        #![trigger distance(k, n, d)]
        0 <= k <= INFINITE implies distance(r, n, d) < distance(k, n, d) || (distance(r, n, d)
        == distance(k, n, d) && (k == r || r % 2 == 0)) by {
        if k < m {
            lemma_scaled_monotone(k, m);
            lemma_mul_strict_inequality(scaled(k) as int, a, d);
        }
        if k > m + 1 {
            lemma_scaled_monotone(m + 1, k);
            lemma_mul_strict_inequality(b, scaled(k) as int, d);
        }
    }
}

/// The units of a magnitude pattern up to that of infinity.
pub fn scaled_big(m: u64) -> (r: Big)
    requires
        m <= INFINITE,
    ensures
        r@ == scaled(m as int),
{
    let e: u64 = m / HIDDEN;
    let f: u64 = m % HIDDEN;
    if e == 0 {
        Big::from_u64(f)
    } else {
        Big::from_u64(HIDDEN + f).shift((e - 1) as u32)
    }
}

/// The double nearest to `n / d` units.
pub fn nearest_ratio(n: &Big, d: &Big) -> (r: u64)
    requires
        d@ > 0,
    ensures
        r <= INFINITE,
        r == round_ratio(n@ as int, d@ as int),
{
    let mut lo: u64 = 0;
    let mut hi: u64 = INFINITE + 1;
    assert(scaled(0) * d@ == 0) by (nonlinear_arith)
        requires
            scaled(0) == 0,
    ;
    while hi - lo > 1
        invariant
            lo < hi <= INFINITE + 1,
            scaled(lo as int) * d@ <= n@,
            hi <= INFINITE ==> n@ < scaled(hi as int) * d@,
        decreases hi - lo,
    {
        let mid: u64 = lo + (hi - lo) / 2;
        let x = scaled_big(mid).times(d);
        match x.compare(n) {
            Side::Above => {
                hi = mid;
            },
            _ => {
                lo = mid;
            },
        }
    }
    let r: u64 = if lo == INFINITE {
        lo
    } else {
        let t = scaled_big(lo).plus(&scaled_big(lo + 1)).times(d);
        let twice = n.mul_add_small(2, 0);
        match twice.compare(&t) {
            Side::Below => lo,
            Side::Above => lo + 1,
            Side::Same => if lo % 2 == 0 {
                lo
            } else {
                lo + 1
            },
        }
    };
    proof {
        lemma_nearest_neighbour(lo as int, r as int, n@ as int, d@ as int);
        lemma_rounded(r as int, n@ as int, d@ as int);
    }
    r
}

/// What it takes to round to `m`: lying between the midpoints to its neighbours.
pub open spec fn within_midpoints(m: int, n: int, d: int) -> bool {
    &&& m == INFINITE || {
        let t = (scaled(m) + scaled(m + 1)) * d;
        2 * n < t || (2 * n == t && m % 2 == 0)
    }
    &&& m == 0 || {
        let t = (scaled(m - 1) + scaled(m)) * d;
        2 * n > t || (2 * n == t && m % 2 == 0)
    }
}

pub proof fn lemma_ratio_iff(m: int, n: int, d: int)
    requires
        0 <= m <= INFINITE,
        d > 0,
        n >= 0,
    ensures
        nearest(m, n, d) <==> within_midpoints(m, n, d),
{
    let a = scaled(m) as int;
    if m < INFINITE {
        let b = scaled(m + 1) as int;
        lemma_scaled_monotone(m, m + 1);
        lemma_mul_strict_inequality(a, b, d);
        assert((a + b) * d == a * d + b * d) by (nonlinear_arith);
    }
    if m > 0 {
        let z = scaled(m - 1) as int;
        lemma_scaled_monotone(m - 1, m);
        lemma_mul_strict_inequality(z, a, d);
        assert((z + a) * d == z * d + a * d) by (nonlinear_arith);
    }
    if nearest(m, n, d) {
        if m < INFINITE {
            assert(distance(m, n, d) <= distance(m + 1, n, d));
        }
        if m > 0 {
            assert(distance(m, n, d) <= distance(m - 1, n, d));
        }
    }
    if within_midpoints(m, n, d) {
        assert forall|k: int|
            #![trigger distance(k, n, d)]
            0 <= k <= INFINITE implies distance(m, n, d) < distance(k, n, d) || (distance(m, n, d)
            == distance(k, n, d) && (k == m || m % 2 == 0)) by {
            if k > m {
                if k > m + 1 {
                    lemma_scaled_monotone(m + 1, k);
                    lemma_mul_strict_inequality(scaled(m + 1) as int, scaled(k) as int, d);
                }
            }
            if k < m {
                if k < m - 1 {
                    lemma_scaled_monotone(k, m - 1);
                    lemma_mul_strict_inequality(scaled(k) as int, scaled(m - 1) as int, d);
                }
            }
        }
    }
}

/// Every non-negative ratio has a nearest double.
pub proof fn lemma_ratio_exists(n: int, d: int)
    requires
        n >= 0,
        d > 0,
    ensures
        nearest(round_ratio(n, d), n, d),
{
    assert(scaled(0) * d == 0) by (nonlinear_arith)
        requires
            scaled(0) == 0,
    ;
    let m = lemma_floor(n, d, 0);
    let r = if m == INFINITE {
        m
    } else {
        let t = (scaled(m) + scaled(m + 1)) * d;
        if 2 * n < t || (2 * n == t && m % 2 == 0) {
            m
        } else {
            m + 1
        }
    };
    lemma_nearest_neighbour(m, r, n, d);
}

proof fn lemma_floor(n: int, d: int, from: int) -> (m: int)
    requires
        d > 0,
        0 <= from <= INFINITE,
        scaled(from) * d <= n,
    ensures
        0 <= m <= INFINITE,
        scaled(m) * d <= n,
        m == INFINITE || n < scaled(m + 1) * d,
    decreases INFINITE - from,
{
    if from == INFINITE || n < scaled(from + 1) * d {
        from
    } else {
        lemma_floor(n, d, from + 1)
    }
}

/// Whether the double nearest to `n / d` units is `m`.
pub fn rounds_to(m: u64, n: &Big, d: &Big) -> (r: bool)
    requires
        d@ > 0,
        m <= INFINITE,
    ensures
        r == (round_ratio(n@ as int, d@ as int) == m),
{
    proof {
        lemma_ratio_iff(m as int, n@ as int, d@ as int);
        lemma_ratio_exists(n@ as int, d@ as int);
        if nearest(m as int, n@ as int, d@ as int) {
            lemma_rounded(m as int, n@ as int, d@ as int);
        }
    }
    let twice = n.mul_add_small(2, 0);
    let s = scaled_big(m);
    if m < INFINITE {
        let t = s.plus(&scaled_big(m + 1)).times(d);
        match twice.compare(&t) {
            Side::Above => {
                return false;
            },
            Side::Same => {
                if m % 2 != 0 {
                    return false;
                }
            },
            Side::Below => {},
        }
    }
    if m > 0 {
        let t = scaled_big(m - 1).plus(&s).times(d);
        match twice.compare(&t) {
            Side::Below => {
                return false;
            },
            Side::Same => {
                if m % 2 != 0 {
                    return false;
                }
            },
            Side::Above => {},
        }
    }
    true
}

/// `2^1074`.
fn one_big() -> (r: Big)
    ensures
        r@ == pow2(UNIT as nat),
{
    let r = Big::from_u64(1).shift(UNIT);
    assert(1 * pow2(UNIT as nat) == pow2(UNIT as nat));
    r
}

impl Number {
    pub fn is_negative(&self) -> (r: bool)
        ensures
            r == self.negative(),
    {
        self.bits >= SIGN
    }

    pub fn magnitude(&self) -> (r: u64)
        ensures
            r == self.mag(),
            r < SIGN,
    {
        if self.bits >= SIGN {
            self.bits - SIGN
        } else {
            self.bits
        }
    }

    pub fn is_nan(&self) -> (r: bool)
        ensures
            r == self.nan(),
    {
        self.magnitude() > INFINITE
    }

    pub fn is_infinite(&self) -> (r: bool)
        ensures
            r == self.infinite(),
    {
        self.magnitude() == INFINITE
    }

    pub fn is_finite(&self) -> (r: bool)
        ensures
            r == self.finite(),
    {
        self.magnitude() < INFINITE
    }

    pub fn is_zero(&self) -> (r: bool)
        ensures
            r == self.zero(),
    {
        self.magnitude() == 0
    }

    /// The number with the given sign and magnitude.
    pub fn build(negative: bool, mag: u64) -> (r: Number)
        requires
            mag < SIGN,
        ensures
            r == Number::make(negative, mag as int),
            r.negative() == negative,
            r.mag() == mag,
    {
        if negative {
            Number { bits: mag + SIGN }
        } else {
            Number { bits: mag }
        }
    }

    pub fn not_a_number() -> (r: Number)
        ensures
            r == Number::nan_value(),
            r.nan(),
    {
        Number { bits: NAN }
    }

    pub fn infinity(negative: bool) -> (r: Number)
        ensures
            r == Number::make(negative, INFINITE as int),
            r.infinite(),
            r.negative() == negative,
    {
        Number::build(negative, INFINITE)
    }

    pub fn lt(&self, other: &Number) -> (r: bool)
        ensures
            r == self.lt_spec(*other),
    {
        if self.is_nan() || other.is_nan() {
            return false;
        }
        let a: u64 = self.magnitude();
        let b: u64 = other.magnitude();
        match (self.is_negative(), other.is_negative()) {
            (true, true) => a > b,
            (true, false) => a > 0 || b > 0,
            (false, true) => false,
            (false, false) => a < b,
        }
    }

    pub fn equals(&self, other: &Number) -> (r: bool)
        ensures
            r == self.eq_value(*other),
    {
        if self.is_nan() || other.is_nan() {
            return false;
        }
        let a: u64 = self.magnitude();
        let b: u64 = other.magnitude();
        if self.is_negative() == other.is_negative() {
            a == b
        } else {
            a == 0 && b == 0
        }
    }

    pub fn neg(&self) -> (r: Number)
        ensures
            r == self.neg_spec(),
    {
        Number::build(!self.is_negative(), self.magnitude())
    }

    pub fn abs(&self) -> (r: Number)
        ensures
            r == self.abs_spec(),
    {
        Number::build(false, self.magnitude())
    }

    /// The nearest double to `n / d` units, with the given sign.
    fn of_ratio(negative: bool, n: &Big, d: &Big) -> (r: Number)
        requires
            d@ > 0,
        ensures
            r == Number::rounded(negative, n@ as int, d@ as int),
    {
        Number::build(negative, nearest_ratio(n, d))
    }

    pub fn plus(&self, other: &Number) -> (r: Number)
        ensures
            r == self.plus_spec(*other),
    {
        if self.is_nan() || other.is_nan() {
            return Number::not_a_number();
        }
        if self.is_infinite() {
            if other.is_infinite() && self.is_negative() != other.is_negative() {
                return Number::not_a_number();
            }
            return *self;
        }
        if other.is_infinite() {
            return *other;
        }
        let a = scaled_big(self.magnitude());
        let b = scaled_big(other.magnitude());
        let one = Big::from_u64(1);
        let sa: bool = self.is_negative();
        let sb: bool = other.is_negative();
        if sa == sb {
            let sum = a.plus(&b);
            if sum.is_zero() {
                return Number::build(sa, 0);
            }
            return Number::of_ratio(sa, &sum, &one);
        }
        match a.compare(&b) {
            Side::Same => Number::build(false, 0),
            Side::Above => Number::of_ratio(sa, &a.minus(&b), &one),
            Side::Below => Number::of_ratio(sb, &b.minus(&a), &one),
        }
    }

    pub fn minus(&self, other: &Number) -> (r: Number)
        ensures
            r == self.plus_spec(other.neg_spec()),
    {
        self.plus(&other.neg())
    }

    pub fn times(&self, other: &Number) -> (r: Number)
        ensures
            r == self.times_spec(*other),
    {
        let negative: bool = self.is_negative() != other.is_negative();
        if self.is_nan() || other.is_nan() {
            return Number::not_a_number();
        }
        if self.is_infinite() || other.is_infinite() {
            if self.is_zero() || other.is_zero() {
                return Number::not_a_number();
            }
            return Number::infinity(negative);
        }
        let n = scaled_big(self.magnitude()).times(&scaled_big(other.magnitude()));
        let d = one_big();
        proof {
            lemma_pow2_pos(UNIT as nat);
        }
        Number::of_ratio(negative, &n, &d)
    }

    pub fn over(&self, other: &Number) -> (r: Number)
        ensures
            r == self.over_spec(*other),
    {
        let negative: bool = self.is_negative() != other.is_negative();
        if self.is_nan() || other.is_nan() {
            return Number::not_a_number();
        }
        if self.is_infinite() {
            if other.is_infinite() {
                return Number::not_a_number();
            }
            return Number::infinity(negative);
        }
        if other.is_infinite() {
            return Number::build(negative, 0);
        }
        if other.is_zero() {
            if self.is_zero() {
                return Number::not_a_number();
            }
            return Number::infinity(negative);
        }
        let n = scaled_big(self.magnitude()).shift(UNIT);
        let d = scaled_big(other.magnitude());
        proof {
            lemma_scaled_monotone(0, other.mag());
        }
        Number::of_ratio(negative, &n, &d)
    }

    /// The remainder of truncating division.
    pub fn rem(&self, other: &Number) -> (r: Number)
        ensures
            r == self.rem_spec(*other),
    {
        if self.is_nan() || other.is_nan() || self.is_infinite() || other.is_zero() {
            return Number::not_a_number();
        }
        if other.is_infinite() {
            return *self;
        }
        let a = scaled_big(self.magnitude());
        let b = scaled_big(other.magnitude());
        proof {
            lemma_scaled_monotone(0, other.mag());
        }
        let r = a.modulo(&b);
        let one = Big::from_u64(1);
        Number::of_ratio(self.is_negative(), &r, &one)
    }

    pub fn sqrt(&self) -> (r: Number)
        ensures
            r == self.sqrt_spec(),
    {
        if self.is_nan() || (self.is_negative() && !self.is_zero()) {
            return Number::not_a_number();
        }
        if self.is_infinite() || self.is_zero() {
            return *self;
        }
        let n = scaled_big(self.magnitude()).shift(UNIT);
        proof {
            lemma_root_below_infinity(self.mag());
        }
        Number::build(false, root_of(&n))
    }

    /// Whole part and remainder of the magnitude, in units.
    fn split(&self) -> (r: (Big, Big))
        requires
            self.finite(),
        ensures
            r.0@ == self.whole(),
            r.1@ == scaled(self.mag()) % pow2(UNIT as nat),
    {
        let s = scaled_big(self.magnitude());
        let one = one_big();
        proof {
            lemma_pow2_pos(UNIT as nat);
        }
        s.div_mod(&one)
    }

    /// The whole number `q` as a double.
    fn of_whole_big(negative: bool, q: &Big) -> (r: Number)
        ensures
            r == Number::of_whole(negative, q@),
    {
        let n = q.shift(UNIT);
        let one = Big::from_u64(1);
        Number::of_ratio(negative, &n, &one)
    }

    pub fn floor(&self) -> (r: Number)
        ensures
            r == self.floor_spec(),
    {
        if !self.is_finite() {
            return *self;
        }
        let (q, f) = self.split();
        if self.is_negative() && !f.is_zero() {
            let up = q.plus(&Big::from_u64(1));
            return Number::of_whole_big(true, &up);
        }
        Number::of_whole_big(self.is_negative(), &q)
    }

    pub fn ceil(&self) -> (r: Number)
        ensures
            r == self.ceil_spec(),
    {
        if !self.is_finite() {
            return *self;
        }
        let (q, f) = self.split();
        if !self.is_negative() && !f.is_zero() {
            let up = q.plus(&Big::from_u64(1));
            return Number::of_whole_big(false, &up);
        }
        Number::of_whole_big(self.is_negative(), &q)
    }

    pub fn trunc(&self) -> (r: Number)
        ensures
            r == self.trunc_spec(),
    {
        if !self.is_finite() {
            return *self;
        }
        let (q, _f) = self.split();
        Number::of_whole_big(self.is_negative(), &q)
    }

    pub fn round(&self) -> (r: Number)
        ensures
            r == self.round_spec(),
    {
        if !self.is_finite() {
            return *self;
        }
        let (q, f) = self.split();
        let twice = f.mul_add_small(2, 0);
        match twice.compare(&one_big()) {
            Side::Below => Number::of_whole_big(self.is_negative(), &q),
            _ => {
                let up = q.plus(&Big::from_u64(1));
                Number::of_whole_big(self.is_negative(), &up)
            },
        }
    }

    /// The whole part, held within `-(below)..=above`.
    fn clamp_whole(&self, below: u64, above: u64) -> (r: (bool, u64))
        ensures
            (if r.0 {
                -(r.1 as int)
            } else {
                r.1 as int
            }) == self.saturated(-(below as int), above as int),
            r.0 ==> r.1 <= below,
            !r.0 ==> r.1 <= above,
    {
        if self.is_nan() {
            return (false, 0);
        }
        let negative: bool = self.is_negative();
        let bound: u64 = if negative {
            below
        } else {
            above
        };
        if self.is_infinite() {
            return (negative, bound);
        }
        let (q, _f) = self.split();
        match q.compare(&Big::from_u64(bound)) {
            Side::Above => (negative, bound),
            _ => (negative, q.to_u64()),
        }
    }

    pub fn to_i64(&self) -> (r: i64)
        ensures
            r == self.saturated(i64::MIN as int, i64::MAX as int),
    {
        let (negative, v) = self.clamp_whole(0x8000_0000_0000_0000, 0x7fff_ffff_ffff_ffff);
        if negative {
            if v == 0x8000_0000_0000_0000 {
                i64::MIN
            } else {
                -(v as i64)
            }
        } else {
            v as i64
        }
    }

    pub fn to_i32(&self) -> (r: i32)
        ensures
            r == self.saturated(i32::MIN as int, i32::MAX as int),
    {
        let (negative, v) = self.clamp_whole(0x8000_0000, 0x7fff_ffff);
        if negative {
            (-(v as i64)) as i32
        } else {
            v as i32
        }
    }

    pub fn to_u32(&self) -> (r: u32)
        ensures
            r == self.saturated(0, u32::MAX as int),
    {
        let (_negative, v) = self.clamp_whole(0, 0xffff_ffff);
        v as u32
    }

    pub fn to_usize(&self) -> (r: usize)
        ensures
            r == self.saturated(0, usize::MAX as int),
    {
        let (_negative, v) = self.clamp_whole(0, usize::MAX as u64);
        v as usize
    }

    pub fn from_i64(x: i64) -> (r: Number)
        ensures
            r == Number::of_int(x as int),
    {
        if x < 0 {
            let m: u64 = if x == i64::MIN {
                0x8000_0000_0000_0000
            } else {
                (-x) as u64
            };
            Number::of_whole_big(true, &Big::from_u64(m))
        } else {
            Number::of_whole_big(false, &Big::from_u64(x as u64))
        }
    }

    pub fn from_u64(x: u64) -> (r: Number)
        ensures
            r == Number::of_int(x as int),
    {
        Number::of_whole_big(false, &Big::from_u64(x))
    }

    pub fn from_usize(x: usize) -> (r: Number)
        ensures
            r == Number::of_int(x as int),
    {
        Number::from_u64(x as u64)
    }
}

proof fn lemma_root_below_infinity(m: int)
    requires
        0 < m < INFINITE,
    ensures
        scaled(m) * pow2(UNIT as nat) < scaled(INFINITE as int - 1) * scaled(INFINITE as int - 1),
{
    let h = 0x10_0000_0000_0000int;
    let top = INFINITE as int - 1;
    assert(top / h == 2046 && top % h == h - 1);
    let x = scaled(top) as int;
    if m < top {
        lemma_scaled_monotone(m, top);
    }
    vstd::arithmetic::power2::lemma_pow2_strictly_increases(UNIT as nat, 2045);
    let p = pow2(2045) as int;
    let u = pow2(UNIT as nat) as int;
    lemma_pow2_pos(UNIT as nat);
    assert((2 * h - 1) * p >= p) by (nonlinear_arith)
        requires
            p >= 0,
            h >= 1,
    ;
    assert(x > u);
    let s = scaled(m) as int;
    lemma_scaled_monotone(0, m);
    assert(s * u < x * x) by (nonlinear_arith)
        requires
            0 < s <= x,
            0 < u < x,
    ;
}

/// The double nearest to the square root of `n` (in units).
fn root_of(n: &Big) -> (r: u64)
    requires
        n@ < scaled(INFINITE as int - 1) * scaled(INFINITE as int - 1),
    ensures
        r < INFINITE,
        r == round_root(n@ as int),
{
    let mut lo: u64 = 0;
    let mut hi: u64 = INFINITE - 1;
    assert(scaled(0) * scaled(0) == 0) by (nonlinear_arith)
        requires
            scaled(0) == 0,
    ;
    while hi - lo > 1
        invariant
            lo < hi <= INFINITE - 1,
            scaled(lo as int) * scaled(lo as int) <= n@,
            n@ < scaled(hi as int) * scaled(hi as int),
        decreases hi - lo,
    {
        let mid: u64 = lo + (hi - lo) / 2;
        let s = scaled_big(mid);
        let x = s.times(&s);
        match x.compare(n) {
            Side::Above => {
                hi = mid;
            },
            _ => {
                lo = mid;
            },
        }
    }
    let t = scaled_big(lo).plus(&scaled_big(lo + 1));
    let sq = t.times(&t);
    let four = n.mul_add_small(4, 0);
    let r: u64 = match four.compare(&sq) {
        Side::Below => lo,
        Side::Above => lo + 1,
        Side::Same => if lo % 2 == 0 {
            lo
        } else {
            lo + 1
        },
    };
    proof {
        lemma_root_neighbour(lo as int, r as int, n@ as int);
        lemma_root_unique(r as int, round_root(n@ as int), n@ as int);
    }
    r
}

proof fn lemma_square_less(a: int, b: int)
    requires
        0 <= a < b,
    ensures
        a * a < b * b,
{
    assert(a * a < b * b) by (nonlinear_arith)
        requires
            0 <= a < b,
    ;
}

proof fn lemma_root_neighbour(m: int, r: int, n: int)
    requires
        0 <= m < INFINITE - 1,
        scaled(m) * scaled(m) <= n,
        n < scaled(m + 1) * scaled(m + 1),
        ({
            let t = scaled(m) + scaled(m + 1);
            &&& 4 * n < t * t ==> r == m
            &&& 4 * n > t * t ==> r == m + 1
            &&& 4 * n == t * t ==> r == (if m % 2 == 0 {
                m
            } else {
                m + 1
            })
        }),
    ensures
        nearest_root(r, n),
{
    let a = scaled(m) as int;
    let b = scaled(m + 1) as int;
    lemma_scaled_monotone(m, m + 1);
    if m > 0 {
        lemma_scaled_monotone(m - 1, m);
        let z = scaled(m - 1) as int;
        lemma_square_less(z + a, 2 * a);
        assert((2 * a) * (2 * a) == 4 * (a * a)) by (nonlinear_arith);
    }
    lemma_scaled_monotone(m + 1, m + 2);
    let c = scaled(m + 2) as int;
    lemma_square_less(2 * b, b + c);
    assert((2 * b) * (2 * b) == 4 * (b * b)) by (nonlinear_arith);
}

proof fn lemma_root_unique(a: int, b: int, n: int)
    requires
        nearest_root(a, n),
        nearest_root(b, n),
    ensures
        a == b,
{
    if a != b {
        let (x, y) = if a < b {
            (a, b)
        } else {
            (b, a)
        };
        let high = (scaled(x) + scaled(x + 1)) as int;
        let low = (scaled(y - 1) + scaled(y)) as int;
        if x + 1 < y {
            lemma_scaled_monotone(x, y - 1);
            lemma_scaled_monotone(x + 1, y);
            lemma_square_less(high, low);
        }
    }
}

// ── Whole numbers ────────────────────────────────────────────────────────────

/// From this number on not every whole number is a double.
pub const WHOLE_LIMIT: u64 = 0x20_0000_0000_0000;

/// An exact value rounds to itself.
proof fn lemma_exact(m: int, n: int, d: int)
    requires
        0 <= m <= INFINITE,
        d > 0,
        scaled(m) * d == n,
    ensures
        round_ratio(n, d) == m,
{
    assert forall|k: int|
        #![trigger distance(k, n, d)]
        0 <= k <= INFINITE implies distance(m, n, d) < distance(k, n, d) || (distance(m, n, d) == distance(k, n, d) && (k
        == m || m % 2 == 0)) by {
        if k < m {
            lemma_scaled_monotone(k, m);
            lemma_mul_strict_inequality(scaled(k) as int, scaled(m) as int, d);
        }
        if k > m {
            lemma_scaled_monotone(m, k);
            lemma_mul_strict_inequality(scaled(m) as int, scaled(k) as int, d);
        }
    }
    assert(nearest(m, n, d));
    lemma_rounded(m, n, d);
}

/// The pattern one exponent lower stands for half the value.
proof fn lemma_half(m: int)
    requires
        m >= 2 * 0x10_0000_0000_0000,
    ensures
        scaled(m) == 2 * scaled(m - 0x10_0000_0000_0000),
{
    let h = 0x10_0000_0000_0000int;
    let e = m / h;
    let f = m % h;
    assert((m - h) / h == e - 1 && (m - h) % h == f);
    lemma_pow2_unfold((e - 1) as nat);
    let p = pow2((e - 2) as nat);
    assert((h + f) * (2 * p) == 2 * ((h + f) * p)) by (nonlinear_arith);
}

/// The pattern of a whole number.
proof fn lemma_whole_pattern(a: int) -> (m: int)
    requires
        1 <= a <= WHOLE_LIMIT,
    ensures
        1023 * 0x10_0000_0000_0000 <= m < INFINITE,
        scaled(m) == a * pow2(UNIT as nat),
    decreases WHOLE_LIMIT - a,
{
    let h = 0x10_0000_0000_0000int;
    if a == WHOLE_LIMIT {
        let m = 1076 * h;
        assert(m / h == 1076 && m % h == 0);
        lemma_pow2_unfold(1075);
        let p = pow2(UNIT as nat);
        assert(h * (2 * p) == a * p) by (nonlinear_arith)
            requires
                a == 2 * h,
        ;
        m
    } else if a >= h {
        let m = 1075 * h + (a - h);
        assert(m / h == 1075 && m % h == a - h);
        m
    } else {
        let d = lemma_whole_pattern(2 * a);
        if d < 1024 * h {
            let one = 1024 * h;
            assert(one / h == 1024 && one % h == 0);
            vstd::arithmetic::power2::lemma_pow2_adds(52, 1023);
            vstd::arithmetic::power2::lemma_pow2_adds(1, 1074);
            vstd::arithmetic::power2::lemma2_to64();
            vstd::arithmetic::power2::lemma2_to64_rest();
            assert(pow2(52) == h);
            assert(scaled(one) == h * pow2(1023));
            assert(scaled(one) == 2 * pow2(1074));
            lemma_scaled_monotone(d, one);
            lemma_pow2_pos(1074);
            assert(2 * a * pow2(1074) >= 2 * pow2(1074)) by (nonlinear_arith)
                requires
                    a >= 1,
            ;
            assert(false);
        }
        lemma_half(d);
        let m = d - h;
        assert(2 * scaled(m) == 2 * a * pow2(UNIT as nat));
        assert(2 * a * pow2(UNIT as nat) == 2 * (a * pow2(UNIT as nat))) by (nonlinear_arith);
        m
    }
}

/// A whole number up to the limit is a double as it is.
pub proof fn law_whole_numbers_are_exact(a: int)
    requires
        0 <= a <= WHOLE_LIMIT,
    ensures
        ({
            let x = Number::of_int(a);
            &&& x.finite() && !x.negative()
            &&& scaled(x.mag()) == a * pow2(UNIT as nat)
            &&& x.zero() <==> a == 0
        }),
{
    lemma_pow2_pos(UNIT as nat);
    let u = a * pow2(UNIT as nat);
    if a == 0 {
        assert(scaled(0) == 0);
        lemma_exact(0, 0, 1);
        assert(u == 0) by (nonlinear_arith)
            requires
                a == 0,
                u == a * pow2(UNIT as nat),
        ;
    } else {
        let m = lemma_whole_pattern(a);
        assert(scaled(m) * 1 == u);
        lemma_exact(m, u, 1);
    }
}

/// The sum of whole numbers below the limit is that of the integers.
pub proof fn law_whole_sum(a: int, b: int)
    requires
        0 <= a < WHOLE_LIMIT,
        0 <= b < WHOLE_LIMIT,
    ensures
        Number::of_int(a).plus_spec(Number::of_int(b)) == Number::of_int(a + b),
{
    law_whole_numbers_are_exact(a);
    law_whole_numbers_are_exact(b);
    let p = pow2(UNIT as nat) as int;
    lemma_pow2_pos(UNIT as nat);
    assert(a * p + b * p == (a + b) * p) by (nonlinear_arith);
    if a + b == 0 {
        law_whole_numbers_are_exact(0);
        assert(Number::of_int(0) == Number::make(false, 0));
        assert(0 * p == 0);
    } else {
        assert((a + b) * p > 0) by (nonlinear_arith)
            requires
                a + b > 0,
                p > 0,
        ;
    }
}

/// The product of whole numbers is that of the integers, where it is below the
/// limit.
pub proof fn law_whole_product(a: int, b: int)
    requires
        0 <= a < WHOLE_LIMIT,
        0 <= b < WHOLE_LIMIT,
        a * b < WHOLE_LIMIT,
    ensures
        Number::of_int(a).times_spec(Number::of_int(b)) == Number::of_int(a * b),
{
    assert(a * b >= 0) by (nonlinear_arith)
        requires
            a >= 0,
            b >= 0,
    ;
    law_whole_numbers_are_exact(a);
    law_whole_numbers_are_exact(b);
    law_whole_numbers_are_exact(a * b);
    let p = pow2(UNIT as nat) as int;
    lemma_pow2_pos(UNIT as nat);
    let m = Number::of_int(a * b).mag();
    assert((a * p) * (b * p) == (a * b * p) * p) by (nonlinear_arith);
    lemma_exact(m, (a * p) * (b * p), p);
    lemma_exact(m, a * b * p, 1);
}

/// Whole numbers are ordered as the integers are.
pub proof fn law_whole_numbers_are_ordered(a: int, b: int)
    requires
        0 <= a <= WHOLE_LIMIT,
        0 <= b <= WHOLE_LIMIT,
    ensures
        Number::of_int(a).lt_spec(Number::of_int(b)) == (a < b),
        Number::of_int(a).eq_value(Number::of_int(b)) == (a == b),
{
    law_whole_numbers_are_exact(a);
    law_whole_numbers_are_exact(b);
    let x = Number::of_int(a).mag();
    let y = Number::of_int(b).mag();
    let p = pow2(UNIT as nat) as int;
    lemma_pow2_pos(UNIT as nat);
    if x < y {
        lemma_scaled_monotone(x, y);
        assert(a < b) by (nonlinear_arith)
            requires
                a * p < b * p,
                p > 0,
        ;
    } else if y < x {
        lemma_scaled_monotone(y, x);
        assert(b < a) by (nonlinear_arith)
            requires
                b * p < a * p,
                p > 0,
        ;
    } else {
        assert(a == b) by (nonlinear_arith)
            requires
                a * p == b * p,
                p > 0,
        ;
    }
}

/// The difference of whole numbers is that of the integers, where it is not
/// below zero.
pub proof fn law_whole_difference(a: int, b: int)
    requires
        0 <= b <= a < WHOLE_LIMIT,
    ensures
        Number::of_int(a).plus_spec(Number::of_int(b).neg_spec()) == Number::of_int(a - b),
{
    law_whole_numbers_are_exact(a);
    law_whole_numbers_are_exact(b);
    law_whole_numbers_are_exact(a - b);
    let p = pow2(UNIT as nat) as int;
    lemma_pow2_pos(UNIT as nat);
    assert(a * p - b * p == (a - b) * p) by (nonlinear_arith);
    let y = Number::of_int(b).neg_spec();
    assert(y.negative() && y.mag() == Number::of_int(b).mag());
    assert(y.units() == -(b * p));
    if a == b {
        assert(Number::of_int(0) == Number::make(false, 0));
        assert((a - b) * p == 0) by (nonlinear_arith)
            requires
                a == b,
        ;
    } else {
        assert((a - b) * p > 0) by (nonlinear_arith)
            requires
                a > b,
                p > 0,
        ;
    }
}

/// The remainder of whole numbers is that of the integers.
pub proof fn law_whole_remainder(a: int, b: int)
    requires
        0 <= a < WHOLE_LIMIT,
        0 < b < WHOLE_LIMIT,
    ensures
        Number::of_int(a).rem_spec(Number::of_int(b)) == Number::of_int(a % b),
{
    law_whole_numbers_are_exact(a);
    law_whole_numbers_are_exact(b);
    let p = pow2(UNIT as nat) as int;
    lemma_pow2_pos(UNIT as nat);
    vstd::arithmetic::div_mod::lemma_truncate_middle(a, p, b);
    assert(p * a == a * p && p * b == b * p && p * (a % b) == (a % b) * p) by (nonlinear_arith);
    assert(scaled(Number::of_int(a).mag()) == a * p);
    assert(scaled(Number::of_int(b).mag()) == b * p);
}

/// A quotient that comes out even is that of the integers.
pub proof fn law_whole_quotient(a: int, b: int)
    requires
        0 <= a,
        0 < b < WHOLE_LIMIT,
        a * b < WHOLE_LIMIT,
    ensures
        Number::of_int(a * b).over_spec(Number::of_int(b)) == Number::of_int(a),
{
    assert(0 <= a <= a * b) by (nonlinear_arith)
        requires
            a >= 0,
            b >= 1,
    ;
    law_whole_numbers_are_exact(a);
    law_whole_numbers_are_exact(b);
    law_whole_numbers_are_exact(a * b);
    let p = pow2(UNIT as nat) as int;
    lemma_pow2_pos(UNIT as nat);
    let m = Number::of_int(a).mag();
    assert((a * p) * (b * p) == (a * b * p) * p) by (nonlinear_arith);
    assert(b * p > 0) by (nonlinear_arith)
        requires
            b > 0,
            p > 0,
    ;
    lemma_exact(m, (a * b * p) * p, b * p);
    lemma_exact(m, a * p, 1);
}

/// A whole number up to the limit, of either sign, comes back as it was.
pub proof fn law_whole_numbers_come_back(a: int, lo: int, hi: int)
    requires
        -WHOLE_LIMIT <= a <= WHOLE_LIMIT,
        lo <= a <= hi,
    ensures
        Number::of_int(a).finite(),
        Number::of_int(a).saturated(lo, hi) == a,
{
    let q = if a < 0 {
        -a
    } else {
        a
    };
    law_whole_numbers_are_exact(q);
    let m = Number::of_int(q).mag();
    let x = Number::of_int(a);
    let p = pow2(UNIT as nat) as int;
    lemma_pow2_pos(UNIT as nat);
    lemma_exact(m, q * p, 1);
    assert(x.mag() == m);
    assert(scaled(m) as int == q * p);
    assert((q * p) / p == q) by {
        vstd::arithmetic::div_mod::lemma_div_multiples_vanish(q, p);
        assert(q * p == p * q) by (nonlinear_arith);
    }
}

} // verus!
