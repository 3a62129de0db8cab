//! Decimal notation: the double nearest to a decimal number, the shortest
//! decimal that reads back as a given double, and rounding to a number of
//! decimal places.
use vstd::arithmetic::mul::{lemma_mul_inequality, lemma_mul_strict_inequality};
use vstd::arithmetic::power2::{lemma_pow2_adds, lemma_pow2_pos, lemma_pow2_strictly_increases, lemma_pow2_unfold, pow2};
use vstd::prelude::*;

use crate::bignum::{Big, Side};
use crate::number::{
    distance, lemma_nearest_unique, lemma_ratio_exists, lemma_scaled_monotone, nearest, nearest_ratio, round_ratio,
    rounds_to, scaled, scaled_big, Number, INFINITE, UNIT,
};
use crate::text::{
    all_digits, char_of_digit, digit_char, digit_run, digit_value, digits_end, is_digit, lemma_nat_text, nat_text,
    number_of, part, push_all, push_repeated, push_text, repeated,
};

verus! {

/// `10^k`.
pub open spec fn ten(k: nat) -> nat
    decreases k,
{
    if k == 0 {
        1
    } else {
        10 * ten((k - 1) as nat)
    }
}

/// `n * 10^q` in units: the numerator...
pub open spec fn dec_num(n: nat, q: int) -> int {
    (n * (if q > 0 {
        ten(q as nat)
    } else {
        1
    }) * pow2(UNIT as nat)) as int
}

/// ... and the denominator.
pub open spec fn dec_den(q: int) -> int {
    if q < 0 {
        ten((-q) as nat) as int
    } else {
        1
    }
}

/// Magnitude pattern of the double nearest to `n * 10^q`.
pub open spec fn dec_mag(n: nat, q: int) -> int {
    round_ratio(dec_num(n, q), dec_den(q))
}

/// How far `n * 10^q` lies from the double `m`.
pub open spec fn dec_gap(m: int, n: nat, q: int) -> int {
    distance(m, dec_num(n, q), dec_den(q))
}

/// Whether `n` is at least as good a whole number of `10^q` for the double `m`
/// as `n2`: closer, or as close and smaller.
pub open spec fn as_good(m: int, n: nat, n2: nat, q: int) -> bool {
    dec_gap(m, n, q) < dec_gap(m, n2, q) || (dec_gap(m, n, q) == dec_gap(m, n2, q) && n <= n2)
}

/// Whether `n * 10^q` is the shortest decimal that reads back as the double
/// `m`: no coarser scale has one that does, and none at this scale is closer.
pub open spec fn is_shortest(m: int, n: nat, q: int) -> bool {
    &&& dec_mag(n, q) == m
    &&& forall|n2: nat, q2: int| q2 > q ==> #[trigger] dec_mag(n2, q2) != m
    &&& forall|n2: nat| #[trigger] dec_mag(n2, q) == m ==> as_good(m, n, n2, q)
}

/// The shortest decimal that reads back as the double `m`.
pub open spec fn shortest_of(m: int) -> (nat, int) {
    choose|p: (nat, int)| is_shortest(m, p.0, p.1)
}

proof fn lemma_shortest_unique(m: int, n: nat, q: int)
    requires
        is_shortest(m, n, q),
    ensures
        shortest_of(m) == (n, q),
{
    let p = (n, q);
    assert(is_shortest(m, p.0, p.1));
    let (n2, q2) = shortest_of(m);
    assert(dec_mag(n, q) == m && dec_mag(n2, q2) == m);
    assert(q2 == q);
    assert(as_good(m, n, n2, q) && as_good(m, n2, n, q));
}

/// `n / d` rounded to a whole number, halves to even.
pub open spec fn half_even(n: nat, d: nat) -> nat {
    let q = n / d;
    let r = n % d;
    if 2 * r < d || (2 * r == d && q % 2 == 0) {
        q
    } else {
        q + 1
    }
}

/// A finite magnitude at `places` decimal places, as a whole number of
/// `10^-places`.
pub open spec fn fixed_value(m: int, places: nat) -> nat {
    half_even(scaled(m) * ten(places), pow2(UNIT as nat))
}

pub proof fn lemma_ten_positive(k: nat)
    ensures
        ten(k) > 0,
    decreases k,
{
    if k > 0 {
        lemma_ten_positive((k - 1) as nat);
    }
}

pub proof fn lemma_ten_adds(a: nat, b: nat)
    ensures
        ten(a + b) == ten(a) * ten(b),
    decreases a,
{
    if a == 0 {
        assert(1 * ten(b) == ten(b));
    } else {
        lemma_ten_adds((a - 1) as nat, b);
        let x = ten((a - 1) as nat);
        let y = ten(b);
        assert(10 * (x * y) == (10 * x) * y) by (nonlinear_arith);
        assert((a + b - 1) as nat == (a - 1) as nat + b);
    }
}

/// Powers of ten grow at least as fast as those of eight.
proof fn lemma_ten_large(k: nat)
    ensures
        ten(k) >= pow2(3 * k),
    decreases k,
{
    vstd::arithmetic::power2::lemma2_to64();
    if k > 0 {
        lemma_ten_large((k - 1) as nat);
        lemma_pow2_adds(3, (3 * (k - 1)) as nat);
        assert(3 + 3 * (k - 1) == 3 * k);
    }
}

pub proof fn lemma_den_positive(q: int)
    ensures
        dec_den(q) > 0,
{
    if q < 0 {
        lemma_ten_positive((-q) as nat);
    }
}

/// Reducing a ratio does not change what it rounds to.
proof fn lemma_ratio_cancel(n: int, d: int, c: int)
    requires
        d > 0,
        c > 0,
        n >= 0,
    ensures
        round_ratio(n * c, d * c) == round_ratio(n, d),
{
    lemma_ratio_exists(n, d);
    let m = round_ratio(n, d);
    assert(d * c > 0) by (nonlinear_arith)
        requires
            d > 0,
            c > 0,
    ;
    assert forall|k: int| #![trigger distance(k, n * c, d * c)] distance(k, n * c, d * c) == distance(k, n, d) * c by {
        let s = scaled(k) as int;
        assert(s * (d * c) - n * c == (s * d - n) * c) by (nonlinear_arith);
        let x = s * d - n;
        if x < 0 {
            assert(x * c <= 0 && -(x * c) == (-x) * c) by (nonlinear_arith)
                requires
                    x < 0,
                    c > 0,
            ;
            assert(x * c < 0) by (nonlinear_arith)
                requires
                    x < 0,
                    c > 0,
            ;
        } else {
            assert(x * c >= 0) by (nonlinear_arith)
                requires
                    x >= 0,
                    c > 0,
            ;
        }
    }
    assert(nearest(m, n * c, d * c)) by {
        assert forall|k: int|
            #![trigger distance(k, n * c, d * c)]
            0 <= k <= INFINITE implies distance(m, n * c, d * c) < distance(k, n * c, d * c) || (distance(
            m,
            n * c,
            d * c,
        ) == distance(k, n * c, d * c) && (k == m || m % 2 == 0)) by {
            let a = distance(m, n, d);
            let b = distance(k, n, d);
            assert(distance(m, n * c, d * c) == a * c);
            if a < b {
                lemma_mul_strict_inequality(a, b, c);
            }
        }
    }
    lemma_nearest_unique(m, round_ratio(n * c, d * c), n * c, d * c);
}

/// A larger value rounds to a double that is not smaller.
pub proof fn lemma_ratio_monotone(n1: int, n2: int, d: int)
    requires
        d > 0,
        0 <= n1 <= n2,
    ensures
        round_ratio(n1, d) <= round_ratio(n2, d),
{
    lemma_ratio_exists(n1, d);
    lemma_ratio_exists(n2, d);
    let a = round_ratio(n1, d);
    let b = round_ratio(n2, d);
    if b < a {
        lemma_scaled_monotone(b, a);
        lemma_mul_strict_inequality(scaled(b) as int, scaled(a) as int, d);
        assert(distance(a, n1, d) <= distance(b, n1, d));
        assert(distance(b, n2, d) <= distance(a, n2, d));
        assert(n1 == n2);
        lemma_nearest_unique(a, b, n1, d);
    }
}

pub proof fn lemma_dec_monotone(a: nat, b: nat, q: int)
    requires
        a <= b,
    ensures
        dec_mag(a, q) <= dec_mag(b, q),
        dec_num(a, q) <= dec_num(b, q),
{
    lemma_den_positive(q);
    let t = if q > 0 {
        ten(q as nat)
    } else {
        1
    };
    let u = pow2(UNIT as nat);
    assert(a * t * u <= b * t * u) by (nonlinear_arith)
        requires
            a <= b,
            t >= 0,
            u >= 0,
    ;
    lemma_ratio_monotone(dec_num(a, q), dec_num(b, q), dec_den(q));
}

/// Ten times the digits at the next finer scale is the same number.
proof fn lemma_dec_shift(n: nat, q: int)
    ensures
        dec_mag(n, q + 1) == dec_mag(10 * n, q),
{
    let u = pow2(UNIT as nat);
    if q >= 0 {
        if q == 0 {
            assert(ten(1) == 10) by {
                reveal_with_fuel(ten, 2);
            }
        }
        let t = if q > 0 {
            ten(q as nat)
        } else {
            1
        };
        assert(ten((q + 1) as nat) == 10 * t);
        assert(n * (10 * t) * u == (10 * n) * t * u) by (nonlinear_arith);
    } else {
        let k = (-q) as nat;
        assert(dec_den(q + 1) == ten((k - 1) as nat));
        lemma_ten_positive((k - 1) as nat);
        let d = dec_den(q + 1);
        let x = dec_num(n, q + 1);
        assert(x == n * u) by (nonlinear_arith)
            requires
                x == n * 1 * u,
        ;
        assert(dec_num(10 * n, q) == x * 10) by (nonlinear_arith)
            requires
                x == n * u,
                dec_num(10 * n, q) == (10 * n) * 1 * u,
        ;
        lemma_ratio_cancel(x, d, 10);
    }
}

pub proof fn lemma_dec_coarser(n: nat, q: int, j: nat)
    ensures
        dec_mag(n, q + j) == dec_mag(n * ten(j), q),
    decreases j,
{
    if j == 0 {
        assert(n * 1 == n);
    } else {
        lemma_dec_shift(n, q + (j - 1));
        lemma_dec_coarser(10 * n, q, (j - 1) as nat);
        let t = ten((j - 1) as nat);
        assert((10 * n) * t == n * (10 * t)) by (nonlinear_arith);
    }
}

/// Values beyond the largest double round to infinity.
proof fn lemma_dec_overflow(n: nat, q: int)
    requires
        n > 0,
        q > 400,
    ensures
        dec_mag(n, q) == INFINITE,
{
    let x = dec_num(n, q);
    let t = ten(q as nat);
    let u = pow2(UNIT as nat);
    lemma_ten_large(q as nat);
    lemma_pow2_strictly_increases(1024, (3 * q) as nat);
    lemma_pow2_adds(1024, UNIT as nat);
    lemma_pow2_adds(52, 2046);
    vstd::arithmetic::power2::lemma2_to64();
    vstd::arithmetic::power2::lemma2_to64_rest();
    let big = pow2(1024);
    assert(n * t * u >= big * u) by (nonlinear_arith)
        requires
            n >= 1,
            t >= big,
            u >= 0,
            big >= 0,
    ;
    assert(scaled(INFINITE as int) == pow2(2098)) by {
        assert(INFINITE as int / 0x10_0000_0000_0000 == 2047);
        assert(INFINITE as int % 0x10_0000_0000_0000 == 0);
        assert(pow2(52) == 0x10_0000_0000_0000);
    }
    assert(x >= scaled(INFINITE as int));
    lemma_ratio_exists(x, 1);
    assert(nearest(INFINITE as int, x, 1)) by {
        assert forall|k: int|
            #![trigger distance(k, x, 1)]
            0 <= k <= INFINITE implies distance(INFINITE as int, x, 1) < distance(k, x, 1) || (distance(
            INFINITE as int,
            x,
            1,
        ) == distance(k, x, 1) && (k == INFINITE || INFINITE as int % 2 == 0)) by {
            if k < INFINITE {
                lemma_scaled_monotone(k, INFINITE as int);
            }
        }
    }
    lemma_nearest_unique(INFINITE as int, round_ratio(x, 1), x, 1);
}

/// Values below half the least double round to zero.
proof fn lemma_dec_underflow(n: nat, q: int, len: nat)
    requires
        n < ten(len),
        q + len < -400,
    ensures
        dec_mag(n, q) == 0,
{
    let k = (-q) as nat;
    let x = dec_num(n, q);
    let d = dec_den(q);
    let u = pow2(UNIT as nat);
    let rest = (k - len) as nat;
    lemma_ten_adds(len, rest);
    lemma_ten_large(rest);
    lemma_pow2_strictly_increases((UNIT + 1) as nat, (3 * rest) as nat);
    lemma_pow2_unfold((UNIT + 1) as nat);
    let a = ten(len);
    let b = ten(rest);
    assert(x == n * u) by (nonlinear_arith)
        requires
            x == n * 1 * u,
    ;
    lemma_pow2_pos(UNIT as nat);
    lemma_ten_positive(len);
    assert(2 * (n * u) < a * b) by (nonlinear_arith)
        requires
            n < a,
            b > 2 * u,
            u > 0,
            n >= 0,
    ;
    assert(2 * x < d);
    lemma_den_positive(q);
    lemma_ratio_exists(x, d);
    assert(nearest(0, x, d)) by {
        assert forall|k: int|
            #![trigger distance(k, x, d)]
            0 <= k <= INFINITE implies distance(0, x, d) < distance(k, x, d) || (distance(0, x, d) == distance(
            k,
            x,
            d,
        ) && (k == 0 || 0int % 2 == 0)) by {
            if k > 0 {
                lemma_scaled_monotone(0, k);
                lemma_mul_inequality(1, scaled(k) as int, d);
            }
            assert(scaled(0) * d == 0) by (nonlinear_arith)
                requires
                    scaled(0) == 0,
            ;
        }
    }
    lemma_nearest_unique(0, round_ratio(x, d), x, d);
}

/// Zero with any exponent is zero.
pub proof fn lemma_zero_rounds_to_zero(q: int)
    ensures
        dec_mag(0, q) == 0,
{
    lemma_den_positive(q);
    let x = dec_num(0, q);
    let d = dec_den(q);
    let t = if q > 0 {
        ten(q as nat)
    } else {
        1
    };
    assert(0 * t * pow2(UNIT as nat) == 0) by (nonlinear_arith);
    assert(scaled(0) * d == 0) by (nonlinear_arith)
        requires
            scaled(0) == 0,
    ;
    assert(nearest(0, x, d)) by {
        assert forall|k: int|
            #![trigger distance(k, x, d)]
            0 <= k <= INFINITE implies distance(0, x, d) < distance(k, x, d) || (distance(0, x, d) == distance(
            k,
            x,
            d,
        ) && (k == 0 || 0int % 2 == 0)) by {
            if k > 0 {
                lemma_scaled_monotone(0, k);
                lemma_mul_inequality(1, scaled(k) as int, d);
            }
        }
    }
    lemma_nearest_unique(0, round_ratio(x, d), x, d);
}

/// `10^k`.
fn ten_big(k: u128) -> (r: Big)
    ensures
        r@ == ten(k as nat),
{
    let mut r = Big::from_u64(1);
    let mut i: u128 = 0;
    while i < k
        invariant
            i <= k,
            r@ == ten(i as nat),
        decreases k - i,
    {
        r = r.mul_add_small(10, 0);
        i = i + 1;
    }
    r
}

/// `n * 10^q` as a ratio of units.
fn dec_ratio(n: &Big, q: i128) -> (r: (Big, Big))
    requires
        q > i128::MIN,
    ensures
        r.0@ == dec_num(n@, q as int),
        r.1@ == dec_den(q as int),
{
    if q > 0 {
        let num = n.times(&ten_big(q as u128)).shift(UNIT);
        (num, Big::from_u64(1))
    } else {
        let num = n.shift(UNIT);
        proof {
            assert(n@ * 1 == n@);
        }
        let k: u128 = (-q) as u128;
        let den = if q < 0 {
            ten_big(k)
        } else {
            Big::from_u64(1)
        };
        (num, den)
    }
}

/// The number that decimal digits stand for.
fn digits_big(s: &[char]) -> (r: Big)
    requires
        all_digits(s@),
    ensures
        r@ == number_of(s@),
{
    let mut r = Big::zero();
    let mut i: usize = 0;
    while i < s.len()
        invariant
            i <= s.len(),
            all_digits(s@),
            r@ == number_of(s@.take(i as int)),
        decreases s.len() - i,
    {
        assert(is_digit(s@[i as int]));
        r = r.mul_add_small(10, s[i] as u32 - 48);
        assert(s@.take(i + 1).drop_last() =~= s@.take(i as int));
        i = i + 1;
    }
    assert(s@.take(i as int) =~= s@);
    r
}

proof fn lemma_digits_bound(s: Seq<char>)
    requires
        all_digits(s),
    ensures
        number_of(s) < ten(s.len()),
    decreases s.len(),
{
    if s.len() > 0 {
        let t = s.drop_last();
        assert(is_digit(s.last()));
        assert forall|i: int| 0 <= i < t.len() implies is_digit(#[trigger] t[i]) by {
            assert(is_digit(s[i]));
        }
        lemma_digits_bound(t);
    }
}

/// The double nearest to the decimal number with these digits and scale.
pub fn nearest_decimal(digits: &[char], q: i128) -> (r: u64)
    requires
        all_digits(digits@),
        -0x4000_0000_0000_0000_0000_0000_0000_0000 <= q <= 0x4000_0000_0000_0000_0000_0000_0000_0000,
    ensures
        r <= INFINITE,
        r == dec_mag(number_of(digits@), q as int),
{
    let n = digits_big(digits);
    if n.is_zero() {
        proof {
            lemma_zero_rounds_to_zero(q as int);
        }
        return 0;
    }
    if q > 400 {
        proof {
            lemma_dec_overflow(n@, q as int);
        }
        return INFINITE;
    }
    if q + (digits.len() as i128) < -400 {
        proof {
            lemma_digits_bound(digits@);
            lemma_dec_underflow(n@, q as int, digits@.len());
        }
        return 0;
    }
    let (num, den) = dec_ratio(&n, q);
    proof {
        lemma_den_positive(q as int);
    }
    nearest_ratio(&num, &den)
}

/// The closest whole number of `10^q` that reads back as the double `m`, if any does.
fn fitting(m: u64, q: i32) -> (r: Option<Big>)
    requires
        0 < m < INFINITE,
    ensures
        match r {
            Some(n) => dec_mag(n@, q as int) == m && forall|n2: nat| #[trigger]
                dec_mag(n2, q as int) == m ==> as_good(m as int, n@, n2, q as int),
            None => forall|n2: nat| #[trigger] dec_mag(n2, q as int) != m,
        },
{
    let one = Big::from_u64(1);
    let (step, den) = dec_ratio(&one, q as i128);
    let target = scaled_big(m).times(&den);
    proof {
        lemma_den_positive(q as int);
        lemma_step_positive(q as int);
    }
    let (lo, rem) = target.div_mod(&step);
    let hi = lo.plus(&Big::from_u64(1));
    let lo_num = lo.times(&step);
    let hi_num = hi.times(&step);
    proof {
        lemma_step_times(lo@, q as int);
        lemma_step_times(hi@, q as int);
    }
    let lo_fits: bool = rounds_to(m, &lo_num, &den);
    let hi_fits: bool = rounds_to(m, &hi_num, &den);
    let twice = rem.mul_add_small(2, 0);
    let below: bool = twice.compare(&step) != Side::Above;
    proof {
        let ghost g = dec_num(1, q as int);
        vstd::arithmetic::div_mod::lemma_fundamental_div_mod(target@ as int, g);
        vstd::arithmetic::div_mod::lemma_mod_bound(target@ as int, g);
        assert((lo@ + 1) * g == lo@ * g + g) by (nonlinear_arith);
        assert(g * lo@ == lo@ * g) by (nonlinear_arith);
        assert forall|n2: nat| #[trigger] dec_mag(n2, q as int) == m implies {
            ||| n2 <= lo@ && dec_mag(lo@, q as int) == m && (n2 == lo@ || dec_gap(m as int, lo@, q as int)
                < dec_gap(m as int, n2, q as int))
            ||| n2 > lo@ && dec_mag(hi@, q as int) == m && (n2 == hi@ || dec_gap(m as int, hi@, q as int)
                < dec_gap(m as int, n2, q as int))
        } by {
            lemma_fit_inward(m as int, lo@, n2, q as int);
        }
    }
    if lo_fits && (below || !hi_fits) {
        Some(lo)
    } else if hi_fits {
        Some(hi)
    } else {
        None
    }
}

proof fn lemma_step_positive(q: int)
    ensures
        dec_num(1, q) > 0,
{
    let t = if q > 0 {
        ten(q as nat)
    } else {
        1
    };
    if q > 0 {
        lemma_ten_positive(q as nat);
    }
    lemma_pow2_pos(UNIT as nat);
    let u = pow2(UNIT as nat);
    assert(1 * t * u > 0) by (nonlinear_arith)
        requires
            t > 0,
            u > 0,
    ;
}

proof fn lemma_step_times(n: nat, q: int)
    ensures
        dec_num(n, q) == n * dec_num(1, q),
{
    let t = if q > 0 {
        ten(q as nat)
    } else {
        1
    };
    let u = pow2(UNIT as nat);
    assert(n * t * u == n * (1 * t * u)) by (nonlinear_arith);
}

/// Among the decimals at one scale that read back as `m`, the neighbours of
/// the exact value are at least as good as any other.
proof fn lemma_fit_inward(m: int, lo: nat, n2: nat, q: int)
    requires
        0 < m < INFINITE,
        lo * dec_num(1, q) <= scaled(m) * dec_den(q),
        scaled(m) * dec_den(q) < (lo + 1) * dec_num(1, q),
        dec_mag(n2, q) == m,
    ensures
        n2 <= lo ==> dec_mag(lo, q) == m && (n2 == lo || dec_gap(m, lo, q) < dec_gap(m, n2, q)),
        n2 > lo ==> dec_mag(lo + 1, q) == m && (n2 == lo + 1 || dec_gap(m, lo + 1, q) < dec_gap(m, n2, q)),
{
    lemma_den_positive(q);
    lemma_step_times(n2, q);
    lemma_step_times(lo, q);
    lemma_step_times(lo + 1, q);
    let d = dec_den(q);
    let t = scaled(m) * d;
    lemma_exact_rounds(m, d);
    lemma_step_positive(q);
    let g = dec_num(1, q);
    if n2 < lo {
        lemma_mul_strict_inequality(n2 as int, lo as int, g);
    }
    if n2 > lo + 1 {
        lemma_mul_strict_inequality((lo + 1) as int, n2 as int, g);
    }
    if n2 <= lo {
        lemma_dec_monotone(n2, lo, q);
        lemma_ratio_monotone(dec_num(lo, q), t, d);
    } else {
        lemma_dec_monotone(lo + 1, n2, q);
        lemma_ratio_monotone(t, dec_num(lo + 1, q), d);
    }
}

/// A value that is a double rounds to it.
pub proof fn lemma_exact_rounds(m: int, d: int)
    requires
        0 <= m <= INFINITE,
        d > 0,
    ensures
        round_ratio(scaled(m) * d, d) == m,
{
    let t = scaled(m) * d;
    assert(nearest(m, t, d)) by {
        assert forall|k: int|
            #![trigger distance(k, t, d)]
            0 <= k <= INFINITE implies distance(m, t, d) < distance(k, t, d) || (distance(m, t, d)
            == distance(k, t, d) && (k == m || m % 2 == 0)) by {
            if k < m {
                lemma_scaled_monotone(k, m);
                lemma_mul_strict_inequality(scaled(k) as int, scaled(m) as int, d);
            } else if k > m {
                lemma_scaled_monotone(m, k);
                lemma_mul_strict_inequality(scaled(m) as int, scaled(k) as int, d);
            }
        }
    }
    lemma_nearest_unique(m, round_ratio(t, d), t, d);
}

/// Some decimal reads back as `m` once the scale is fine enough to write it exactly.
proof fn lemma_exact_scale(m: int)
    requires
        0 <= m <= INFINITE,
    ensures
        exists|n: nat| #[trigger] dec_mag(n, -(UNIT as int)) == m,
{
    let k = UNIT as nat;
    let d = ten(k) as int;
    lemma_ten_positive(k);
    lemma_five(k);
    // scaled(m) * 10^k == (scaled(m) * 5^k) * 2^k
    let n = scaled(m) * five(k);
    let u = pow2(k);
    let f = five(k);
    let s = scaled(m);
    assert(n * 1 * u == s * (f * u)) by (nonlinear_arith)
        requires
            n == s * f,
    ;
    lemma_exact_rounds(m, d);
    assert(dec_mag(n, -(UNIT as int)) == m);
}

spec fn five(k: nat) -> nat
    decreases k,
{
    if k == 0 {
        1
    } else {
        5 * five((k - 1) as nat)
    }
}

proof fn lemma_five(k: nat)
    ensures
        ten(k) == five(k) * pow2(k),
    decreases k,
{
    if k == 0 {
        vstd::arithmetic::power2::lemma2_to64();
    } else {
        lemma_five((k - 1) as nat);
        lemma_pow2_unfold(k);
        let f = five((k - 1) as nat);
        let p = pow2((k - 1) as nat);
        assert(10 * (f * p) == (5 * f) * (2 * p)) by (nonlinear_arith);
    }
}

/// The shortest decimal that reads back as a positive finite double, as a
/// whole number of `10^q`.
pub fn shortest(m: u64) -> (r: (Big, i32))
    requires
        0 < m < INFINITE,
    ensures
        shortest_of(m as int) == (r.0@, r.1 as int),
        is_shortest(m as int, r.0@, r.1 as int),
        -1074 <= r.1 <= 401,
{
    // A first guess from the binary exponent; the loops settle the scale.
    let e: i64 = (m / 0x10_0000_0000_0000) as i64 - 1023;
    let guess: i64 = e * 30103 / 100000 + 2;
    let mut q: i32 = if guess < -1073 {
        -1073
    } else if guess > 401 {
        401
    } else {
        guess as i32
    };
    let mut found = fitting(m, q);
    while found.is_some() && q < 401
        invariant
            0 < m < INFINITE,
            -1074 < q <= 401,
            found is None ==> forall|n2: nat| #[trigger] dec_mag(n2, q as int) != m,
        decreases 401 - q,
    {
        q = q + 1;
        found = fitting(m, q);
    }
    proof {
        if q == 401 {
            assert forall|n2: nat| #[trigger] dec_mag(n2, q as int) != m by {
                if n2 == 0 {
                    lemma_zero_rounds_to_zero(q as int);
                } else {
                    lemma_dec_overflow(n2, q as int);
                }
            }
        }
    }
    while q > -1074
        invariant
            0 < m < INFINITE,
            -1074 <= q <= 401,
            forall|n2: nat| #[trigger] dec_mag(n2, q as int) != m,
        decreases q + 1074,
    {
        let ghost above = q;
        q = q - 1;
        match fitting(m, q) {
            Some(n) => {
                proof {
                    assert forall|n2: nat, q2: int| q2 > q implies #[trigger] dec_mag(n2, q2) != m by {
                        let j = (q2 - above) as nat;
                        lemma_dec_coarser(n2, above as int, j);
                        assert(dec_mag(n2 * ten(j), above as int) != m);
                    }
                    lemma_shortest_unique(m as int, n@, q as int);
                }
                return (n, q);
            },
            None => {},
        }
    }
    proof {
        lemma_exact_scale(m as int);
        assert(false);
    }
    (Big::zero(), q)
}

/// Decimal digits of a number of any size.
pub fn big_chars(n: &Big) -> (r: Vec<char>)
    ensures
        r@ == nat_text(n@),
{
    let mut low: Vec<char> = Vec::new();
    let mut cur = n.dup();
    let ten = Big::from_u64(10);
    while cur.compare(&ten) != Side::Below
        invariant
            ten@ == 10,
            nat_text(n@) =~= nat_text(cur@) + low@.reverse(),
        decreases cur@,
    {
        let (next, d) = cur.div_small(10);
        proof {
            vstd::arithmetic::div_mod::lemma_fundamental_div_mod_converse(
                cur@ as int,
                10,
                next@ as int,
                d as int,
            );
            let c = digit_char(d as int);
            let l = low@.push(c);
            assert(l.reverse() =~= seq![c] + low@.reverse());
            assert(nat_text(cur@) =~= nat_text(next@).push(c));
            assert(nat_text(next@).push(c) + low@.reverse() =~= nat_text(next@) + l.reverse());
        }
        low.push(char_of_digit(d as u8));
        cur = next;
    }
    let mut r: Vec<char> = Vec::new();
    r.push(char_of_digit(cur.to_u64() as u8));
    let mut i: usize = low.len();
    while i > 0
        invariant
            i <= low.len(),
            r@ =~= nat_text(cur@) + low@.reverse().take(low.len() - i),
        decreases i,
    {
        i = i - 1;
        r.push(low[i]);
    }
    assert(low@.reverse().take(low.len() as int) =~= low@.reverse());
    r
}

/// A finite magnitude rounded to `places` decimal places, halves to even.
pub fn fixed(m: u64, places: usize) -> (r: Big)
    requires
        m < INFINITE,
    ensures
        r@ == fixed_value(m as int, places as nat),
{
    let n = scaled_big(m).times(&ten_big(places as u128));
    let d = Big::from_u64(1).shift(UNIT);
    proof {
        lemma_pow2_pos(UNIT as nat);
        assert(1 * pow2(UNIT as nat) == pow2(UNIT as nat));
    }
    let (q, r) = n.div_mod(&d);
    let twice = r.mul_add_small(2, 0);
    let (_half, odd) = q.div_small(2);
    proof {
        vstd::arithmetic::div_mod::lemma_fundamental_div_mod_converse(
            q@ as int,
            2,
            _half@ as int,
            odd as int,
        );
    }
    match twice.compare(&d) {
        Side::Below => q,
        Side::Same => if odd == 0 {
            q
        } else {
            q.plus(&Big::from_u64(1))
        },
        Side::Above => q.plus(&Big::from_u64(1)),
    }
}

// ── Text forms ───────────────────────────────────────────────────────────────

/// `n * 10^q` in positional notation.
pub open spec fn positional(n: nat, q: int) -> Seq<char> {
    let d = nat_text(n);
    let point = d.len() + q;
    if q >= 0 {
        d + repeated('0', q as nat)
    } else if point > 0 {
        d.take(point) + seq!['.'] + d.skip(point)
    } else {
        seq!['0', '.'] + repeated('0', (-point) as nat) + d
    }
}

/// A magnitude in positional notation, with the shortest digits that read back.
pub open spec fn plain_text(m: int) -> Seq<char> {
    if m == 0 {
        seq!['0']
    } else {
        positional(shortest_of(m).0, shortest_of(m).1)
    }
}

/// Positional notation of a finite magnitude.
pub fn plain_chars(m: u64) -> (r: Vec<char>)
    requires
        m < INFINITE,
    ensures
        r@ == plain_text(m as int),
{
    let mut r: Vec<char> = Vec::new();
    if m == 0 {
        r.push('0');
        return r;
    }
    let (n, q) = shortest(m);
    let d = big_chars(&n);
    proof {
        lemma_nat_text(n@);
    }
    if q >= 0 {
        push_all(&mut r, d.as_slice());
        push_repeated(&mut r, '0', q as usize);
        assert(r@ =~= positional(n@, q as int));
    } else {
        let k: usize = (-q) as usize;
        if d.len() > k {
            let head = part(d.as_slice(), 0, d.len() - k);
            let tail = part(d.as_slice(), d.len() - k, d.len());
            push_all(&mut r, head.as_slice());
            r.push('.');
            push_all(&mut r, tail.as_slice());
            assert(r@ =~= positional(n@, q as int));
        } else {
            r.push('0');
            r.push('.');
            push_repeated(&mut r, '0', k - d.len());
            push_all(&mut r, d.as_slice());
            assert(r@ =~= positional(n@, q as int));
        }
    }
    r
}

/// A decimal whose digits are `d` and whose point stands after `point` of
/// them, as ECMAScript writes numbers.
pub open spec fn ecma_digits(d: Seq<char>, point: int) -> Seq<char> {
    if d.len() <= point <= 21 {
        d + repeated('0', (point - d.len()) as nat)
    } else if 0 < point <= 21 {
        d.take(point) + seq!['.'] + d.skip(point)
    } else if -6 < point <= 0 {
        seq!['0', '.'] + repeated('0', (-point) as nat) + d
    } else {
        let e = point - 1;
        let head = if d.len() == 1 {
            d
        } else {
            d.take(1) + seq!['.'] + d.skip(1)
        };
        head + seq!['e'] + (if e < 0 {
            seq!['-']
        } else {
            seq!['+']
        }) + nat_text((if e < 0 {
            -e
        } else {
            e
        }) as nat)
    }
}

/// A number as ECMAScript's `Number::toString` writes it.
pub open spec fn number_text(x: Number) -> Seq<char> {
    if x.nan() {
        "NaN"@
    } else if x.infinite() {
        if x.negative() {
            "-Infinity"@
        } else {
            "Infinity"@
        }
    } else if x.zero() {
        "0"@
    } else {
        let (n, q) = shortest_of(x.mag());
        let t = ecma_digits(nat_text(n), nat_text(n).len() + q);
        if x.negative() {
            seq!['-'] + t
        } else {
            t
        }
    }
}

fn push_ecma(r: &mut Vec<char>, d: &[char], point: i64)
    requires
        1 <= d@.len(),
        -2_000_000 <= point <= 0x4000_0000_0000_0000,
        point <= d@.len() + 500,
    ensures
        final(r)@ == old(r)@ + ecma_digits(d@, point as int),
{
    let ghost before = r@;
    if point <= 21 && d.len() as i128 <= point as i128 {
        push_all(r, d);
        push_repeated(r, '0', point as usize - d.len());
        assert(r@ =~= before + ecma_digits(d@, point as int));
    } else if 0 < point && point <= 21 {
        let head = part(d, 0, point as usize);
        let tail = part(d, point as usize, d.len());
        push_all(r, head.as_slice());
        r.push('.');
        push_all(r, tail.as_slice());
        assert(r@ =~= before + ecma_digits(d@, point as int));
    } else if -6 < point && point <= 0 {
        r.push('0');
        r.push('.');
        push_repeated(r, '0', (-point) as usize);
        push_all(r, d);
        assert(r@ =~= before + ecma_digits(d@, point as int));
    } else {
        let e: i64 = point - 1;
        r.push(d[0]);
        if d.len() > 1 {
            let tail = part(d, 1, d.len());
            r.push('.');
            push_all(r, tail.as_slice());
        }
        r.push('e');
        let m = if e < 0 {
            r.push('-');
            crate::text::nat_chars((-e) as u64)
        } else {
            r.push('+');
            crate::text::nat_chars(e as u64)
        };
        push_all(r, m.as_slice());
        assert(r@ =~= before + ecma_digits(d@, point as int));
    }
}

/// A number in ECMAScript notation.
pub fn number_chars(x: &Number) -> (r: Vec<char>)
    ensures
        r@ == number_text(*x),
{
    let mut r: Vec<char> = Vec::new();
    if x.is_nan() {
        push_text(&mut r, "NaN");
        assert(r@ =~= "NaN"@);
        return r;
    }
    if x.is_infinite() {
        if x.is_negative() {
            push_text(&mut r, "-Infinity");
            assert(r@ =~= "-Infinity"@);
        } else {
            push_text(&mut r, "Infinity");
            assert(r@ =~= "Infinity"@);
        }
        return r;
    }
    if x.is_zero() {
        push_text(&mut r, "0");
        assert(r@ =~= "0"@);
        return r;
    }
    let (n, q) = shortest(x.magnitude());
    let d = big_chars(&n);
    proof {
        lemma_nat_text(n@);
        lemma_shortest_len(x.mag(), n@, q as int);
    }
    if x.is_negative() {
        r.push('-');
    }
    push_ecma(&mut r, d.as_slice(), d.len() as i64 + q as i64);
    assert(r@ =~= number_text(*x));
    r
}

proof fn lemma_shortest_len(m: int, n: nat, q: int)
    requires
        0 < m < INFINITE,
        is_shortest(m, n, q),
        -1074 <= q <= 401,
    ensures
        nat_text(n).len() <= 2000,
{
    // A number with more digits would round to infinity at its scale.
    if nat_text(n).len() > 2000 {
        lemma_nat_text_large(n, 1500);
        let k = (1500 + q) as nat;
        lemma_dec_coarser(1, q, 1499);
        let t = ten(1499);
        assert(1 * t == t);
        lemma_dec_monotone(t, n, q);
        lemma_dec_overflow(1, q + 1499);
    }
}

proof fn lemma_nat_text_large(n: nat, k: nat)
    requires
        nat_text(n).len() >= k,
        k >= 1,
    ensures
        n >= ten((k - 1) as nat) || n == 0,
        k >= 2 ==> n >= ten((k - 1) as nat),
    decreases k,
{
    if k >= 2 {
        assert(n >= 10);
        lemma_nat_text_large(n / 10, (k - 1) as nat);
    }
}

/// A magnitude at a fixed number of decimal places.
pub open spec fn fixed_text(m: int, places: nat) -> Seq<char> {
    let v = fixed_value(m, places);
    let d = nat_text(v);
    let padded = if d.len() <= places {
        repeated('0', (places + 1 - d.len()) as nat) + d
    } else {
        d
    };
    if places == 0 {
        padded
    } else {
        padded.take(padded.len() - places) + seq!['.'] + padded.skip(padded.len() - places)
    }
}

/// A finite magnitude at a fixed number of decimal places.
pub fn fixed_chars(m: u64, places: usize) -> (r: Vec<char>)
    requires
        m < INFINITE,
        places < usize::MAX,
    ensures
        r@ == fixed_text(m as int, places as nat),
{
    let n = fixed(m, places);
    let d = big_chars(&n);
    let mut padded: Vec<char> = Vec::new();
    if d.len() <= places {
        push_repeated(&mut padded, '0', places + 1 - d.len());
    }
    push_all(&mut padded, d.as_slice());
    let ghost full = if d@.len() <= places {
        repeated('0', (places + 1 - d@.len()) as nat) + d@
    } else {
        d@
    };
    assert(padded@ =~= full);
    if places == 0 {
        return padded;
    }
    let cut: usize = padded.len() - places;
    let mut r = part(padded.as_slice(), 0, cut);
    let tail = part(padded.as_slice(), cut, padded.len());
    r.push('.');
    push_all(&mut r, tail.as_slice());
    assert(r@ =~= fixed_text(m as int, places as nat));
    r
}

// ── Reading numbers ──────────────────────────────────────────────────────────

/// Where the exponent of a decimal literal ends, if one stands at `i`: a
/// letter `e`, an optional sign and digits.
pub open spec fn exponent_at(s: Seq<char>, i: int) -> Option<(int, int)> {
    if 0 <= i < s.len() && (s[i] == 'e' || s[i] == 'E') {
        let j = if i + 1 < s.len() && (s[i + 1] == '+' || s[i + 1] == '-') {
            i + 2
        } else {
            i + 1
        };
        let k = j + digit_run(s, j);
        if k > j {
            Some((j, k))
        } else {
            None
        }
    } else {
        None
    }
}

/// The value of an exponent whose digits are `s[j..k]`.
pub open spec fn exponent_value(s: Seq<char>, i: int, j: int, k: int) -> int {
    let v = number_of(s.subrange(j, k)) as int;
    if j == i + 2 && s[i + 1] == '-' {
        -v
    } else {
        v
    }
}

/// The double that an unsigned decimal literal stands for: digits, optionally
/// with a point among or around them, optionally with an exponent.
pub open spec fn literal_mag(s: Seq<char>) -> Option<int> {
    let a = digit_run(s, 0) as int;
    let dot = a < s.len() && s[a] == '.';
    let b = if dot {
        a + 1 + digit_run(s, a + 1)
    } else {
        a
    };
    let frac = if dot {
        s.subrange(a + 1, b)
    } else {
        Seq::empty()
    };
    let digits = s.take(a) + frac;
    if digits.len() == 0 {
        None
    } else if b == s.len() {
        Some(dec_mag(number_of(digits), -(frac.len() as int)))
    } else {
        match exponent_at(s, b) {
            Some((j, k)) => if k == s.len() {
                Some(dec_mag(number_of(digits), exponent_value(s, b, j, k) - frac.len()))
            } else {
                None
            },
            None => None,
        }
    }
}

/// The number that text stands for in decimal notation with an optional sign.
pub open spec fn decimal_number(s: Seq<char>) -> Option<Number> {
    let signed = s.len() > 0 && (s[0] == '+' || s[0] == '-');
    let rest = if signed {
        s.skip(1)
    } else {
        s
    };
    match literal_mag(rest) {
        Some(m) => Some(Number::make(signed && s[0] == '-', m)),
        None => None,
    }
}

/// Digits as a bounded number: exact up to `10^25`, and above that otherwise.
fn bounded_value(s: &[char], from: usize, to: usize) -> (r: i128)
    requires
        from <= to <= s@.len(),
        all_digits(s@.subrange(from as int, to as int)),
    ensures
        0 <= r <= 10_000_000_000_000_000_000_000_000,
        r < 10_000_000_000_000_000_000_000_000 ==> r == number_of(s@.subrange(from as int, to as int)),
        r == 10_000_000_000_000_000_000_000_000 ==> number_of(s@.subrange(from as int, to as int)) >= r,
{
    let ghost d = s@.subrange(from as int, to as int);
    let mut acc: i128 = 0;
    let mut i: usize = from;
    assert(d.take(0) =~= Seq::empty());
    while i < to
        invariant
            from <= i <= to <= s@.len(),
            d == s@.subrange(from as int, to as int),
            all_digits(d),
            0 <= acc < 10_000_000_000_000_000_000_000_000,
            acc == number_of(d.take(i - from)),
        decreases to - i,
    {
        let ghost k = i - from;
        assert(is_digit(d[k]));
        acc = acc * 10 + (s[i] as u32 - 48) as i128;
        proof {
            assert(d.take(k + 1).drop_last() =~= d.take(k));
        }
        if acc >= 10_000_000_000_000_000_000_000_000 {
            proof {
                crate::text::lemma_number_grows(d, k + 1);
            }
            return 10_000_000_000_000_000_000_000_000;
        }
        i = i + 1;
    }
    assert(d.take(i - from) =~= d);
    acc
}

/// Scales far beyond the doubles all give the same result.
proof fn lemma_far_scales(n: nat, len: nat, q1: int, q2: int)
    requires
        n < ten(len),
        (q1 > 400 && q2 > 400) || (q1 + len < -400 && q2 + len < -400),
    ensures
        dec_mag(n, q1) == dec_mag(n, q2),
{
    if n == 0 {
        lemma_zero_rounds_to_zero(q1);
        lemma_zero_rounds_to_zero(q2);
    } else if q1 > 400 {
        lemma_dec_overflow(n, q1);
        lemma_dec_overflow(n, q2);
    } else {
        lemma_dec_underflow(n, q1, len);
        lemma_dec_underflow(n, q2, len);
    }
}

/// Read an unsigned decimal literal.
pub fn read_literal(s: &[char]) -> (r: Option<u64>)
    ensures
        match r {
            Some(m) => literal_mag(s@) == Some(m as int) && m <= INFINITE,
            None => literal_mag(s@) is None,
        },
{
    let a: usize = digits_end(s, 0);
    let dot: bool = a < s.len() && s[a] == '.';
    let b: usize = if dot {
        digits_end(s, a + 1)
    } else {
        a
    };
    let mut digits = part(s, 0, a);
    let frac: usize = if dot {
        b - (a + 1)
    } else {
        0
    };
    if dot {
        let f = part(s, a + 1, b);
        push_all(&mut digits, f.as_slice());
    }
    let ghost frac_seq = if dot {
        s@.subrange(a + 1, b as int)
    } else {
        Seq::empty()
    };
    proof {
        assert(s@.take(a as int) =~= s@.subrange(0, a as int));
        assert(digits@ =~= s@.take(a as int) + frac_seq);
        assert forall|i: int| 0 <= i < digits@.len() implies is_digit(#[trigger] digits@[i]) by {
            if i < a {
                assert(is_digit(s@.subrange(0, a as int)[i]));
            } else {
                assert(is_digit(frac_seq[i - a]));
            }
        }
    }
    if digits.len() == 0 {
        return None;
    }
    if b == s.len() {
        return Some(nearest_decimal(digits.as_slice(), -(frac as i128)));
    }
    if s[b] != 'e' && s[b] != 'E' {
        return None;
    }
    let signed: bool = b + 1 < s.len() && (s[b + 1] == '+' || s[b + 1] == '-');
    let j: usize = if signed {
        b + 2
    } else {
        b + 1
    };
    let k: usize = digits_end(s, j);
    if k == j || k < s.len() {
        return None;
    }
    let v: i128 = bounded_value(s, j, k);
    let e: i128 = if signed && s[b + 1] == '-' {
        -v
    } else {
        v
    };
    proof {
        let exact = exponent_value(s@, b as int, j as int, k as int);
        assert(exponent_at(s@, b as int) == Some((j as int, k as int)));
        if exact != e {
            lemma_digits_bound(digits@);
            lemma_far_scales(number_of(digits@), digits@.len(), exact - frac, e - frac);
        }
    }
    Some(nearest_decimal(digits.as_slice(), e - frac as i128))
}

/// Read a decimal number with an optional sign.
pub fn read_decimal(s: &[char]) -> (r: Option<Number>)
    ensures
        r == decimal_number(s@),
{
    let signed: bool = s.len() > 0 && (s[0] == '+' || s[0] == '-');
    if signed {
        let rest = part(s, 1, s.len());
        assert(rest@ =~= s@.skip(1));
        match read_literal(rest.as_slice()) {
            Some(m) => Some(Number::build(s[0] == '-', m)),
            None => None,
        }
    } else {
        match read_literal(s) {
            Some(m) => Some(Number::build(false, m)),
            None => None,
        }
    }
}

// ── Reading back ─────────────────────────────────────────────────────────────

/// The best whole number at a scale, at least as good as one that is known.
proof fn lemma_best_at(m: int, n: nat, q: int) -> (r: nat)
    requires
        dec_mag(n, q) == m,
    ensures
        dec_mag(r, q) == m,
        forall|n2: nat| #[trigger] dec_mag(n2, q) == m ==> as_good(m, r, n2, q),
    decreases dec_gap(m, n, q), n,
{
    if forall|n2: nat| #[trigger] dec_mag(n2, q) == m ==> as_good(m, n, n2, q) {
        n
    } else {
        let n2 = choose|n2: nat| #[trigger] dec_mag(n2, q) == m && !as_good(m, n, n2, q);
        lemma_best_at(m, n2, q)
    }
}

/// The coarsest scale at which some decimal reads back as a double.
proof fn lemma_coarsest(m: int, q: int) -> (r: (nat, int))
    requires
        0 < m < INFINITE,
        -(UNIT as int) <= q,
        forall|n2: nat, q2: int| q2 > q ==> #[trigger] dec_mag(n2, q2) != m,
    ensures
        dec_mag(r.0, r.1) == m,
        forall|n2: nat, q2: int| q2 > r.1 ==> #[trigger] dec_mag(n2, q2) != m,
    decreases q + UNIT,
{
    if exists|n: nat| #[trigger] dec_mag(n, q) == m {
        (choose|n: nat| #[trigger] dec_mag(n, q) == m, q)
    } else {
        if q == -(UNIT as int) {
            lemma_exact_scale(m);
            assert(false);
        }
        lemma_coarsest(m, q - 1)
    }
}

/// Every positive finite double has a shortest decimal.
pub proof fn law_shortest_exists(m: int)
    requires
        0 < m < INFINITE,
    ensures
        is_shortest(m, shortest_of(m).0, shortest_of(m).1),
{
    assert forall|n2: nat, q2: int| q2 > 400 implies #[trigger] dec_mag(n2, q2) != m by {
        if n2 > 0 {
            lemma_dec_overflow(n2, q2);
        } else {
            lemma_zero_rounds_to_zero(q2);
        }
    }
    let (n, q) = lemma_coarsest(m, 400);
    let best = lemma_best_at(m, n, q);
    let p = (best, q);
    assert(is_shortest(m, p.0, p.1));
}

/// A run of digits goes as far as they do.
pub proof fn lemma_run_of(s: Seq<char>, from: int, n: nat)
    requires
        0 <= from,
        from + n <= s.len(),
        forall|i: int| from <= i < from + n ==> is_digit(#[trigger] s[i]),
        from + n == s.len() || !is_digit(s[from + n]),
    ensures
        digit_run(s, from) == n,
    decreases n,
{
    if n > 0 {
        assert(is_digit(s[from]));
        lemma_run_of(s, from + 1, (n - 1) as nat);
    }
}

/// Zeros behind a number multiply it.
proof fn lemma_zeros_behind(d: Seq<char>, k: nat)
    requires
        all_digits(d),
    ensures
        number_of(d + repeated('0', k)) == number_of(d) * ten(k),
        all_digits(d + repeated('0', k)),
    decreases k,
{
    let s = d + repeated('0', k);
    assert forall|i: int| 0 <= i < s.len() implies is_digit(#[trigger] s[i]) by {
        if i < d.len() {
            assert(is_digit(d[i]));
        }
    }
    if k == 0 {
        assert(s =~= d);
        assert(ten(0) == 1);
        assert(number_of(d) * 1 == number_of(d));
    } else {
        lemma_zeros_behind(d, (k - 1) as nat);
        assert(s.drop_last() =~= d + repeated('0', (k - 1) as nat));
        assert(s.last() == '0');
        let a = number_of(d);
        let t = ten((k - 1) as nat);
        assert(10 * (a * t) == a * (10 * t)) by (nonlinear_arith);
        assert(ten(k) == 10 * t);
        assert(number_of(s) == number_of(s.drop_last()) * 10 + digit_value(s.last()));
    }
}

/// A decimal as ECMAScript writes it is read as that decimal.
proof fn lemma_ecma_read(n: nat, q: int)
    ensures
        literal_mag(ecma_digits(nat_text(n), nat_text(n).len() + q)) == Some(dec_mag(n, q)),
{
    let d = nat_text(n);
    lemma_nat_text(n);
    let len = d.len() as int;
    let point = len + q;
    let s = ecma_digits(d, point);
    assert forall|i: int| 0 <= i < d.len() implies is_digit(#[trigger] d[i]) by {}
    if len <= point <= 21 {
        let k = (point - len) as nat;
        lemma_zeros_behind(d, k);
        lemma_run_of(s, 0, s.len() as nat);
        assert(s.take(s.len() as int) + Seq::<char>::empty() =~= s);
        assert(dec_num(number_of(s), 0) == dec_num(n, q)) by {
            let t = ten(k);
            let p = pow2(UNIT as nat);
            assert((n * t) * 1 * p == n * t * p) by (nonlinear_arith);
            if q == 0 {
                assert(n * 1 * p == n * t * p) by (nonlinear_arith)
                    requires
                        t == 1,
                ;
            }
        }
        assert(dec_mag(number_of(s), 0) == dec_mag(n, q));
    } else if 0 < point <= 21 {
        assert(s =~= d.take(point) + seq!['.'] + d.skip(point));
        lemma_run_of(s, 0, point as nat);
        assert forall|i: int| point + 1 <= i < s.len() implies is_digit(#[trigger] s[i]) by {
            assert(s[i] == d[i - 1]);
        }
        lemma_run_of(s, point + 1, (len - point) as nat);
        assert(s.take(point) + s.subrange(point + 1, s.len() as int) =~= d);
    } else if -6 < point <= 0 {
        let k = (-point) as nat;
        let z = repeated('0', k);
        assert(s =~= seq!['0', '.'] + z + d);
        lemma_run_of(s, 0, 1);
        assert forall|i: int| 2 <= i < s.len() implies is_digit(#[trigger] s[i]) by {
            if i >= 2 + k {
                assert(s[i] == d[i - 2 - k]);
            }
        }
        lemma_run_of(s, 2, (k + len) as nat);
        let digits = s.take(1) + s.subrange(2, s.len() as int);
        assert(digits =~= repeated('0', k + 1) + d);
        crate::stdlib::integer_laws::lemma_zeros(k + 1, d);
    } else {
        lemma_ecma_exponent(n, q);
    }
}

proof fn lemma_ecma_exponent(n: nat, q: int)
    requires
        ({
            let point = nat_text(n).len() + q;
            point > 21 || point <= -6
        }),
    ensures
        literal_mag(ecma_digits(nat_text(n), nat_text(n).len() + q)) == Some(dec_mag(n, q)),
{
    let d = nat_text(n);
    lemma_nat_text(n);
    let len = d.len() as int;
    let point = len + q;
    let s = ecma_digits(d, point);
    assert forall|i: int| 0 <= i < d.len() implies is_digit(#[trigger] d[i]) by {}
    let e = point - 1;
    let sign = if e < 0 {
        '-'
    } else {
        '+'
    };
    let v = (if e < 0 {
        -e
    } else {
        e
    }) as nat;
    let t = nat_text(v);
    lemma_nat_text(v);
    assert forall|i: int| 0 <= i < t.len() implies is_digit(#[trigger] t[i]) by {}
    let head = if len == 1 {
        d
    } else {
        d.take(1) + seq!['.'] + d.skip(1)
    };
    let h = head.len() as int;
    assert(s =~= head + seq!['e'] + seq![sign] + t);
    assert(s[h] == 'e');
    assert(s[h + 1] == sign);
    assert(s.len() == h + 2 + t.len());
    assert(s.subrange(h + 2, s.len() as int) =~= t);
    assert forall|i: int| h + 2 <= i < s.len() implies is_digit(#[trigger] s[i]) by {
        assert(s[i] == t[i - h - 2]);
    }
    lemma_run_of(s, h + 2, t.len());
    assert(exponent_at(s, h) == Some((h + 2, s.len() as int)));
    assert(exponent_value(s, h, h + 2, s.len() as int) == e);
    assert(s[0] == d[0]);
    lemma_run_of(s, 0, 1);
    if len == 1 {
        assert(s.take(1) + Seq::<char>::empty() =~= d);
    } else {
        assert(s[1] == '.');
        assert forall|i: int| 2 <= i < h implies is_digit(#[trigger] s[i]) by {
            assert(s[i] == d[i - 1]);
        }
        lemma_run_of(s, 2, (len - 1) as nat);
        assert(s.take(1) + s.subrange(2, h) =~= d);
    }
}

/// Reading what a number was written as gives the number, for every finite
/// number but the negative zero, which is written without its sign.
pub proof fn law_number_text_reads_back(x: Number)
    requires
        x.finite(),
        !(x.zero() && x.negative()),
    ensures
        decimal_number(number_text(x)) == Some(x),
{
    if x.zero() {
        reveal_strlit("0");
        let s = "0"@;
        assert(s.len() == 1 && s[0] == '0');
        lemma_run_of(s, 0, 1);
        assert(s.take(1) + Seq::<char>::empty() =~= s);
        assert(s.drop_last() =~= Seq::empty());
        assert(number_of(s) == 0) by {
            assert(number_of(s.drop_last()) == 0);
        }
        lemma_zero_rounds_to_zero(0);
        assert(x == Number::make(false, 0));
    } else {
        let m = x.mag();
        law_shortest_exists(m);
        let (n, q) = shortest_of(m);
        lemma_ecma_read(n, q);
        let t = ecma_digits(nat_text(n), nat_text(n).len() + q);
        lemma_nat_text(n);
        assert(is_digit(nat_text(n)[0]));
        assert(t.len() > 0 && is_digit(t[0]));
        let s = number_text(x);
        if x.negative() {
            assert(s.skip(1) =~= t);
        }
        assert(x == Number::make(x.negative(), m));
    }
}

} // verus!
