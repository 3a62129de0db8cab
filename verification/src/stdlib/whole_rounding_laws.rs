//! Rounding to whole numbers: to the nearest, and halfway to the even one; down;
//! and up.
use vstd::arithmetic::div_mod::lemma_fundamental_div_mod_converse;
use vstd::arithmetic::power2::{lemma_pow2_adds, lemma_pow2_pos, pow2};
use vstd::prelude::*;

use super::args::arg;
use super::numeric::{
    ceil_result, floor_result, literal_or_zero, needed_number, pointed, power_of_ten, round_result, rounded_mag,
    rounds_up,
};
use super::picture_laws::lemma_number_added;
use super::rounding_laws::{lemma_fixed_read, lemma_positional, lemma_with_point, lemma_without_point, with_point};
use crate::decimal::{
    dec_mag, dec_num, fixed_text, fixed_value, half_even, lemma_exact_rounds, lemma_ten_positive, literal_mag,
    plain_text, shortest_of, ten,
};
use crate::number::{
    law_whole_numbers_are_exact, law_whole_sum, lemma_ratio_exists, round_ratio, scaled, Number, INFINITE, UNIT,
    WHOLE_LIMIT,
};
use crate::text::{all_digits, digit_value, is_digit, number_of};
use crate::value::Val;

verus! {

proof fn lemma_below(d: Seq<char>)
    requires
        all_digits(d),
    ensures
        number_of(d) < ten(d.len()),
        number_of(d) == 0 <==> forall|i: int| 0 <= i < d.len() ==> #[trigger] d[i] == '0',
    decreases d.len(),
{
    if d.len() > 0 {
        let rest = d.drop_last();
        assert forall|i: int| 0 <= i < rest.len() implies is_digit(#[trigger] rest[i]) by {
            assert(rest[i] == d[i]);
        }
        lemma_below(rest);
        assert(is_digit(d[d.len() - 1]));
        let last = digit_value(d.last());
        assert(0 <= last <= 9);
        assert(last == 0 <==> d.last() == '0');
        if number_of(d) == 0 {
            assert forall|i: int| 0 <= i < d.len() implies #[trigger] d[i] == '0' by {
                if i < rest.len() {
                    assert(rest[i] == d[i]);
                }
            }
        }
        if forall|i: int| 0 <= i < d.len() ==> #[trigger] d[i] == '0' {
            assert forall|i: int| 0 <= i < rest.len() implies #[trigger] rest[i] == '0' by {
                assert(rest[i] == d[i]);
            }
            assert(d[d.len() - 1] == '0');
        }
    }
}

/// The first digit behind the point decides, the others break a tie, and the
/// last digit before it after that: so halves go to the even number.
proof fn lemma_decides(a: Seq<char>, b: Seq<char>)
    requires
        a.len() > 0,
        b.len() > 0,
        all_digits(a),
        all_digits(b),
    ensures
        half_even(number_of(a + b), ten(b.len())) == number_of(a) + (if rounds_up(
            with_point(a, b),
            a.len() as int,
            0,
        ) {
            1nat
        } else {
            0
        }),
{
    let s = with_point(a, b);
    let dot = a.len() as int;
    let k = number_of(a);
    let f = number_of(b);
    let p = ten(b.len());
    lemma_number_added(a, b);
    lemma_below(b);
    lemma_ten_positive(b.len());
    let n = number_of(a + b);
    assert(n == k * p + f);
    lemma_fundamental_div_mod_converse(n as int, p as int, k as int, f as int);
    // the first digit
    let one = seq![b[0]];
    let rest = b.skip(1);
    assert(is_digit(b[0]));
    assert forall|i: int| 0 <= i < rest.len() implies is_digit(#[trigger] rest[i]) by {
        assert(rest[i] == b[i + 1]);
    }
    assert(one + rest =~= b);
    lemma_number_added(one, rest);
    lemma_below(rest);
    assert(one.drop_last() =~= Seq::empty());
    reveal_with_fuel(number_of, 2);
    let c = digit_value(b[0]);
    assert(number_of(one) == c);
    let t = ten(rest.len()) as int;
    let r = number_of(rest) as int;
    assert(p == 10 * t);
    assert(f == c * t + r);
    assert(s[dot + 1] == b[0]);
    assert(s[dot - 1] == a.last());
    // the others
    assert((exists|i: int| dot + 2 <= i < s.len() && s[i] != '0') <==> r != 0) by {
        if r != 0 {
            let i = choose|i: int| 0 <= i < rest.len() && #[trigger] rest[i] != '0';
            assert(s[dot + 2 + i] == rest[i]);
        }
        if exists|i: int| dot + 2 <= i < s.len() && s[i] != '0' {
            let i = choose|i: int| dot + 2 <= i < s.len() && s[i] != '0';
            assert(rest[i - dot - 2] == s[i]);
        }
    }
    // the last digit before the point
    assert(is_digit(a[a.len() - 1]));
    assert(k == 10 * number_of(a.drop_last()) + digit_value(a.last()));
    assert(k % 2 == digit_value(a.last()) % 2);
    if c < 5 {
        assert(c * t <= 4 * t) by (nonlinear_arith)
            requires
                c <= 4,
                t >= 0,
        ;
    } else if c > 5 {
        assert(c * t >= 6 * t) by (nonlinear_arith)
            requires
                c >= 6,
                t >= 0,
        ;
    } else {
        assert(c * t == 5 * t) by (nonlinear_arith)
            requires
                c == 5,
        ;
    }
    assert(0 <= r < t);
    assert(rounds_up(s, dot, 0) == (if c != 5 {
        c > 5
    } else {
        r != 0 || k % 2 != 0
    })) by {
        assert(s[dot + 1 + 0] == b[0]);
    }
    assert(n / p == k && n % p == f);
    assert(2 * f < p <==> c < 5);
    assert(2 * f == p <==> c == 5 && r == 0);
}

proof fn lemma_whole_mag(v: nat)
    requires
        v <= WHOLE_LIMIT,
    ensures
        Number::make(false, dec_mag(v, 0)) == Number::of_int(v as int),
        fixed_value(Number::of_int(v as int).mag(), 0) == v,
        literal_mag(fixed_text(Number::of_int(v as int).mag(), 0)) == Some(dec_mag(v, 0)),
{
    let u = pow2(UNIT as nat);
    lemma_pow2_pos(UNIT as nat);
    assert(dec_num(v, 0) == v * u) by (nonlinear_arith)
        requires
            dec_num(v, 0) == v * 1 * u,
    ;
    law_whole_numbers_are_exact(v as int);
    let m = Number::of_int(v as int).mag();
    assert(scaled(m) * ten(0) == v * u) by (nonlinear_arith)
        requires
            scaled(m) == v * u,
            ten(0) == 1,
    ;
    lemma_fundamental_div_mod_converse((v * u) as int, u as int, v as int, 0);
    lemma_fixed_read(m, 0);
}

proof fn lemma_rounded(x: Number)
    requires
        x.finite(),
        !x.zero(),
        shortest_of(x.mag()).1 < 0,
        half_even(shortest_of(x.mag()).0, ten((-shortest_of(x.mag()).1) as nat)) < WHOLE_LIMIT,
    ensures
        rounded_mag(x, 0) == Number::of_int(
            half_even(shortest_of(x.mag()).0, ten((-shortest_of(x.mag()).1) as nat)) as int,
        ),
{
    let m = x.mag();
    let (n, q) = shortest_of(m);
    let (a, b) = lemma_positional(n, q);
    let s = with_point(a, b);
    lemma_with_point(a, b);
    assert(plain_text(m) == s);
    assert(pointed(m) == s);
    let dot = a.len() as int;
    lemma_decides(a, b);
    let k = number_of(a);
    let up = rounds_up(s, dot, 0);
    assert(s.take(dot) =~= a);
    lemma_without_point(a);
    lemma_whole_mag(k);
    let base = literal_or_zero(a);
    assert(base == Number::of_int(k as int));
    lemma_whole_mag(1);
    assert(power_of_ten(0) == Number::of_int(1));
    law_whole_numbers_are_exact(k as int);
    if up {
        law_whole_sum(k as int, 1);
        law_whole_numbers_are_exact(1 + k as int);
        lemma_whole_mag(k + 1);
    }
}

/// `$round` gives the whole number nearest to the decimal that a number is
/// written as, and of two that are as near the even one.
pub proof fn law_round_half_even(x: Number)
    requires
        x.finite(),
        !x.zero(),
        shortest_of(x.mag()).1 < 0,
        half_even(shortest_of(x.mag()).0, ten((-shortest_of(x.mag()).1) as nat)) < WHOLE_LIMIT,
    ensures
        ({
            let (n, q) = shortest_of(x.mag());
            let whole = Number::of_int(half_even(n, ten((-q) as nat)) as int);
            round_result(seq![Val::Number(x)]) == Ok::<Val, Seq<char>>(
                Val::Number(
                    if x.negative() {
                        whole.neg_spec()
                    } else {
                        whole
                    },
                ),
            )
        }),
{
    lemma_rounded(x);
    let a = seq![Val::Number(x)];
    assert(needed_number(a) == Ok::<Option<Number>, Seq<char>>(Some(x)));
    assert(arg(a, 1) == Val::Undefined);
    law_whole_numbers_are_exact(0);
    assert(x.lt_spec(Number::of_int(0)) == x.negative());
}

/// Half to even is to the nearest, and halfway to the even one.
pub proof fn law_half_even(n: nat, d: nat)
    requires
        d > 0,
    ensures
        ({
            let r = half_even(n, d);
            &&& -(d as int) <= 2 * (r * d - n) <= d
            &&& (2 * (r * d - n) == d || 2 * (r * d - n) == -(d as int)) ==> r % 2 == 0
        }),
{
    let (q, m) = (n / d, n % d);
    vstd::arithmetic::div_mod::lemma_fundamental_div_mod(n as int, d as int);
    assert(d * q == q * d) by (nonlinear_arith);
    assert((q + 1) * d == q * d + d) by (nonlinear_arith);
}

// ── $floor and $ceil ─────────────────────────────────────────────────────────

/// A double with a fraction is small enough for its whole part to be counted
/// with exactly.
proof fn lemma_fractional(m: int)
    requires
        0 <= m < INFINITE,
        scaled(m) % pow2(UNIT as nat) != 0,
    ensures
        scaled(m) / pow2(UNIT as nat) + 1 < WHOLE_LIMIT,
{
    let h = 0x10_0000_0000_0000int;
    let e = m / h;
    let f = m % h;
    let u = pow2(UNIT as nat);
    lemma_pow2_pos(UNIT as nat);
    let x = (h + f) as nat;
    if e >= 1075 {
        let k = (e - 1075) as nat;
        lemma_pow2_adds(k, UNIT as nat);
        let p = pow2(k);
        assert(x * (p * u) == (x * p) * u) by (nonlinear_arith);
        lemma_fundamental_div_mod_converse(scaled(m) as int, u as int, (x * p) as int, 0);
    } else {
        let below = 0x10_0000_0000_0000nat;
        assert(scaled(m) < below * u) by {
            if e <= 0 {
                assert(f < below * u) by (nonlinear_arith)
                    requires
                        f < below,
                        u >= 1,
                ;
            } else {
                let k = (e - 1) as nat;
                lemma_pow2_adds(k, (1074 - k) as nat);
                lemma_pow2_pos(k);
                lemma_pow2_pos((1074 - k) as nat);
                let (p, r) = (pow2(k), pow2((1074 - k) as nat));
                assert(r >= 2) by {
                    lemma_pow2_adds(1, (1073 - k) as nat);
                    lemma_pow2_pos((1073 - k) as nat);
                    vstd::arithmetic::power2::lemma2_to64();
                }
                assert(x * p < below * (p * r)) by (nonlinear_arith)
                    requires
                        x < 2 * below,
                        r >= 2,
                        p > 0,
                ;
            }
        }
        vstd::arithmetic::div_mod::lemma_fundamental_div_mod(scaled(m) as int, u as int);
        let q = scaled(m) / u;
        vstd::arithmetic::div_mod::lemma_mod_bound(scaled(m) as int, u as int);
        assert(q < below) by (nonlinear_arith)
            requires
                u * q <= scaled(m) < below * u,
                u > 0,
        ;
    }
}

/// A whole number of either sign, as a double.
proof fn lemma_of_whole(negative: bool, q: nat)
    requires
        q <= WHOLE_LIMIT,
    ensures
        Number::of_whole(negative, q).finite(),
        Number::of_whole(negative, q).units() == (if negative {
            -(q * pow2(UNIT as nat))
        } else {
            (q * pow2(UNIT as nat)) as int
        }),
{
    law_whole_numbers_are_exact(q as int);
    let x = Number::of_int(q as int);
    let y = Number::of_whole(negative, q);
    let n = (q * pow2(UNIT as nat)) as int;
    lemma_ratio_exists(n, 1);
    assert(x.mag() == round_ratio(n, 1));
    assert(y == Number::make(negative, x.mag()));
    assert(y.mag() == x.mag() && y.negative() == negative);
}

/// The whole part of a number that has no fraction is the number.
proof fn lemma_already_whole(x: Number)
    requires
        x.finite(),
        !x.fractional(),
    ensures
        Number::of_whole(x.negative(), x.whole()) == x,
{
    let u = pow2(UNIT as nat);
    lemma_pow2_pos(UNIT as nat);
    vstd::arithmetic::div_mod::lemma_fundamental_div_mod(scaled(x.mag()) as int, u as int);
    let q = x.whole();
    assert(u * q == q * u) by (nonlinear_arith);
    lemma_exact_rounds(x.mag(), 1);
    assert(scaled(x.mag()) * 1 == scaled(x.mag()));
    assert(Number::make(x.negative(), x.mag()) == x);
}

/// `$floor` gives the greatest whole number that is not above a number, `$ceil`
/// the least that is not below it. In units, of which one is `2^UNIT`.
pub proof fn law_floor_and_ceil(x: Number)
    requires
        x.finite(),
    ensures
        ({
            let one = pow2(UNIT as nat) as int;
            &&& floor_result(seq![Val::Number(x)]) matches Ok(Val::Number(lo)) && lo.finite() && lo.units() % one == 0
                && lo.units() <= x.units() < lo.units() + one
            &&& ceil_result(seq![Val::Number(x)]) matches Ok(Val::Number(hi)) && hi.finite() && hi.units() % one == 0
                && hi.units() - one < x.units() <= hi.units()
        }),
{
    let one = pow2(UNIT as nat) as int;
    lemma_pow2_pos(UNIT as nat);
    let a = seq![Val::Number(x)];
    assert(needed_number(a) == Ok::<Option<Number>, Seq<char>>(Some(x)));
    let s = scaled(x.mag()) as int;
    vstd::arithmetic::div_mod::lemma_fundamental_div_mod(s, one);
    vstd::arithmetic::div_mod::lemma_mod_bound(s, one);
    let q = x.whole() as int;
    assert(one * q == q * one) by (nonlinear_arith);
    if x.fractional() {
        lemma_fractional(x.mag());
        lemma_of_whole(x.negative(), q as nat);
        lemma_of_whole(x.negative(), (q + 1) as nat);
        assert((q + 1) * one == q * one + one) by (nonlinear_arith);
        assert(-(q * one) == (-q) * one && -((q + 1) * one) == (-q - 1) * one) by (nonlinear_arith);
        vstd::arithmetic::div_mod::lemma_mod_multiples_basic(q, one);
        vstd::arithmetic::div_mod::lemma_mod_multiples_basic(q + 1, one);
        vstd::arithmetic::div_mod::lemma_mod_multiples_basic(-q, one);
        vstd::arithmetic::div_mod::lemma_mod_multiples_basic(-q - 1, one);
    } else {
        lemma_already_whole(x);
        assert(-(q * one) == (-q) * one) by (nonlinear_arith);
        vstd::arithmetic::div_mod::lemma_mod_multiples_basic(q, one);
        vstd::arithmetic::div_mod::lemma_mod_multiples_basic(-q, one);
    }
}

} // verus!
