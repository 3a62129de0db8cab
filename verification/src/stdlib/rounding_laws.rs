//! Rounding: what is rounded stays as it is, and rounding keeps the sign.
use vstd::arithmetic::power2::{lemma2_to64, lemma2_to64_rest, lemma_pow2_adds, lemma_pow2_pos, pow2};
use vstd::prelude::*;

use super::args::arg;
use super::integer_laws::lemma_zeros;
use super::numeric::{
    literal_or_zero, needed_number, pointed, power_of_ten, round_result, rounded_at, rounded_mag, rounded_to, rounds_up,
};
use crate::decimal::{
    dec_den, dec_mag, dec_num, fixed_text, fixed_value, law_shortest_exists, lemma_den_positive, lemma_dec_coarser,
    lemma_dec_monotone, lemma_exact_rounds, lemma_ratio_monotone, lemma_run_of, lemma_ten_positive,
    lemma_zero_rounds_to_zero, literal_mag, positional, shortest_of, ten,
};
use crate::number::{
    law_whole_numbers_come_back, lemma_ratio_exists, lemma_scaled_monotone, round_ratio, scaled, Number, INFINITE, UNIT,
};
use crate::text::{all_digits, find_char, is_digit, lemma_nat_text, nat_text, number_of, repeated};
use crate::value::Val;

verus! {

// ── Texts with a point ───────────────────────────────────────────────────────

/// A decimal: the digits before the point and those behind it.
pub open spec fn with_point(a: Seq<char>, b: Seq<char>) -> Seq<char> {
    a + seq!['.'] + b
}

proof fn lemma_point_found(s: Seq<char>, from: int, dot: int)
    requires
        0 <= from <= dot < s.len(),
        s[dot] == '.',
        forall|i: int| from <= i < dot ==> is_digit(#[trigger] s[i]),
    ensures
        find_char(s, '.', from) == Some(dot),
    decreases dot - from,
{
    if from < dot {
        assert(is_digit(s[from]));
        lemma_point_found(s, from + 1, dot);
    }
}

proof fn lemma_no_point(s: Seq<char>, from: int)
    requires
        0 <= from <= s.len(),
        all_digits(s),
    ensures
        find_char(s, '.', from) is None,
    decreases s.len() - from,
{
    if from < s.len() {
        assert(is_digit(s[from]));
        lemma_no_point(s, from + 1);
    }
}

/// Where the point of a decimal is, and what the decimal is read as.
pub proof fn lemma_with_point(a: Seq<char>, b: Seq<char>)
    requires
        a.len() > 0,
        all_digits(a),
        all_digits(b),
    ensures
        find_char(with_point(a, b), '.', 0) == Some(a.len() as int),
        literal_mag(with_point(a, b)) == Some(dec_mag(number_of(a + b), -(b.len() as int))),
{
    let s = with_point(a, b);
    let k = a.len() as int;
    assert forall|i: int| 0 <= i < k implies is_digit(#[trigger] s[i]) by {
        assert(is_digit(a[i]));
    }
    assert forall|i: int| k + 1 <= i < s.len() implies is_digit(#[trigger] s[i]) by {
        assert(is_digit(b[i - k - 1]));
    }
    lemma_point_found(s, 0, k);
    lemma_run_of(s, 0, a.len());
    lemma_run_of(s, k + 1, b.len());
    assert(s.subrange(k + 1, s.len() as int) =~= b);
    assert(s.take(k) + b =~= a + b);
}

/// What digits alone are read as.
pub proof fn lemma_without_point(a: Seq<char>)
    requires
        a.len() > 0,
        all_digits(a),
    ensures
        literal_mag(a) == Some(dec_mag(number_of(a), 0)),
{
    lemma_run_of(a, 0, a.len());
    assert(a.take(a.len() as int) + Seq::<char>::empty() =~= a);
}

/// The digits of a decimal before and behind the point.
pub proof fn lemma_positional(n: nat, q: int) -> (r: (Seq<char>, Seq<char>))
    requires
        q < 0,
    ensures
        r.0.len() > 0,
        r.1.len() == -q,
        all_digits(r.0),
        all_digits(r.1),
        number_of(r.0 + r.1) == n,
        positional(n, q) == with_point(r.0, r.1),
{
    let d = nat_text(n);
    lemma_nat_text(n);
    let point = d.len() + q;
    if point > 0 {
        let (a, b) = (d.take(point), d.skip(point));
        assert(a + b =~= d);
        (a, b)
    } else {
        let k = (-point) as nat;
        let (a, b) = (seq!['0'], repeated('0', k) + d);
        lemma_zeros(k, d);
        lemma_zeros(k + 1, d);
        assert(a + b =~= repeated('0', k + 1) + d);
        assert(positional(n, q) =~= with_point(a, b));
        (a, b)
    }
}

/// A number at a fixed number of places is read as the nearest double.
pub proof fn lemma_fixed_read(m: int, places: nat)
    ensures
        literal_mag(fixed_text(m, places)) == Some(dec_mag(fixed_value(m, places), -(places as int))),
{
    let v = fixed_value(m, places);
    let d = nat_text(v);
    lemma_nat_text(v);
    if places == 0 {
        lemma_without_point(d);
    } else {
        let p = if d.len() <= places {
            repeated('0', (places + 1 - d.len()) as nat) + d
        } else {
            d
        };
        if d.len() <= places {
            lemma_zeros((places + 1 - d.len()) as nat, d);
        }
        let (a, b) = (p.take(p.len() - places), p.skip(p.len() - places));
        assert(a + b =~= p);
        lemma_with_point(a, b);
        assert(fixed_text(m, places) =~= with_point(a, b));
    }
}

/// Digits that are left out make a number no smaller.
proof fn lemma_prefix(x: Seq<char>, y: Seq<char>)
    requires
        all_digits(y),
    ensures
        number_of(x) * ten(y.len()) <= number_of(x + y),
    decreases y.len(),
{
    if y.len() == 0 {
        assert(x + y =~= x);
        assert(number_of(x) * 1 == number_of(x));
    } else {
        lemma_prefix(x, y.drop_last());
        assert((x + y).drop_last() =~= x + y.drop_last());
        assert(is_digit(y[y.len() - 1]));
        assert((x + y).last() == y.last());
        let a = number_of(x);
        let t = ten((y.len() - 1) as nat);
        assert(a * (10 * t) == 10 * (a * t)) by (nonlinear_arith);
    }
}

// ── Decimal places ───────────────────────────────────────────────────────────

/// Where the point stands in the text of a double that some decimal with so
/// many places is read as: no further from the end.
proof fn lemma_few_places(m: int, v: nat, places: nat)
    requires
        0 <= m < INFINITE,
        dec_mag(v, -(places as int)) == m,
    ensures
        ({
            let s = pointed(m);
            s.len() - find_char(s, '.', 0)->0 - 1 <= places
        }),
{
    let s = pointed(m);
    if m == 0 {
        let zero = seq!['0'];
        assert(all_digits(zero));
        lemma_no_point(zero, 0);
        assert(s =~= with_point(zero, Seq::empty()));
        lemma_with_point(zero, Seq::empty());
    } else {
        law_shortest_exists(m);
        let (n, q) = shortest_of(m);
        assert(q >= -(places as int));
        if q >= 0 {
            lemma_nat_text(n);
            let d = nat_text(n) + repeated('0', q as nat);
            assert forall|i: int| 0 <= i < d.len() implies is_digit(#[trigger] d[i]) by {
                if i < nat_text(n).len() {
                    assert(is_digit(nat_text(n)[i]));
                }
            }
            lemma_no_point(d, 0);
            assert(s =~= with_point(d, Seq::empty()));
            lemma_with_point(d, Seq::empty());
        } else {
            let (a, b) = lemma_positional(n, q);
            lemma_with_point(a, b);
        }
    }
}

/// The text of a double with more places than asked for: its scale, and the
/// digits before and behind the point.
proof fn lemma_many_places(m: int, places: nat) -> (r: (nat, int, Seq<char>, Seq<char>))
    requires
        0 <= m < INFINITE,
        ({
            let s = pointed(m);
            s.len() - find_char(s, '.', 0)->0 - 1 > places
        }),
    ensures
        m > 0,
        r.1 < -(places as int),
        dec_mag(r.0, r.1) == m,
        forall|n: nat| #[trigger] dec_mag(n, 0) != m,
        r.2.len() > 0,
        r.3.len() == -r.1,
        all_digits(r.2),
        all_digits(r.3),
        number_of(r.2 + r.3) == r.0,
        pointed(m) == with_point(r.2, r.3),
        find_char(pointed(m), '.', 0) == Some(r.2.len() as int),
{
    if m == 0 {
        lemma_zero_rounds_to_zero(0);
        lemma_few_places(m, 0, 0);
    }
    law_shortest_exists(m);
    let (n, q) = shortest_of(m);
    if q >= 0 {
        lemma_dec_coarser(n, 0, q as nat);
        lemma_few_places(m, n * ten(q as nat), 0);
    }
    let (a, b) = lemma_positional(n, q);
    lemma_with_point(a, b);
    (n, q, a, b)
}

// ── Sizes ────────────────────────────────────────────────────────────────────

/// The patterns of powers of two.
proof fn lemma_scaled_power(e: int)
    requires
        1 <= e <= 2047,
    ensures
        scaled(e * 0x10_0000_0000_0000) == pow2((51 + e) as nat),
        round_ratio(pow2((51 + e) as nat) as int, 1) == e * 0x10_0000_0000_0000,
{
    let m = e * 0x10_0000_0000_0000;
    assert(m / 0x10_0000_0000_0000 == e && m % 0x10_0000_0000_0000 == 0);
    lemma2_to64();
    lemma2_to64_rest();
    lemma_pow2_adds(52, (e - 1) as nat);
    lemma_exact_rounds(m, 1);
    assert(scaled(m) * 1 == scaled(m));
}

/// A double with digits behind the point is not large.
proof fn lemma_fraction_is_small(m: int)
    requires
        0 < m < INFINITE,
        forall|n: nat| #[trigger] dec_mag(n, 0) != m,
    ensures
        scaled(m) < pow2(1126),
{
    let h = 0x10_0000_0000_0000int;
    let e = m / h;
    let f = m % h;
    if e >= 1075 {
        let k = (e - 1075) as nat;
        let u = pow2(UNIT as nat);
        lemma_pow2_adds(k, UNIT as nat);
        let x = (h + f) as nat;
        let n = x * pow2(k);
        let p = pow2(k);
        assert(x * p * 1 * u == x * (p * u)) by (nonlinear_arith);
        assert(dec_num(n, 0) == scaled(m));
        lemma_exact_rounds(m, 1);
        assert(scaled(m) * 1 == scaled(m));
        assert(dec_mag(n, 0) == m);
    } else {
        lemma_scaled_power(1075);
        lemma_scaled_monotone(m, 1075 * h);
    }
}

/// A tenth, a hundredth and so on are at most one.
proof fn lemma_small_power(places: nat)
    ensures
        0 <= dec_mag(1, -(places as int)) <= 1023 * 0x10_0000_0000_0000,
        scaled(dec_mag(1, -(places as int))) <= pow2(UNIT as nat),
{
    let q = -(places as int);
    let u = pow2(UNIT as nat) as int;
    let d = dec_den(q);
    lemma_den_positive(q);
    lemma_pow2_pos(UNIT as nat);
    assert(dec_num(1, q) == u) by (nonlinear_arith)
        requires
            dec_num(1, q) == 1 * 1 * u,
    ;
    assert(u <= u * d) by (nonlinear_arith)
        requires
            d >= 1,
            u >= 0,
    ;
    lemma_ratio_monotone(u, u * d, d);
    lemma_scaled_power(1023);
    lemma_exact_rounds(1023int * 0x10_0000_0000_0000, d);
    lemma_ratio_exists(u, d);
    let m = dec_mag(1, q);
    if m < 1023 * 0x10_0000_0000_0000 {
        lemma_scaled_monotone(m, 1023int * 0x10_0000_0000_0000);
    }
}

/// Something of a size is rounded to something of that size.
proof fn lemma_size_kept(n: int, d: int, e: int)
    requires
        d > 0,
        1 <= e <= 2047,
        0 <= n <= pow2((51 + e) as nat) * d,
    ensures
        0 <= round_ratio(n, d) <= e * 0x10_0000_0000_0000,
        scaled(round_ratio(n, d)) <= pow2((51 + e) as nat),
{
    let top = pow2((51 + e) as nat) as int;
    lemma_scaled_power(e);
    lemma_exact_rounds(e * 0x10_0000_0000_0000, d);
    lemma_ratio_monotone(n, top * d, d);
    lemma_ratio_exists(n, d);
    let m = round_ratio(n, d);
    if m < e * 0x10_0000_0000_0000 {
        lemma_scaled_monotone(m, e * 0x10_0000_0000_0000);
    }
}

/// What is written at a fixed number of places is hardly larger.
proof fn lemma_fixed_is_small(m: int, places: nat)
    requires
        0 <= m,
        scaled(m) <= pow2(1127),
    ensures
        0 <= dec_mag(fixed_value(m, places), -(places as int)) < INFINITE,
{
    let q = -(places as int);
    let v = fixed_value(m, places) as int;
    let u = pow2(UNIT as nat) as int;
    let t = ten(places) as int;
    let x = scaled(m) as int;
    lemma_pow2_pos(UNIT as nat);
    lemma_ten_positive(places);
    lemma_den_positive(q);
    assert(dec_den(q) == t) by {
        if places == 0 {
            assert(ten(0) == 1);
        }
    }
    assert(v * u <= x * t + u) by (nonlinear_arith)
        requires
            u > 0,
            v <= (x * t) / u + 1,
    ;
    assert(dec_num(v as nat, q) == v * u) by (nonlinear_arith)
        requires
            dec_num(v as nat, q) == v * 1 * u,
    ;
    lemma_pow2_adds(1, 1127);
    lemma2_to64();
    vstd::arithmetic::power2::lemma_pow2_strictly_increases(UNIT as nat, 1127);
    let top = pow2(1128) as int;
    assert(x * t + u <= top * t) by (nonlinear_arith)
        requires
            x + u <= top,
            t >= 1,
            u >= 0,
    ;
    assert(0 <= v * u) by (nonlinear_arith)
        requires
            v >= 0,
            u >= 0,
    ;
    lemma_size_kept(v * u, t, 1077);
}

// ── Rounding ─────────────────────────────────────────────────────────────────

/// What is left of a double after the digits that are not kept, and one more at
/// the last place.
#[verifier::spinoff_prover]
#[verifier::rlimit(30)]
proof fn lemma_moved(n: Number, places: nat)
    requires
        n.finite(),
        ({
            let s = pointed(n.mag());
            s.len() - find_char(s, '.', 0)->0 - 1 > places
        }),
    ensures
        ({
            let s = pointed(n.mag());
            let dot = find_char(s, '.', 0)->0;
            let kept = s.take(
                if places == 0 {
                    dot
                } else {
                    dot + 1 + places
                },
            );
            let base = literal_or_zero(kept);
            let up = base.plus_spec(power_of_ten(-(places as int)));
            &&& base.finite() && !base.negative() && scaled(base.mag()) <= pow2(1127)
            &&& up.finite() && !up.negative() && scaled(up.mag()) <= pow2(1127)
        }),
{
    let m = n.mag();
    let (v, q, a, b) = lemma_many_places(m, places);
    let s = pointed(m);
    let dot = a.len() as int;
    let c = b.take(places as int);
    let kept = s.take(
        if places == 0 {
            dot
        } else {
            dot + 1 + places
        },
    );
    assert forall|i: int| 0 <= i < c.len() implies is_digit(#[trigger] c[i]) by {
        assert(is_digit(b[i]));
    }
    if places == 0 {
        assert(kept =~= a);
        assert(a + c =~= a);
        lemma_without_point(a);
    } else {
        assert(kept =~= with_point(a, c));
        lemma_with_point(a, c);
    }
    let x = number_of(a + c);
    let k = dec_mag(x, -(places as int));
    assert(literal_mag(kept) == Some(k));
    let rest = b.skip(places as int);
    assert forall|i: int| 0 <= i < rest.len() implies is_digit(#[trigger] rest[i]) by {
        assert(is_digit(b[i + places]));
    }
    assert((a + c) + rest =~= a + b);
    lemma_prefix(a + c, rest);
    lemma_dec_coarser(x, q, rest.len());
    lemma_dec_monotone(x * ten(rest.len()), v, q);
    assert(k <= m);
    lemma_fraction_is_small(m);
    lemma_den_positive(-(places as int));
    lemma_pow2_pos(UNIT as nat);
    assert(dec_num(x, -(places as int)) >= 0) by (nonlinear_arith)
        requires
            dec_num(x, -(places as int)) == x * 1 * pow2(UNIT as nat),
    ;
    lemma_ratio_exists(dec_num(x, -(places as int)), dec_den(-(places as int)));
    if k < m {
        lemma_scaled_monotone(k, m);
    }
    lemma_pow2_adds(1, 1126);
    lemma2_to64();
    vstd::arithmetic::power2::lemma_pow2_strictly_increases(UNIT as nat, 1126);
    let base = literal_or_zero(kept);
    assert(base.mag() == k && !base.negative());
    let t = power_of_ten(-(places as int));
    lemma_small_power(places);
    assert(t.mag() == dec_mag(1, -(places as int)) && !t.negative());
    let u = base.units() + t.units();
    lemma_size_kept(u, 1, 1076);
}

/// A rounded magnitude is a finite number with so many places at most, which
/// stays as it is.
proof fn lemma_rounded_mag(n: Number, places: int)
    requires
        n.finite(),
        places >= 0,
    ensures
        rounded_mag(n, places).finite(),
        !rounded_mag(n, places).negative(),
        n.zero() ==> rounded_mag(n, places).zero(),
        rounded_mag(rounded_mag(n, places), places) == rounded_mag(n, places),
{
    if n.zero() {
        lemma_zero_rounds_to_zero(0);
        lemma_few_places(0, 0, 0);
    }
    let s = pointed(n.mag());
    let dot = find_char(s, '.', 0)->0;
    let r = rounded_mag(n, places);
    if places < s.len() - dot - 1 {
        lemma_moved(n, places as nat);
        let kept = s.take(
            if places == 0 {
                dot
            } else {
                dot + 1 + places
            },
        );
        let base = literal_or_zero(kept);
        let moved = if rounds_up(s, dot, places) {
            base.plus_spec(power_of_ten(-places))
        } else {
            base
        };
        let v = fixed_value(moved.mag(), places as nat);
        lemma_fixed_read(moved.mag(), places as nat);
        lemma_fixed_is_small(moved.mag(), places as nat);
        assert(r.mag() == dec_mag(v, -places) && !r.negative());
        lemma_few_places(r.mag(), v, places as nat);
    }
}

proof fn lemma_zero_number()
    ensures
        Number::of_int(0) == Number::make(false, 0),
{
    assert(0 * pow2(UNIT as nat) == 0);
    lemma_exact_rounds(0, 1);
}

/// What `$round` gives for a number and a number of places.
proof fn lemma_round_result(n: Number, places: int)
    requires
        0 <= places <= i32::MAX,
    ensures
        round_result(seq![Val::Number(n), Val::Number(Number::of_int(places))]) == Ok::<Val, Seq<char>>(
            Val::Number(rounded_at(n, places)),
        ),
{
    let a = seq![Val::Number(n), Val::Number(Number::of_int(places))];
    law_whole_numbers_come_back(places, i32::MIN as int, i32::MAX as int);
    assert(needed_number(a) == Ok::<Option<Number>, Seq<char>>(Some(n)));
    assert(arg(a, 1) == Val::Number(Number::of_int(places)));
}

/// A magnitude with the sign of a number, if the number is below zero.
spec fn signed(n: Number, m: Number) -> Number {
    if n.key() < 0 {
        m.neg_spec()
    } else {
        m
    }
}

proof fn lemma_signed(n: Number, places: int)
    requires
        n.finite(),
        places >= 0,
    ensures
        rounded_at(n, places) == signed(n, rounded_mag(n, places)),
{
    lemma_zero_number();
    let m = rounded_mag(n, places);
    assert(rounded_to(n, places) == signed(n, m));
}

proof fn lemma_same_mag(a: Number, b: Number, places: int)
    requires
        a.mag() == b.mag(),
    ensures
        rounded_mag(a, places) == rounded_mag(b, places),
{
}

proof fn lemma_signs(n: Number, m: Number)
    requires
        n.finite(),
        m.finite(),
        !m.negative(),
        n.zero() ==> m.zero(),
    ensures
        ({
            let r = signed(n, m);
            &&& r.finite() && r.mag() == m.mag()
            &&& n.neg_spec().finite() && n.neg_spec().mag() == n.mag()
            &&& signed(r, m).eq_value(r)
            &&& !r.zero() ==> signed(r, m) == r
            &&& signed(n.neg_spec(), m).eq_value(r.neg_spec())
            &&& !n.zero() ==> signed(n.neg_spec(), m) == r.neg_spec()
        }),
{
    let (x, y) = (n.neg_spec(), m.neg_spec());
    assert(x.mag() == n.mag() && x.negative() == !n.negative());
    assert(y.mag() == m.mag() && y.negative());
    assert(y.neg_spec().bits == m.bits);
    assert(y.neg_spec() == m);
}

/// Rounding to a number of decimal places gives a finite number. To round that
/// again changes nothing, but that the negative zero loses its sign. To round
/// the opposite of a number gives the opposite, but that zero has no sign.
pub proof fn law_rounding(n: Number, places: int)
    requires
        n.finite(),
        0 <= places <= i32::MAX,
    ensures
        ({
            let p = Val::Number(Number::of_int(places));
            let r = rounded_at(n, places);
            let again = rounded_at(r, places);
            let opposite = rounded_at(n.neg_spec(), places);
            &&& round_result(seq![Val::Number(n), p]) == Ok::<Val, Seq<char>>(Val::Number(r))
            &&& r.finite()
            &&& round_result(seq![Val::Number(r), p]) == Ok::<Val, Seq<char>>(Val::Number(again))
            &&& again.eq_value(r)
            &&& !r.zero() ==> again == r
            &&& round_result(seq![Val::Number(n.neg_spec()), p]) == Ok::<Val, Seq<char>>(Val::Number(opposite))
            &&& opposite.eq_value(r.neg_spec())
            &&& !n.zero() ==> opposite == r.neg_spec()
        }),
{
    let r = rounded_at(n, places);
    let m = rounded_mag(n, places);
    lemma_rounded_mag(n, places);
    lemma_signs(n, m);
    lemma_signed(n, places);
    lemma_signed(n.neg_spec(), places);
    lemma_signed(r, places);
    lemma_same_mag(n, n.neg_spec(), places);
    lemma_same_mag(m, r, places);
    lemma_round_result(n, places);
    lemma_round_result(r, places);
    lemma_round_result(n.neg_spec(), places);
}

} // verus!
