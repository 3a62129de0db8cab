//! What `$formatNumber` writes is the number, rounded to as many decimals as the
//! picture has places for.
use vstd::prelude::*;

use super::format_integer::in_other_family;
use super::format_number::{
    active, at_least_zero, behind, cut, digit_place, capped_product, digits_by, family_digit, format_number, gcd_all,
    groups_of, in_family, later_groups, regular_interval, inserted, integer_grouped, literally, mandatory_count,
    marks_from, occurrences, parsed_picture, place_count, place_of, region_edge, region_end, region_start, regularly,
    run_end, run_start, scale_of, split_point, stripped, value_text, with_decimal, without_decimal, zero_padded, Marks,
    Parts, Plan,
};
use super::numeric::rounded_at;
use super::rounding_laws::law_rounding;
use crate::decimal::{fixed_text, fixed_value, lemma_ten_adds, ten};
use crate::number::Number;
use crate::text::{
    all_digits, digit_value, find_char, is_digit, lemma_nat_text, nat_text, number_of, occurs_at, repeated,
    scalar_value, split_from,
};
use crate::value::Val;

verus! {

// ── Reading digits back ──────────────────────────────────────────────────────

/// What the characters of a number say, read from left to right.
pub struct Shown {
    /// All digits together, as a whole number.
    pub value: nat,
    /// How many digits stand before the decimal separator.
    pub whole: nat,
    /// How many digits stand behind it.
    pub places: nat,
    /// Whether there is a decimal separator.
    pub after: bool,
    /// Whether there are only digits, grouping separators and at most one decimal
    /// separator.
    pub clean: bool,
}

pub open spec fn nothing_shown() -> Shown {
    Shown { value: 0, whole: 0, places: 0, after: false, clean: true }
}

/// What is said with one more character. Grouping separators say nothing.
pub open spec fn with_char(m: Marks, w: Shown, c: char) -> Shown {
    if family_digit(m, c) {
        Shown {
            value: 10 * w.value + (c as int - m.zero as int) as nat,
            whole: if w.after {
                w.whole
            } else {
                w.whole + 1
            },
            places: if w.after {
                w.places + 1
            } else {
                w.places
            },
            ..w
        }
    } else if c == m.decimal {
        Shown { after: true, clean: w.clean && !w.after, ..w }
    } else if c == m.grouping {
        w
    } else {
        Shown { clean: false, ..w }
    }
}

/// What is said with more characters.
pub open spec fn with_chars(m: Marks, w: Shown, s: Seq<char>) -> Shown
    decreases s.len(),
{
    if s.len() == 0 {
        w
    } else {
        with_char(m, with_chars(m, w, s.drop_last()), s.last())
    }
}

/// What the characters of a number say.
pub open spec fn shown(m: Marks, s: Seq<char>) -> Shown {
    with_chars(m, nothing_shown(), s)
}

/// Whether the marks of a picture can be told apart from one another and from
/// the digits, which are ten characters in a row.
pub open spec fn told_apart(m: Marks) -> bool {
    &&& m.decimal != m.grouping
    &&& !family_digit(m, m.decimal)
    &&& !family_digit(m, m.grouping)
    &&& !family_digit(m, '.')
    &&& m.zero as int + 9 < 0xd800 || 0xe000 <= m.zero as int <= 0x10ffff - 9
}

proof fn lemma_chars_added(m: Marks, w: Shown, a: Seq<char>, b: Seq<char>)
    ensures
        with_chars(m, w, a + b) == with_chars(m, with_chars(m, w, a), b),
    decreases b.len(),
{
    if b.len() == 0 {
        assert(a + b =~= a);
    } else {
        lemma_chars_added(m, w, a, b.drop_last());
        assert((a + b).drop_last() =~= a + b.drop_last());
        assert((a + b).last() == b.last());
    }
}

proof fn lemma_one_char(m: Marks, w: Shown, c: char)
    ensures
        with_chars(m, w, seq![c]) == with_char(m, w, c),
{
    assert(seq![c].drop_last() =~= Seq::empty());
    reveal_with_fuel(with_chars, 2);
}

/// A grouping separator put in says nothing.
proof fn lemma_inserted(m: Marks, s: Seq<char>, at: int)
    requires
        told_apart(m),
    ensures
        shown(m, inserted(s, at, m.grouping)) == shown(m, s),
{
    let i = split_point(at, s.len() as int);
    let (a, b) = (s.take(i), s.skip(i));
    assert(s =~= a + b);
    assert(inserted(s, at, m.grouping) =~= a + seq![m.grouping] + b);
    lemma_chars_added(m, nothing_shown(), a, b);
    lemma_chars_added(m, nothing_shown(), a + seq![m.grouping], b);
    lemma_chars_added(m, nothing_shown(), a, seq![m.grouping]);
    lemma_one_char(m, shown(m, a), m.grouping);
}

proof fn lemma_regularly(m: Marks, s: Seq<char>, d: int, interval: int, k: int, groups: int)
    requires
        told_apart(m),
    ensures
        shown(m, regularly(s, m.grouping, d, interval, k, groups)) == shown(m, s),
    decreases groups - k + 1,
{
    if k <= groups {
        let at = d - k * interval;
        lemma_inserted(m, s, at);
        lemma_regularly(m, inserted(s, at, m.grouping), d, interval, k + 1, groups);
    }
}

proof fn lemma_literally(m: Marks, s: Seq<char>, d: int, groups: Seq<usize>, k: int)
    requires
        told_apart(m),
    ensures
        shown(m, literally(s, m.grouping, d, groups, k)) == shown(m, s),
    decreases groups.len() - k,
{
    if 0 <= k < groups.len() {
        let at = d + k - groups[k];
        lemma_inserted(m, s, at);
        lemma_literally(m, inserted(s, at, m.grouping), d, groups, k + 1);
    }
}

proof fn lemma_behind(m: Marks, s: Seq<char>, d: int, groups: Seq<usize>, k: int)
    requires
        told_apart(m),
    ensures
        shown(m, behind(s, m.grouping, d, groups, k)) == shown(m, s),
    decreases groups.len() - k,
{
    if 0 <= k < groups.len() {
        let at = groups[k] + d + 1;
        lemma_inserted(m, s, at);
        lemma_behind(m, inserted(s, at, m.grouping), d, groups, k + 1);
    }
}

// ── Zeros ────────────────────────────────────────────────────────────────────

/// Zeros before the decimal separator add digits to a number that has none yet,
/// and nothing to its value; those behind it move the value.
proof fn lemma_zeros(m: Marks, w: Shown, k: nat)
    requires
        told_apart(m),
    ensures
        w.value == 0 && !w.after ==> with_chars(m, w, repeated(m.zero, k)) == (Shown { whole: w.whole + k, ..w }),
        w.after ==> with_chars(m, w, repeated(m.zero, k)) == (Shown {
            value: w.value * ten(k),
            places: w.places + k,
            ..w
        }),
    decreases k,
{
    let s = repeated(m.zero, k);
    if k == 0 {
        assert(w.value * 1 == w.value) by (nonlinear_arith);
    } else {
        assert(s.drop_last() =~= repeated(m.zero, (k - 1) as nat));
        lemma_zeros(m, w, (k - 1) as nat);
        assert(s.last() == m.zero);
        let t = ten((k - 1) as nat);
        let v = w.value;
        assert(10 * (v * t) == v * (10 * t)) by (nonlinear_arith);
    }
}

/// What is said by digits goes by the family that they are in.
proof fn lemma_digits(m: Marks, w: Shown, d: Seq<char>)
    requires
        told_apart(m),
        all_digits(d),
    ensures
        with_chars(m, w, in_family(d, m.zero)) == (Shown {
            value: w.value * ten(d.len()) + number_of(d),
            whole: if w.after {
                w.whole
            } else {
                w.whole + d.len()
            },
            places: if w.after {
                w.places + d.len()
            } else {
                w.places
            },
            ..w
        }),
    decreases d.len(),
{
    let s = in_family(d, m.zero);
    if d.len() == 0 {
        assert(w.value * 1 == w.value) by (nonlinear_arith);
    } else {
        let rest = d.drop_last();
        assert(s.drop_last() =~= in_family(rest, m.zero));
        assert forall|i: int| 0 <= i < rest.len() implies is_digit(#[trigger] rest[i]) by {
            assert(rest[i] == d[i]);
        }
        lemma_digits(m, w, rest);
        let c = d.last();
        assert(is_digit(c));
        let x = digit_value(c);
        assert(scalar_value(m.zero as int + x));
        assert(s.last() == in_other_family(c, m.zero));
        let t = ten(rest.len());
        let v = w.value;
        let n = number_of(rest);
        assert(10 * (v * t + n) == v * (10 * t) + 10 * n) by (nonlinear_arith);
    }
}

pub proof fn lemma_number_added(a: Seq<char>, b: Seq<char>)
    requires
        all_digits(a),
        all_digits(b),
    ensures
        number_of(a + b) == number_of(a) * ten(b.len()) + number_of(b),
        all_digits(a + b),
    decreases b.len(),
{
    if b.len() == 0 {
        assert(a + b =~= a);
        assert(number_of(a) * 1 == number_of(a)) by (nonlinear_arith);
    } else {
        let rest = b.drop_last();
        assert forall|i: int| 0 <= i < rest.len() implies is_digit(#[trigger] rest[i]) by {
            assert(rest[i] == b[i]);
        }
        lemma_number_added(a, rest);
        assert((a + b).drop_last() =~= a + rest);
        assert((a + b).last() == b.last());
        assert(is_digit(b.last()));
        let (x, t, n) = (number_of(a), ten(rest.len()), number_of(rest));
        assert(10 * (x * t + n) == x * (10 * t) + 10 * n) by (nonlinear_arith);
    }
}

proof fn lemma_more_whole(m: Marks, w: Shown, k: nat, s: Seq<char>)
    ensures
        with_chars(m, Shown { whole: w.whole + k, ..w }, s) == (Shown {
            whole: with_chars(m, w, s).whole + k,
            ..with_chars(m, w, s)
        }),
    decreases s.len(),
{
    if s.len() > 0 {
        lemma_more_whole(m, w, k, s.drop_last());
    }
}

proof fn lemma_no_places_yet(m: Marks, s: Seq<char>)
    ensures
        !shown(m, s).after ==> shown(m, s).places == 0,
    decreases s.len(),
{
    if s.len() > 0 {
        lemma_no_places_yet(m, s.drop_last());
    }
}

// ── The digits of a number ───────────────────────────────────────────────────

proof fn lemma_point_at(s: Seq<char>, c: char, from: int, i: int)
    requires
        0 <= from <= i < s.len(),
        s[i] == c,
        forall|k: int| from <= k < i ==> s[k] != c,
    ensures
        find_char(s, c, from) == Some(i),
    decreases i - from,
{
    if from < i {
        lemma_point_at(s, c, from + 1, i);
    }
}

proof fn lemma_nowhere(s: Seq<char>, c: char, from: int)
    requires
        0 <= from,
        forall|k: int| from <= k < s.len() ==> s[k] != c,
    ensures
        find_char(s, c, from) is None,
    decreases s.len() - from,
{
    if from < s.len() {
        lemma_nowhere(s, c, from + 1);
    }
}

proof fn lemma_family(m: Marks, d: Seq<char>)
    requires
        told_apart(m),
        all_digits(d),
    ensures
        in_family(d, m.zero).len() == d.len(),
        forall|i: int| 0 <= i < d.len() ==> family_digit(m, #[trigger] in_family(d, m.zero)[i]),
        forall|i: int|
            0 <= i < d.len() ==> #[trigger] in_family(d, m.zero)[i] as int - m.zero as int == digit_value(d[i]),
{
    assert forall|i: int| 0 <= i < d.len() implies family_digit(m, #[trigger] in_family(d, m.zero)[i]) && in_family(
        d,
        m.zero,
    )[i] as int - m.zero as int == digit_value(d[i]) by {
        assert(is_digit(d[i]));
        assert(in_family(d, m.zero)[i] == in_other_family(d[i], m.zero));
    }
}

/// The text of a magnitude: its digits before the separator and those behind it.
proof fn lemma_written(m: Marks, mag: int, n: nat) -> (r: (Seq<char>, Seq<char>))
    requires
        told_apart(m),
    ensures
        all_digits(r.0),
        all_digits(r.1),
        r.1.len() == n,
        number_of(r.0 + r.1) == fixed_value(mag, n),
        with_decimal(in_family(fixed_text(mag, n), m.zero), m.decimal) == in_family(r.0, m.zero) + seq![m.decimal]
            + in_family(r.1, m.zero),
{
    let v = fixed_value(mag, n);
    let d = nat_text(v);
    lemma_nat_text(v);
    let t = in_family(fixed_text(mag, n), m.zero);
    if n == 0 {
        let e = Seq::<char>::empty();
        assert(d + e =~= d);
        lemma_family(m, d);
        lemma_nowhere(t, '.', 0);
        assert(t.push(m.decimal) =~= in_family(d, m.zero) + seq![m.decimal] + in_family(e, m.zero));
        (d, e)
    } else {
        let k = (n + 1 - d.len()) as nat;
        let p = if d.len() <= n {
            super::integer_laws::lemma_zeros(k, d);
            repeated('0', k) + d
        } else {
            d
        };
        let cut = p.len() - n;
        let (a, b) = (p.take(cut), p.skip(cut));
        assert(a + b =~= p);
        assert forall|i: int| 0 <= i < a.len() implies is_digit(#[trigger] a[i]) by {
            assert(a[i] == p[i]);
        }
        assert forall|i: int| 0 <= i < b.len() implies is_digit(#[trigger] b[i]) by {
            assert(b[i] == p[cut + i]);
        }
        lemma_family(m, a);
        lemma_family(m, b);
        let (x, y) = (in_family(a, m.zero), in_family(b, m.zero));
        assert(fixed_text(mag, n) =~= a + seq!['.'] + b);
        assert(in_other_family('.', m.zero) == '.');
        assert(t =~= x + seq!['.'] + y);
        lemma_point_at(t, '.', 0, x.len() as int);
        assert(t.update(x.len() as int, m.decimal) =~= x + seq![m.decimal] + y);
        (a, b)
    }
}

proof fn lemma_run_end(s: Seq<char>, c: char, i: int, stop: int)
    requires
        0 <= i <= stop < s.len(),
        s[stop] != c,
    ensures
        i <= run_end(s, c, i) <= stop,
        forall|k: int| i <= k < run_end(s, c, i) ==> s[k] == c,
    decreases stop - i,
{
    if s[i] == c {
        lemma_run_end(s, c, i + 1, stop);
    }
}

proof fn lemma_run_start(s: Seq<char>, c: char, i: int, stop: int)
    requires
        0 <= stop < i <= s.len(),
        s[stop] != c,
    ensures
        stop < run_start(s, c, i) <= i,
        forall|k: int| run_start(s, c, i) <= k < i ==> s[k] == c,
        s[run_start(s, c, i) - 1] != c,
    decreases i - stop,
{
    if s[i - 1] == c {
        lemma_run_start(s, c, i - 1, stop);
    }
}

/// Digits around a decimal separator, without the zeros at both ends.
proof fn lemma_stripped(m: Marks, x: Seq<char>, y: Seq<char>) -> (r: (nat, nat))
    requires
        told_apart(m),
        forall|i: int| 0 <= i < x.len() ==> family_digit(m, #[trigger] x[i]),
        forall|i: int| 0 <= i < y.len() ==> family_digit(m, #[trigger] y[i]),
    ensures
        ({
            let whole = x + seq![m.decimal] + y;
            let s = stripped(whole, m.zero);
            &&& r.0 <= x.len()
            &&& r.1 <= y.len()
            &&& whole == repeated(m.zero, r.0) + s + repeated(m.zero, r.1)
            &&& place_of(s, m.decimal) == x.len() - r.0
            &&& s.len() == x.len() - r.0 + 1 + y.len() - r.1
            &&& s.last() != m.zero
            &&& r.1 < y.len() ==> family_digit(m, s.last())
            &&& r.1 == y.len() ==> s.last() == m.decimal
        }),
{
    let whole = x + seq![m.decimal] + y;
    let dot = x.len() as int;
    assert(whole[dot] == m.decimal);
    lemma_run_end(whole, m.zero, 0, dot);
    let k = run_end(whole, m.zero, 0);
    let t = whole.skip(k);
    assert(t[dot - k] == m.decimal);
    lemma_run_start(t, m.zero, t.len() as int, dot - k);
    let e = run_start(t, m.zero, t.len() as int);
    let s = t.take(e);
    let j = t.len() - e;
    assert(whole =~= repeated(m.zero, k as nat) + s + repeated(m.zero, j as nat)) by {
        assert forall|i: int| 0 <= i < whole.len() implies whole[i] == (repeated(m.zero, k as nat) + s + repeated(
            m.zero,
            j as nat,
        ))[i] by {
            if k + e <= i {
                assert(t[i - k] == m.zero);
            }
        }
    }
    assert forall|i: int| 0 <= i < dot - k implies s[i] != m.decimal by {
        assert(s[i] == x[i + k]);
    }
    assert(s[dot - k] == m.decimal);
    lemma_point_at(s, m.decimal, 0, dot - k);
    if j < y.len() {
        assert(s.last() == y[y.len() - j - 1]);
    }
    (k as nat, j as nat)
}

/// The digits of a number after the zeros at both ends have been left out, and
/// the fewest digits on both sides have been filled up with zeros.
pub open spec fn is_filled(m: Marks, s: Seq<char>, value: nat, n: nat, min_int: nat, min_frac: nat) -> bool {
    let w = shown(m, s);
    &&& w.clean && w.after
    &&& w.places <= n
    &&& w.value * ten((n - w.places) as nat) == value
    &&& w.whole >= min_int
    &&& w.places >= min_frac
    &&& w.places > min_frac ==> w.value % 10 != 0
}

#[verifier::rlimit(40)]
proof fn lemma_filled(m: Marks, mag: int, n: nat, min_int: nat, min_frac: nat)
    requires
        told_apart(m),
        min_frac <= n,
    ensures
        ({
            let t = in_family(fixed_text(mag, n), m.zero);
            let s = zero_padded(stripped(with_decimal(t, m.decimal), m.zero), m, min_int as int, min_frac as int);
            &&& is_filled(m, s, fixed_value(mag, n), n, min_int, min_frac)
            &&& n == 0 ==> s.len() > 0 && s.last() == m.decimal && place_of(s, m.decimal) == s.len() - 1
        }),
{
    let (a, b) = lemma_written(m, mag, n);
    let (x, y) = (in_family(a, m.zero), in_family(b, m.zero));
    lemma_family(m, a);
    lemma_family(m, b);
    let whole = x + seq![m.decimal] + y;
    let (k, j) = lemma_stripped(m, x, y);
    let s = stripped(whole, m.zero);
    let none = nothing_shown();
    // what all of it says
    lemma_chars_added(m, none, x + seq![m.decimal], y);
    lemma_chars_added(m, none, x, seq![m.decimal]);
    lemma_digits(m, none, a);
    lemma_one_char(m, shown(m, x), m.decimal);
    lemma_digits(m, shown(m, x + seq![m.decimal]), b);
    lemma_number_added(a, b);
    let v = fixed_value(mag, n);
    assert(0 * ten(a.len()) == 0) by (nonlinear_arith);
    assert(shown(m, whole) == (Shown { value: v, whole: a.len(), places: n, after: true, clean: true }));
    // what is left of it says
    let w = shown(m, s);
    lemma_chars_added(m, none, repeated(m.zero, k) + s, repeated(m.zero, j));
    lemma_chars_added(m, none, repeated(m.zero, k), s);
    lemma_zeros(m, none, k);
    lemma_more_whole(m, none, k, s);
    assert(whole[x.len() as int] == m.decimal);
    assert(s[x.len() - k] == whole[x.len() as int]);
    lemma_seen(m, s, x.len() - k);
    lemma_zeros(m, Shown { whole: w.whole + k, ..w }, j);
    assert(w.value * ten(j) == v && w.places + j == n && w.clean);
    assert(w.whole == x.len() - k);
    // and what it says with zeros filled in
    let p = at_least_zero(min_int - (x.len() - k));
    let q = at_least_zero(min_frac - w.places);
    assert(s.len() - place_of(s, m.decimal) - 1 == w.places);
    let full = zero_padded(s, m, min_int as int, min_frac as int);
    assert(full == repeated(m.zero, p) + s + repeated(m.zero, q));
    lemma_chars_added(m, none, repeated(m.zero, p) + s, repeated(m.zero, q));
    lemma_chars_added(m, none, repeated(m.zero, p), s);
    lemma_zeros(m, none, p);
    lemma_more_whole(m, none, p, s);
    lemma_zeros(m, Shown { whole: w.whole + p, ..w }, q);
    let u = shown(m, full);
    assert(u == (Shown { value: w.value * ten(q), whole: w.whole + p, places: w.places + q, ..w }));
    lemma_ten_adds(q, (j - q) as nat);
    let (c, d, e) = (w.value, ten(q), ten((j - q) as nat));
    assert(c * d * e == c * (d * e)) by (nonlinear_arith);
    if u.places > min_frac {
        assert(q == 0);
        assert(w.value * 1 == w.value) by (nonlinear_arith);
        assert(j < n);
        assert(family_digit(m, s.last()) && s.last() != m.zero);
        assert(w.value == 10 * with_chars(m, none, s.drop_last()).value + (s.last() as int - m.zero as int));
    }
    if n == 0 {
        assert(full =~= repeated(m.zero, p) + s);
        let dot = full.len() - 1;
        assert forall|i: int| 0 <= i < dot implies full[i] != m.decimal by {
            if i >= p {
                assert(full[i] == s[i - p]);
                assert(whole[k + (i - p)] == s[i - p]);
                assert(whole[k + (i - p)] == x[k + (i - p)]);
            }
        }
        lemma_point_at(full, m.decimal, 0, dot);
    }
}

/// A text with a decimal separator has it counted.
proof fn lemma_seen(m: Marks, s: Seq<char>, dot: int)
    requires
        told_apart(m),
        0 <= dot < s.len(),
        s[dot] == m.decimal,
    ensures
        shown(m, s).after,
    decreases s.len(),
{
    if dot < s.len() - 1 {
        lemma_seen(m, s.drop_last(), dot);
    }
}

// ── Separators ───────────────────────────────────────────────────────────────

proof fn lemma_last_kept(s: Seq<char>, at: int, c: char)
    requires
        s.len() > 0,
        at < s.len(),
    ensures
        inserted(s, at, c).len() == s.len() + 1,
        inserted(s, at, c).last() == s.last(),
{
}

proof fn lemma_regularly_last(s: Seq<char>, c: char, d: int, interval: int, k: int, groups: int)
    requires
        s.len() > 0,
        d < s.len(),
        interval > 0,
        k >= 1,
    ensures
        regularly(s, c, d, interval, k, groups).len() > 0,
        regularly(s, c, d, interval, k, groups).last() == s.last(),
    decreases groups - k + 1,
{
    if k <= groups {
        let at = d - k * interval;
        assert(k * interval > 0) by (nonlinear_arith)
            requires
                k >= 1,
                interval > 0,
        ;
        lemma_last_kept(s, at, c);
        lemma_regularly_last(inserted(s, at, c), c, d, interval, k + 1, groups);
    }
}

proof fn lemma_literally_last(s: Seq<char>, c: char, d: int, groups: Seq<usize>, k: int)
    requires
        s.len() > 0,
        d + k < s.len(),
    ensures
        literally(s, c, d, groups, k).len() > 0,
        literally(s, c, d, groups, k).last() == s.last(),
    decreases groups.len() - k,
{
    if 0 <= k < groups.len() {
        let at = d + k - groups[k];
        lemma_last_kept(s, at, c);
        lemma_literally_last(inserted(s, at, c), c, d, groups, k + 1);
    }
}

/// A character that is found stands where it was found.
proof fn lemma_found(s: Seq<char>, c: char, from: int)
    requires
        0 <= from,
    ensures
        match find_char(s, c, from) {
            Some(i) => from <= i < s.len() && s[i] == c,
            None => true,
        },
    decreases s.len() - from,
{
    if from < s.len() && s[from] != c {
        lemma_found(s, c, from + 1);
    }
}

/// Whether the numbers of a plan go together: the fewest decimals are no more
/// than the most, and without a decimal separator there are none.
pub open spec fn consistent(p: Plan) -> bool {
    &&& p.min_frac <= p.max_frac <= i32::MAX
    &&& !p.has_decimal ==> p.max_frac == 0 && p.frac_groups.len() == 0
}

/// What is written of a number without an exponent: with `n` decimals at the
/// most, the digits are those of the number rounded to `n` decimals. No fewer
/// stand on either side of the separator than are asked for, and no zero stands
/// at the end that is not asked for.
pub open spec fn is_written(m: Marks, s: Seq<char>, value: nat, n: nat, min_int: nat, min_frac: nat) -> bool {
    let w = shown(m, s);
    &&& w.clean
    &&& w.places <= n
    &&& w.value * ten((n - w.places) as nat) == value
    &&& w.whole >= min_int
    &&& w.places >= min_frac
    &&& w.places > min_frac ==> w.value % 10 != 0
}

#[verifier::rlimit(40)]
proof fn lemma_digits_by(x: Number, m: Marks, p: Plan)
    requires
        told_apart(m),
        x.finite(),
        p.min_exp == 0,
        consistent(p),
    ensures
        is_written(
            m,
            digits_by(x, m, p),
            fixed_value(rounded_at(x, p.max_frac as int).mag(), p.max_frac as nat),
            p.max_frac as nat,
            p.min_int as nat,
            p.min_frac as nat,
        ),
{
    let n = p.max_frac as nat;
    law_rounding(x, n as int);
    let r = rounded_at(x, n as int);
    let t = in_family(value_text(r, n), m.zero);
    assert(value_text(r, n) == fixed_text(r.mag(), n));
    let s = stripped(with_decimal(t, m.decimal), m.zero);
    let z = zero_padded(s, m, p.min_int as int, p.min_frac as int);
    lemma_filled(m, r.mag(), n, p.min_int as nat, p.min_frac as nat);
    let d = place_of(z, m.decimal);
    let g = integer_grouped(z, m, p);
    if p.regular > 0 {
        lemma_regularly(m, z, d, p.regular as int, 1, (d - 1) / (p.regular as int));
    } else {
        lemma_literally(m, z, d, p.int_groups, 0);
    }
    let at = place_of(g, m.decimal);
    let f = behind(g, m.grouping, at, p.frac_groups, 0);
    lemma_behind(m, g, at, p.frac_groups, 0);
    assert(shown(m, f) == shown(m, z));
    assert(digits_by(x, m, p) == without_decimal(f, m, p));
    lemma_found(f, m.decimal, 0);
    if !p.has_decimal {
        if p.regular > 0 {
            lemma_regularly_last(z, m.grouping, d, p.regular as int, 1, (d - 1) / (p.regular as int));
        } else {
            lemma_literally_last(z, m.grouping, d, p.int_groups, 0);
        }
        assert(f == g);
        assert(f.last() == m.decimal);
    }
    if f.len() > 0 && (!p.has_decimal || place_of(f, m.decimal) == f.len() - 1) {
        assert(f.last() == m.decimal);
        lemma_no_places_yet(m, f.drop_last());
        assert(shown(m, f) == with_char(m, shown(m, f.drop_last()), m.decimal));
    }
}

// ── Pictures ─────────────────────────────────────────────────────────────────

/// A picture of a number without an exponent: what stands before the number, the
/// places before and behind the decimal separator, and what stands after.
pub struct Picture {
    pub prefix: Seq<char>,
    pub integer: Seq<char>,
    pub has_decimal: bool,
    pub fraction: Seq<char>,
    pub suffix: Seq<char>,
}

/// Whether a part of a picture has places for digits and grouping separators
/// alone.
pub open spec fn only_places(m: Marks, s: Seq<char>) -> bool {
    forall|i: int|
        0 <= i < s.len() ==> (digit_place(m, #[trigger] s[i]) || s[i] == m.grouping) && s[i] != m.decimal && m.exponent
            != Some(s[i])
}

/// Whether a text has nothing in it that means something in a picture.
pub open spec fn only_text(m: Marks, s: Seq<char>) -> bool {
    forall|i: int| 0 <= i < s.len() ==> !active(m, #[trigger] s[i])
}

/// How many places for digits a part of a picture has.
pub open spec fn places_in(m: Marks, s: Seq<char>) -> nat {
    s.filter(|c: char| digit_place(m, c)).len()
}

impl Picture {
    pub open spec fn number(self, m: Marks) -> Seq<char> {
        if self.has_decimal {
            self.integer + seq![m.decimal] + self.fraction
        } else {
            self.integer
        }
    }

    pub open spec fn text(self, m: Marks) -> Seq<char> {
        self.prefix + self.number(m) + self.suffix
    }

    pub open spec fn well_formed(self, m: Marks) -> bool {
        &&& only_text(m, self.prefix)
        &&& only_text(m, self.suffix)
        &&& only_places(m, self.integer)
        &&& only_places(m, self.fraction)
        &&& m.exponent != Some(m.decimal)
        &&& self.integer.len() + self.fraction.len() > 0
        &&& !self.has_decimal ==> self.fraction.len() == 0
        &&& self.text(m).len() <= i32::MAX
    }

    /// How many places for digits stand behind the decimal separator, those that
    /// may be left out among them.
    pub open spec fn decimals(self, m: Marks) -> nat {
        places_in(m, self.fraction)
    }

    /// How many digits must stand before the decimal separator.
    pub open spec fn digits_before(self, m: Marks) -> nat {
        let k = self.integer.filter(|c: char| family_digit(m, c)).len();
        if k == 0 && self.decimals(m) == 0 {
            1
        } else {
            k
        }
    }

    /// How many digits must stand behind the decimal separator.
    pub open spec fn digits_behind(self, m: Marks) -> nat {
        let k = self.fraction.filter(|c: char| family_digit(m, c)).len();
        if k == 0 && self.digits_before(m) == 0 {
            1
        } else {
            k
        }
    }
}

proof fn lemma_counts(m: Marks, s: Seq<char>)
    ensures
        place_count(m, s) == places_in(m, s),
        mandatory_count(m, s) == s.filter(|c: char| family_digit(m, c)).len(),
        mandatory_count(m, s) <= place_count(m, s) <= s.len(),
    decreases s.len(),
{
    reveal(Seq::filter);
    if s.len() > 0 {
        lemma_counts(m, s.drop_last());
    }
}

proof fn lemma_no_counts(m: Marks, s: Seq<char>)
    requires
        only_text(m, s),
    ensures
        place_count(m, s) == 0,
        mandatory_count(m, s) == 0,
    decreases s.len(),
{
    if s.len() > 0 {
        assert forall|i: int| 0 <= i < s.drop_last().len() implies !active(m, #[trigger] s.drop_last()[i]) by {
            assert(s.drop_last()[i] == s[i]);
        }
        assert(!active(m, s[s.len() - 1]));
        lemma_no_counts(m, s.drop_last());
    }
}

proof fn lemma_region_start(m: Marks, s: Seq<char>, i: int, k: int)
    requires
        0 <= i <= k < s.len(),
        forall|j: int| i <= j < k ==> !region_edge(m, #[trigger] s[j]),
        region_edge(m, s[k]),
    ensures
        region_start(m, s, i) == k,
    decreases k - i,
{
    if i < k {
        assert(!region_edge(m, s[i]));
        lemma_region_start(m, s, i + 1, k);
    }
}

proof fn lemma_region_end(m: Marks, s: Seq<char>, i: int, k: int)
    requires
        0 < k <= i <= s.len(),
        forall|j: int| k <= j < i ==> !region_edge(m, #[trigger] s[j]),
        region_edge(m, s[k - 1]),
    ensures
        region_end(m, s, i) == k,
    decreases i,
{
    if k < i {
        assert(!region_edge(m, s[i - 1]));
        lemma_region_end(m, s, i - 1, k);
    }
}

/// A picture is cut where its parts meet.
proof fn lemma_cut(m: Marks, t: Picture)
    requires
        told_apart(m),
        t.well_formed(m),
    ensures
        cut(m, t.text(m)) == Some(
            Parts {
                prefix: t.prefix,
                active: t.number(m),
                suffix: t.suffix,
                mantissa: t.number(m),
                integer: t.integer,
                fraction: if t.has_decimal {
                    t.fraction
                } else {
                    t.suffix
                },
                exponent: None,
            },
        ),
        (find_char(t.text(m), m.decimal, 0) is Some) == t.has_decimal,
{
    let s = t.text(m);
    let num = t.number(m);
    let a = t.prefix.len() as int;
    let b = a + num.len();
    assert forall|j: int| 0 <= j < num.len() implies region_edge(m, #[trigger] num[j]) by {
        if j < t.integer.len() {
            assert(num[j] == t.integer[j]);
        } else if j > t.integer.len() {
            assert(num[j] == t.fraction[j - t.integer.len() - 1]);
        }
    }
    assert forall|j: int| 0 <= j < a implies !active(m, #[trigger] s[j]) by {
        assert(s[j] == t.prefix[j]);
    }
    assert forall|j: int| b <= j < s.len() implies !active(m, #[trigger] s[j]) by {
        assert(s[j] == t.suffix[j - b]);
    }
    assert(s[a] == num[0] && s[b - 1] == num[num.len() - 1]);
    lemma_region_start(m, s, 0, a);
    lemma_region_end(m, s, s.len() as int, b);
    assert(s.subrange(a, b) =~= num);
    assert(s.take(a) =~= t.prefix);
    assert(s.skip(b) =~= t.suffix);
    match m.exponent {
        Some(e) => {
            let rest = s.skip(a);
            assert forall|k: int| 0 <= k < rest.len() implies rest[k] != e by {
                if k < num.len() {
                    assert(rest[k] == num[k]);
                } else {
                    assert(rest[k] == s[a + k]);
                    assert(!active(m, s[a + k]));
                }
            }
            lemma_nowhere(rest, e, 0);
        },
        None => {},
    }
    let d = t.integer.len() as int;
    if t.has_decimal {
        assert(num[d] == m.decimal);
        assert forall|k: int| 0 <= k < d implies num[k] != m.decimal by {
            assert(num[k] == t.integer[k]);
        }
        lemma_point_at(num, m.decimal, 0, d);
        assert(num.take(d) =~= t.integer);
        assert(num.skip(d + 1) =~= t.fraction);
        assert forall|k: int| 0 <= k < a + d implies s[k] != m.decimal by {
            if k >= a {
                assert(s[k] == num[k - a]);
            } else {
                assert(!active(m, s[k]));
            }
        }
        assert(s[a + d] == num[d]);
        lemma_point_at(s, m.decimal, 0, a + d);
    } else {
        assert forall|k: int| 0 <= k < num.len() implies num[k] != m.decimal by {
            assert(num[k] == t.integer[k]);
        }
        lemma_nowhere(num, m.decimal, 0);
        assert forall|k: int| 0 <= k < s.len() implies s[k] != m.decimal by {
            if a <= k < b {
                assert(s[k] == num[k - a]);
            } else {
                assert(!active(m, s[k]));
            }
        }
        lemma_nowhere(s, m.decimal, 0);
    }
}

#[verifier::rlimit(40)]
proof fn lemma_plan(m: Marks, t: Picture)
    requires
        told_apart(m),
        t.well_formed(m),
        parsed_picture(m, t.text(m)) is Ok,
    ensures
        ({
            let p = parsed_picture(m, t.text(m))->Ok_0;
            &&& consistent(p)
            &&& p.min_exp == 0
            &&& p.prefix == t.prefix
            &&& p.suffix == t.suffix
            &&& p.max_frac == t.decimals(m)
            &&& p.min_int == t.digits_before(m)
            &&& p.min_frac == t.digits_behind(m)
            &&& p.scale == scale_of(m, t.text(m))
        }),
{
    lemma_cut(m, t);
    lemma_counts(m, t.integer);
    lemma_counts(m, t.fraction);
    assert(t.text(m).len() >= t.integer.len() + t.fraction.len());
    if !t.has_decimal {
        lemma_no_counts(m, t.suffix);
        lemma_counts(m, Seq::empty());
        assert(t.fraction =~= Seq::empty());
        assert forall|k: int| 0 <= k < t.suffix.len() implies t.suffix[k] != m.grouping by {
            assert(!active(m, t.suffix[k]));
        }
        lemma_nowhere(t.suffix, m.grouping, 0);
    }
}

proof fn lemma_occurrences(s: Seq<char>, p: Seq<char>, i: int)
    requires
        0 <= i,
    ensures
        occurrences(s, p, i) > 0 <==> exists|k: int| i <= k <= s.len() && #[trigger] occurs_at(s, p, k),
    decreases s.len() + 1 - i,
{
    if i <= s.len() {
        lemma_occurrences(s, p, i + 1);
        if occurrences(s, p, i + 1) > 0 {
            let k = choose|k: int| i + 1 <= k <= s.len() && #[trigger] occurs_at(s, p, k);
            assert(i <= k);
        }
    }
}

/// Whether a text occurs in another.
pub open spec fn occurs(s: Seq<char>, p: Seq<char>) -> bool {
    exists|k: int| 0 <= k <= s.len() && #[trigger] occurs_at(s, p, k)
}

/// A number as a picture scales it: a hundredfold for a percentage, a
/// thousandfold for thousandths.
pub open spec fn scaled_for(m: Marks, s: Seq<char>, x: Number) -> Number {
    if occurs(s, m.percent) {
        x.times_spec(Number::of_int(100))
    } else if occurs(s, m.per_mille) {
        x.times_spec(Number::of_int(1000))
    } else {
        x
    }
}

proof fn lemma_one_picture(s: Seq<char>, sep: Seq<char>, i: int)
    requires
        0 <= i,
        sep.len() > 0,
        !occurs(s, sep),
    ensures
        split_from(s, sep, 0, i) == seq![s],
    decreases s.len() - i,
{
    if i < s.len() {
        lemma_one_picture(s, sep, i + 1);
    } else {
        assert(s.skip(0) =~= s);
    }
}

/// `$formatNumber` by one picture without an exponent writes what stands before
/// the number, the number and what stands after, with a minus sign before all of
/// it for a number below zero. The digits, read back, are the number as `$round`
/// rounds it to as many decimals as the picture has places for, whether they may
/// be left out or not. Of the places that may be left out none ends in zero, and
/// of the others all are filled.
#[verifier::rlimit(40)]
pub proof fn law_format_number(x: Number, m: Marks, o: Val, t: Picture, text: Seq<char>)
    requires
        told_apart(m),
        t.well_formed(m),
        m.pattern.len() > 0,
        !occurs(t.text(m), m.pattern),
        m == marks_from(seq![Val::Number(x), Val::String(t.text(m)), o]),
        scaled_for(m, t.text(m), x).finite(),
        format_number(seq![Val::Number(x), Val::String(t.text(m)), o]) == Ok::<Val, Seq<char>>(Val::String(text)),
    ensures
        ({
            let sign = if x.lt_spec(Number::of_int(0)) {
                seq!['-']
            } else {
                Seq::empty()
            };
            let before = sign + t.prefix;
            let digits = text.subrange(before.len() as int, text.len() - t.suffix.len());
            let n = t.decimals(m);
            &&& text == before + digits + t.suffix
            &&& is_written(
                m,
                digits,
                fixed_value(rounded_at(scaled_for(m, t.text(m), x), n as int).mag(), n),
                n,
                t.digits_before(m),
                t.digits_behind(m),
            )
        }),
{
    let s = t.text(m);
    let args = seq![Val::Number(x), Val::String(s), o];
    assert(args[0] == Val::Number(x) && args[1] == Val::String(s));
    lemma_one_picture(s, m.pattern, 0);
    lemma_plan(m, t);
    lemma_occurrences(s, m.percent, 0);
    lemma_occurrences(s, m.per_mille, 0);
    let p = parsed_picture(m, s)->Ok_0;
    let q = Plan { prefix: seq!['-'] + p.prefix, ..p };
    let sign = if x.lt_spec(Number::of_int(0)) {
        seq!['-']
    } else {
        Seq::empty()
    };
    let before = sign + t.prefix;
    let used = if x.lt_spec(Number::of_int(0)) {
        q
    } else {
        p
    };
    let y = scaled_for(m, s, x);
    lemma_digits_by(y, m, used);
    let d = digits_by(y, m, used);
    assert(used.prefix =~= before);
    assert(text == before + d + t.suffix);
    assert(text.subrange(before.len() as int, text.len() - t.suffix.len()) =~= d);
}

// ── Groups ───────────────────────────────────────────────────────────────────

/// Digits in groups of so many from the right, with a separator between them.
pub open spec fn in_groups(d: Seq<char>, c: char, g: nat) -> Seq<char>
    decreases d.len(),
{
    if g == 0 || d.len() <= g {
        d
    } else {
        in_groups(d.take(d.len() - g), c, g) + seq![c] + d.skip(d.len() - g)
    }
}

proof fn lemma_in_groups(x: Seq<char>, t: Seq<char>, c: char, d: int, g: int, k: int)
    requires
        g > 0,
        k >= 1,
        x.len() == d - (k - 1) * g,
        x.len() > 0,
    ensures
        regularly(x + t, c, d, g, k, (d - 1) / g) == in_groups(x, c, g as nat) + t,
    decreases x.len(),
{
    let s = x + t;
    let at = d - k * g;
    assert(at == x.len() - g) by (nonlinear_arith)
        requires
            at == d - k * g,
            x.len() == d - (k - 1) * g,
    ;
    assert(k <= (d - 1) / g <==> at >= 1) by (nonlinear_arith)
        requires
            at == d - k * g,
            g > 0,
    ;
    if at >= 1 {
        let (y, z) = (x.take(at), x.skip(at));
        assert(inserted(s, at, c) =~= y + (seq![c] + z + t));
        assert(y.len() == d - (k + 1 - 1) * g);
        lemma_in_groups(y, seq![c] + z + t, c, d, g, k + 1);
        assert(in_groups(y, c, g as nat) + (seq![c] + z + t) =~= in_groups(y, c, g as nat) + seq![c] + z + t);
    }
}

/// What is written before grouping: digits, the decimal separator and digits.
proof fn lemma_filled_shape(m: Marks, mag: int, n: nat, min_int: nat, min_frac: nat) -> (r: (Seq<char>, Seq<char>))
    requires
        told_apart(m),
    ensures
        ({
            let t = in_family(fixed_text(mag, n), m.zero);
            let s = zero_padded(stripped(with_decimal(t, m.decimal), m.zero), m, min_int as int, min_frac as int);
            &&& s == r.0 + seq![m.decimal] + r.1
            &&& place_of(s, m.decimal) == r.0.len()
            &&& r.0.len() >= min_int
            &&& forall|i: int| 0 <= i < r.0.len() ==> family_digit(m, #[trigger] r.0[i])
        }),
{
    let (a, b) = lemma_written(m, mag, n);
    let (x, y) = (in_family(a, m.zero), in_family(b, m.zero));
    lemma_family(m, a);
    lemma_family(m, b);
    let whole = x + seq![m.decimal] + y;
    let (k, j) = lemma_stripped(m, x, y);
    let s = stripped(whole, m.zero);
    let (u, v) = (x.skip(k as int), y.take(y.len() - j));
    assert(s =~= u + seq![m.decimal] + v) by {
        assert forall|i: int| 0 <= i < s.len() implies s[i] == (u + seq![m.decimal] + v)[i] by {
            assert(whole[k + i] == s[i]);
        }
    }
    let p = at_least_zero(min_int - (x.len() - k));
    let q = at_least_zero(min_frac - (s.len() - place_of(s, m.decimal) - 1));
    let full = zero_padded(s, m, min_int as int, min_frac as int);
    let ints = repeated(m.zero, p) + u;
    let fracs = v + repeated(m.zero, q);
    assert(full =~= ints + seq![m.decimal] + fracs);
    assert forall|i: int| 0 <= i < ints.len() implies family_digit(m, #[trigger] ints[i]) by {
        if i >= p {
            assert(ints[i] == x[k + i - p]);
        }
    }
    assert forall|i: int| 0 <= i < ints.len() implies full[i] != m.decimal by {
        assert(full[i] == ints[i]);
        assert(family_digit(m, ints[i]));
    }
    assert(full[ints.len() as int] == m.decimal);
    lemma_point_at(full, m.decimal, 0, ints.len() as int);
    (ints, fracs)
}

/// Whether a text is digits in groups, with nothing or the decimal separator
/// behind them.
pub open spec fn is_grouped(m: Marks, s: Seq<char>, g: nat, d: Seq<char>, rest: Seq<char>) -> bool {
    &&& s == in_groups(d, m.grouping, g) + rest
    &&& forall|i: int| 0 <= i < d.len() ==> family_digit(m, #[trigger] d[i])
    &&& rest.len() > 0 ==> rest[0] == m.decimal
}

/// The integer part in groups, whatever stands behind it.
proof fn lemma_grouped_integer(ints: Seq<char>, tail: Seq<char>, c: char, g: int)
    requires
        g > 0,
    ensures
        regularly(ints + tail, c, ints.len() as int, g, 1, (ints.len() - 1) / g) == in_groups(ints, c, g as nat) + tail,
{
    let d = ints.len() as int;
    if d > 0 {
        lemma_in_groups(ints, tail, c, d, g, 1);
    } else {
        assert((d - 1) / g < 1) by (nonlinear_arith)
            requires
                d == 0,
                g > 0,
        ;
        assert(in_groups(ints, c, g as nat) == ints);
    }
}

proof fn lemma_ended(m: Marks, p: Plan, head: Seq<char>, tail: Seq<char>, ints: Seq<char>) -> (rest: Seq<char>)
    requires
        head == in_groups(ints, m.grouping, p.regular as nat),
        tail.len() > 0,
        tail[0] == m.decimal,
        forall|i: int| 0 <= i < ints.len() ==> family_digit(m, #[trigger] ints[i]),
    ensures
        is_grouped(m, without_decimal(head + tail, m, p), p.regular as nat, ints, rest),
{
    let f = head + tail;
    assert(f.drop_last() =~= head + tail.drop_last());
    if without_decimal(f, m, p) == f {
        tail
    } else {
        tail.drop_last()
    }
}

/// What is grouped of a number before the decimal separator is looked at.
#[verifier::opaque]
spec fn ungrouped(x: Number, m: Marks, p: Plan) -> Seq<char> {
    let t = in_family(value_text(rounded_at(x, p.max_frac as int), p.max_frac as nat), m.zero);
    zero_padded(stripped(with_decimal(t, m.decimal), m.zero), m, p.min_int as int, p.min_frac as int)
}

proof fn lemma_digits_unfolded(x: Number, m: Marks, p: Plan)
    requires
        p.min_exp == 0,
        p.max_frac <= i32::MAX,
        p.frac_groups.len() == 0,
    ensures
        digits_by(x, m, p) == without_decimal(integer_grouped(ungrouped(x, m, p), m, p), m, p),
{
    reveal(ungrouped);
    let g = integer_grouped(ungrouped(x, m, p), m, p);
    assert(behind(g, m.grouping, place_of(g, m.decimal), p.frac_groups, 0) == g);
}

proof fn lemma_grouped_shape(m: Marks, p: Plan, z: Seq<char>, ints: Seq<char>, fracs: Seq<char>) -> (rest: Seq<char>)
    requires
        p.regular > 0,
        z == ints + seq![m.decimal] + fracs,
        place_of(z, m.decimal) == ints.len(),
        forall|i: int| 0 <= i < ints.len() ==> family_digit(m, #[trigger] ints[i]),
    ensures
        is_grouped(m, without_decimal(integer_grouped(z, m, p), m, p), p.regular as nat, ints, rest),
{
    let tail = seq![m.decimal] + fracs;
    assert(z =~= ints + tail);
    lemma_grouped_integer(ints, tail, m.grouping, p.regular as int);
    let head = in_groups(ints, m.grouping, p.regular as nat);
    assert(integer_grouped(z, m, p) == head + tail);
    lemma_ended(m, p, head, tail, ints)
}

proof fn lemma_ungrouped(x: Number, m: Marks, p: Plan) -> (r: (Seq<char>, Seq<char>))
    requires
        told_apart(m),
        x.finite(),
        consistent(p),
    ensures
        ({
            let z = ungrouped(x, m, p);
            &&& z == r.0 + seq![m.decimal] + r.1
            &&& place_of(z, m.decimal) == r.0.len()
            &&& forall|i: int| 0 <= i < r.0.len() ==> family_digit(m, #[trigger] r.0[i])
        }),
{
    let n = p.max_frac as nat;
    law_rounding(x, n as int);
    let v = rounded_at(x, n as int);
    assert(value_text(v, n) == fixed_text(v.mag(), n));
    reveal(ungrouped);
    lemma_filled_shape(m, v.mag(), n, p.min_int as nat, p.min_frac as nat)
}

#[verifier::spinoff_prover]
proof fn lemma_grouped_digits(x: Number, m: Marks, p: Plan) -> (r: (Seq<char>, Seq<char>))
    requires
        told_apart(m),
        x.finite(),
        p.min_exp == 0,
        consistent(p),
        p.regular > 0,
        p.frac_groups.len() == 0,
    ensures
        is_grouped(m, digits_by(x, m, p), p.regular as nat, r.0, r.1),
{
    let (ints, fracs) = lemma_ungrouped(x, m, p);
    let rest = lemma_grouped_shape(m, p, ungrouped(x, m, p), ints, fracs);
    lemma_digits_unfolded(x, m, p);
    (ints, rest)
}

proof fn lemma_no_groups(m: Marks, part: Seq<char>, integer: Seq<char>, to_left: bool, i: int)
    requires
        0 <= i,
        forall|k: int| i <= k < integer.len() ==> integer[k] != m.grouping,
    ensures
        later_groups(m, part, integer, to_left, i) == Seq::<usize>::empty(),
    decreases integer.len() - i,
{
    if i < integer.len() {
        lemma_no_groups(m, part, integer, to_left, i + 1);
    }
}

/// One grouping separator in the integer part of a picture is one interval: as
/// many digits as there are places behind it.
proof fn lemma_interval(m: Marks, a: Seq<char>, b: Seq<char>)
    requires
        told_apart(m),
        !digit_place(m, m.grouping),
        forall|i: int| 0 <= i < a.len() ==> a[i] != m.grouping,
        forall|i: int| 0 <= i < b.len() ==> b[i] != m.grouping,
        places_in(m, b) > 0,
        a.len() + b.len() <= i32::MAX,
    ensures
        ({
            let part = a + seq![m.grouping] + b;
            regular_interval(groups_of(m, part, part, false)) == places_in(m, b)
        }),
{
    let part = a + seq![m.grouping] + b;
    let i = a.len() as int;
    let g = places_in(m, b);
    lemma_point_at(part, m.grouping, 0, i);
    lemma_no_groups(m, part, part, false, i + 1);
    lemma_counts(m, b);
    assert(part.skip(i) =~= seq![m.grouping] + b);
    lemma_place_first(m, m.grouping, b);
    let s = groups_of(m, part, part, false);
    assert(s =~= seq![g as usize]);
    assert(gcd_all(s) == g);
    assert forall|k: int| 1 <= k <= s.len() implies s.contains(#[trigger] capped_product(k, g as int) as usize) by {
        assert(k == 1);
        assert(capped_product(1, g as int) == g);
        assert(s[0] == g as usize);
    }
}

proof fn lemma_place_first(m: Marks, c: char, b: Seq<char>)
    requires
        !digit_place(m, c),
    ensures
        place_count(m, seq![c] + b) == place_count(m, b),
    decreases b.len(),
{
    let s = seq![c] + b;
    if b.len() == 0 {
        assert(s =~= seq![c]);
        assert(s.drop_last() =~= Seq::empty());
        assert(place_count(m, s.drop_last()) == 0);
    } else {
        lemma_place_first(m, c, b.drop_last());
        assert(s.drop_last() =~= seq![c] + b.drop_last());
        assert(s.last() == b.last());
    }
}

/// One grouping separator in the integer part of a picture sets the digits of the
/// integer part apart in groups of as many as there are places behind it, counted
/// from the decimal separator.
#[verifier::rlimit(40)]
pub proof fn law_format_number_groups(
    x: Number,
    m: Marks,
    o: Val,
    t: Picture,
    a: Seq<char>,
    b: Seq<char>,
    text: Seq<char>,
) -> (r: (Seq<char>, Seq<char>))
    requires
        told_apart(m),
        !digit_place(m, m.grouping),
        t.well_formed(m),
        m.pattern.len() > 0,
        !occurs(t.text(m), m.pattern),
        m == marks_from(seq![Val::Number(x), Val::String(t.text(m)), o]),
        scaled_for(m, t.text(m), x).finite(),
        t.integer == a + seq![m.grouping] + b,
        forall|i: int| 0 <= i < a.len() ==> a[i] != m.grouping,
        forall|i: int| 0 <= i < b.len() ==> b[i] != m.grouping,
        forall|i: int| 0 <= i < t.fraction.len() ==> t.fraction[i] != m.grouping,
        places_in(m, b) > 0,
        format_number(seq![Val::Number(x), Val::String(t.text(m)), o]) == Ok::<Val, Seq<char>>(Val::String(text)),
    ensures
        ({
            let before = (if x.lt_spec(Number::of_int(0)) {
                1int
            } else {
                0int
            }) + t.prefix.len();
            is_grouped(m, text.subrange(before, text.len() - t.suffix.len()), places_in(m, b), r.0, r.1)
        }),
{
    let s = t.text(m);
    let args = seq![Val::Number(x), Val::String(s), o];
    assert(args[0] == Val::Number(x) && args[1] == Val::String(s));
    lemma_one_picture(s, m.pattern, 0);
    lemma_plan(m, t);
    lemma_cut(m, t);
    lemma_occurrences(s, m.percent, 0);
    lemma_occurrences(s, m.per_mille, 0);
    assert(s.len() >= t.integer.len());
    lemma_interval(m, a, b);
    if t.has_decimal {
        lemma_nowhere(t.fraction, m.grouping, 0);
    }
    let p = parsed_picture(m, s)->Ok_0;
    let q = Plan { prefix: seq!['-'] + p.prefix, ..p };
    let used = if x.lt_spec(Number::of_int(0)) {
        q
    } else {
        p
    };
    let y = scaled_for(m, s, x);
    let (d, rest) = lemma_grouped_digits(y, m, used);
    let out = digits_by(y, m, used);
    assert(text == used.prefix + out + t.suffix);
    assert(text.subrange(used.prefix.len() as int, text.len() - t.suffix.len()) =~= out);
    assert(is_grouped(m, out, places_in(m, b), d, rest));
    (d, rest)
}

} // verus!
