//! `$parseInteger` undoes `$formatInteger`.
use vstd::prelude::*;

use super::datetime::tz::zero_padded;
use super::format_integer::{
    decimal_text, family_from, has_placeholder, in_other_family, integer_text, magnitude_text, mandatory,
    mandatory_count, placeholder, separated, separator_at, separators, words_token, LARGEST,
};
use super::number_words::{
    digit_zero, family_zero, family_zeros, in_family, letters_of, picture_modifier, picture_token, roman, roman_digit,
    roman_part, roman_symbol, suffix_of,
};
use super::parse_integer::{letters_number, parsed_integer, picture_zero, plain_digit, plain_digits, roman_from};
use crate::number::Number;
use crate::text::{
    all_digits, ascii_letter, ascii_lower_all, ascii_text, ascii_upper, ascii_upper_all, digit_value, is_digit,
    lemma_ascii_cases, lemma_nat_text, nat_text, number_of, parse_spec, repeated, scalar_value,
};

verus! {

// ── Roman numerals ───────────────────────────────────────────────────────────

/// A numeral begins with a character worth no more than its first part.
proof fn lemma_roman_head(n: int, upper: bool)
    requires
        n > 0,
    ensures
        roman(n, upper).len() > 0,
        roman_digit(roman(n, upper)[0]) is Some,
        roman_digit(roman(n, upper)[0])->0 <= roman_part(n),
{
    let s = roman_symbol(roman_part(n), upper);
    assert(roman(n, upper)[0] == s[0]);
}

/// What follows some characters is worth what it is on its own.
proof fn lemma_roman_shift(a: Seq<char>, b: Seq<char>, j: int)
    requires
        0 <= j <= b.len(),
    ensures
        roman_from(a + b, a.len() + j) == roman_from(b, j),
    decreases b.len() - j,
{
    if j < b.len() {
        lemma_roman_shift(a, b, j + 1);
        assert((a + b)[a.len() + j] == b[j]);
        if j + 1 < b.len() {
            assert((a + b)[a.len() + j + 1] == b[j + 1]);
        }
    }
}

/// The value of a numeral is the number that it was made of.
proof fn lemma_roman_value(n: int, upper: bool)
    requires
        n >= 0,
    ensures
        roman_from(roman(n, upper), 0) == Some(n),
    decreases n,
{
    if n > 0 {
        let p = roman_part(n);
        let s = roman_symbol(p, upper);
        let rest = roman(n - p, upper);
        lemma_roman_value(n - p, upper);
        let all = s + rest;
        assert(all =~= roman(n, upper));
        lemma_roman_shift(s, rest, 0);
        if n - p > 0 {
            lemma_roman_head(n - p, upper);
            assert(all[s.len() as int] == rest[0]);
        }
        if s.len() == 1 {
            assert(all[0] == s[0]);
        } else {
            assert(all[0] == s[0]);
            assert(all[1] == s[1]);
            assert(roman_from(all, 1) == Some(n - p + roman_digit(s[1])->0));
        }
    }
}

/// Upper case changes nothing of what a numeral is worth.
proof fn lemma_roman_upper(s: Seq<char>, i: int)
    requires
        0 <= i <= s.len(),
    ensures
        roman_from(ascii_upper_all(s), i) == roman_from(s, i),
    decreases s.len() - i,
{
    if i < s.len() {
        lemma_roman_upper(s, i + 1);
        assert(roman_digit(ascii_upper(s[i])) == roman_digit(s[i]));
        if i + 1 < s.len() {
            assert(roman_digit(ascii_upper(s[i + 1])) == roman_digit(s[i + 1]));
        }
    }
}

/// Roman numerals are ASCII.
proof fn lemma_roman_ascii(n: int, upper: bool)
    ensures
        ascii_text(roman(n, upper)),
    decreases n,
{
    if n > 0 {
        let p = roman_part(n);
        lemma_roman_ascii(n - p, upper);
        let (a, b) = (roman_symbol(p, upper), roman(n - p, upper));
        assert forall|i: int| 0 <= i < (a + b).len() implies #[trigger] (a + b)[i] <= '\x7f' by {
            if i >= a.len() {
                assert((a + b)[i] == b[i - a.len()]);
            }
        }
    }
}

/// Parsing a Roman numeral gives the number that was formatted as one. A sign is
/// no part of a numeral, so only numbers without one come back.
pub proof fn law_roman_round_trip(n: int, picture: Seq<char>, text: Seq<char>)
    requires
        0 <= n <= LARGEST,
        picture_token(picture) == "i"@ || picture_token(picture) == "I"@,
        integer_text(n, picture) == Ok::<Seq<char>, Seq<char>>(text),
    ensures
        parsed_integer(text, picture) == Ok::<Number, Seq<char>>(Number::of_int(n)),
{
    lemma_tokens();
    let t = picture_token(picture);
    let upper = t == "I"@;
    assert(text == roman(n, upper));
    lemma_roman_ascii(n, upper);
    lemma_ascii_cases(text);
    lemma_roman_value(n, upper);
    lemma_roman_upper(text, 0);
}

// ── Letters ──────────────────────────────────────────────────────────────────

/// The value of letters is the number that they were made of.
proof fn lemma_letters_value(n: int)
    requires
        0 <= n <= i64::MAX,
    ensures
        letters_number(letters_of(n, 'a')) == Some(n),
    decreases n,
{
    if n > 0 {
        let q = (n - 1) / 26;
        let r = (n - 1) % 26;
        lemma_letters_value(q);
        let s = letters_of(n, 'a');
        assert(s.drop_last() =~= letters_of(q, 'a'));
        assert(s.last() as int == 'a' as int + r);
        assert(q * 26 + r + 1 == n);
    }
}

/// Lower case of letters counted from the capital is letters counted from the
/// small one.
proof fn lemma_letters_lower(n: int, base: char)
    requires
        base == 'a' || base == 'A',
    ensures
        ascii_lower_all(letters_of(n, base)) == letters_of(n, 'a'),
    decreases n,
{
    if n > 0 {
        let q = (n - 1) / 26;
        lemma_letters_lower(q, base);
        let s = letters_of(n, base);
        assert(s.drop_last() =~= letters_of(q, base));
        assert(ascii_lower_all(s) =~= ascii_lower_all(s.drop_last()).push(ascii_lower_all(s).last()));
        assert(ascii_lower_all(s) =~= letters_of(n, 'a'));
    } else {
        assert(ascii_lower_all(letters_of(n, base)) =~= letters_of(n, 'a'));
    }
}

/// Letters are ASCII.
proof fn lemma_letters_ascii(n: int, base: char)
    requires
        base == 'a' || base == 'A',
    ensures
        ascii_text(letters_of(n, base)),
    decreases n,
{
    if n > 0 {
        lemma_letters_ascii((n - 1) / 26, base);
    }
}

/// Whether a picture is that of letters.
pub open spec fn letters_picture(picture: Seq<char>) -> bool {
    let t = picture_token(picture);
    t.len() == 1 && ascii_letter(t[0]) && t != "i"@ && t != "I"@ && !words_token(t)
}

/// Parsing letters gives the number that was formatted as letters. A sign is no
/// letter, so only numbers without one come back.
pub proof fn law_letters_round_trip(n: int, picture: Seq<char>, text: Seq<char>)
    requires
        0 <= n <= LARGEST,
        letters_picture(picture),
        integer_text(n, picture) == Ok::<Seq<char>, Seq<char>>(text),
    ensures
        parsed_integer(text, picture) == Ok::<Number, Seq<char>>(Number::of_int(n)),
{
    let t = picture_token(picture);
    let base = if 'a' <= t[0] <= 'z' {
        'a'
    } else {
        'A'
    };
    assert(text == letters_of(n, base));
    lemma_letters_ascii(n, base);
    lemma_ascii_cases(text);
    lemma_letters_value(n);
    lemma_letters_lower(n, base);
}

// ── Decimal digits ───────────────────────────────────────────────────────────

proof fn lemma_tokens()
    ensures
        "i"@ != "I"@,
        "i"@.len() == 1 && ascii_letter("i"@[0]),
        "I"@.len() == 1 && ascii_letter("I"@[0]),
        "w"@ != "i"@ && "w"@ != "I"@,
        "W"@ != "i"@ && "W"@ != "I"@,
        "Ww"@ != "i"@ && "Ww"@ != "I"@,
{
    reveal_strlit("i");
    reveal_strlit("I");
    reveal_strlit("w");
    reveal_strlit("W");
    reveal_strlit("Ww");
    assert("i"@[0] != "I"@[0]);
    assert("w"@[0] != "i"@[0]);
    assert("w"@[0] != "I"@[0]);
    assert("W"@[0] != "i"@[0]);
    assert("W"@[0] != "I"@[0]);
    assert("Ww"@.len() == 2);
}

/// The digits of two texts together are those of both.
proof fn lemma_plain_digits_add(a: Seq<char>, b: Seq<char>, zero: char)
    ensures
        plain_digits(a + b, zero) == plain_digits(a, zero) + plain_digits(b, zero),
    decreases b.len(),
{
    if b.len() == 0 {
        assert(a + b =~= a);
        assert(plain_digits(a, zero) + plain_digits(b, zero) =~= plain_digits(a, zero));
    } else {
        lemma_plain_digits_add(a, b.drop_last(), zero);
        assert((a + b).drop_last() =~= a + b.drop_last());
        assert((a + b).last() == b.last());
        assert(plain_digits(a + b, zero) =~= plain_digits(a, zero) + plain_digits(b, zero));
    }
}

/// Whether no character of a text counts as a digit or a sign.
spec fn no_digits(s: Seq<char>, zero: char) -> bool {
    forall|i: int| 0 <= i < s.len() ==> plain_digit(#[trigger] s[i], zero) is None
}

proof fn lemma_no_digits(s: Seq<char>, zero: char)
    requires
        no_digits(s, zero),
    ensures
        plain_digits(s, zero) == Seq::<char>::empty(),
    decreases s.len(),
{
    if s.len() > 0 {
        assert(plain_digit(s[s.len() - 1], zero) is None);
        lemma_no_digits(s.drop_last(), zero);
    }
}

/// A character in the digits of a family.
spec fn shown(c: char, zero: char) -> char {
    if zero == '0' {
        c
    } else {
        in_other_family(c, zero)
    }
}

spec fn shown_all(s: Seq<char>, zero: char) -> Seq<char> {
    s.map_values(|c: char| shown(c, zero))
}

/// A zero is that of ASCII or of a family that pictures know.
spec fn known_zero(zero: char) -> bool {
    zero == '0' || exists|i: int| 0 <= i < family_zeros().len() && #[trigger] family_zeros()[i] == zero
}

/// The families lie above ASCII and hold characters only.
proof fn lemma_known_zero(zero: char)
    requires
        known_zero(zero),
    ensures
        zero == '0' || zero as int >= 0x660,
        scalar_value(zero as int + 9) && scalar_value(zero as int),
        forall|v: int| 0 <= v <= 9 ==> #[trigger] scalar_value(zero as int + v),
{
    if zero != '0' {
        let i = choose|i: int| 0 <= i < family_zeros().len() && #[trigger] family_zeros()[i] == zero;
        assert(family_zeros().len() == 36);
        assert(0x660 <= zero as int <= 0xff10 && (zero as int + 9 < 0xd800 || zero as int >= 0xff10));
    }
}

/// A digit in a family is read as that digit.
proof fn lemma_shown_digit(c: char, zero: char)
    requires
        is_digit(c),
        known_zero(zero),
    ensures
        plain_digit(shown(c, zero), zero) == Some(c),
{
    lemma_known_zero(zero);
    if zero != '0' {
        assert(scalar_value(zero as int + digit_value(c)));
        let d = shown(c, zero);
        assert(d as int == zero as int + digit_value(c));
    }
}

/// A separator is left as it is, and is no digit of the family.
proof fn lemma_shown_separator(c: char, zero: char)
    requires
        !mandatory(c),
        c != '-',
        known_zero(zero),
    ensures
        plain_digit(shown(c, zero), zero) is None,
{
    lemma_known_zero(zero);
    if zero != '0' {
        let i = choose|i: int| 0 <= i < family_zeros().len() && #[trigger] family_zeros()[i] == zero;
        if in_family(c, zero) {
            lemma_family(c, i, 0);
        }
    }
}

/// A character of a family is a digit.
proof fn lemma_family(c: char, i: int, from: int)
    requires
        0 <= from <= i < family_zeros().len(),
        in_family(c, family_zeros()[i]),
    ensures
        family_zero(family_zeros(), c, from) is Some,
    decreases i - from,
{
    if from < i && !in_family(c, family_zeros()[from]) {
        lemma_family(c, i, from + 1);
    }
}

/// Whether the separators of a picture are neither digits nor a minus sign.
spec fn plain_separators(g: Seq<(char, int)>) -> bool {
    forall|i: int| 0 <= i < g.len() ==> !mandatory((#[trigger] g[i]).0) && g[i].0 != '-'
}

proof fn lemma_listed(g: Seq<(char, int)>, pos: int)
    requires
        plain_separators(g),
    ensures
        match super::format_integer::listed(g, pos) {
            Some(c) => !mandatory(c) && c != '-',
            None => true,
        },
    decreases g.len(),
{
    if g.len() > 0 {
        assert(!mandatory(g[g.len() - 1].0));
        if g.last().1 != pos {
            lemma_listed(g.drop_last(), pos);
        }
    }
}

proof fn lemma_separator_at(g: Seq<(char, int)>, pos: int)
    requires
        plain_separators(g),
    ensures
        match separator_at(g, pos) {
            Some(c) => !mandatory(c) && c != '-',
            None => true,
        },
{
    lemma_listed(g, pos);
    if g.len() > 0 {
        assert(!mandatory(g[0].0));
    }
}

/// Separators drop out when digits are read.
proof fn lemma_separated_digits(d: Seq<char>, g: Seq<(char, int)>, k: int, zero: char)
    requires
        all_digits(d),
        plain_separators(g),
        0 <= k <= d.len(),
        known_zero(zero),
    ensures
        plain_digits(shown_all(separated(d, g, k), zero), zero) == d.take(k),
    decreases k,
{
    if k == 0 {
        assert(shown_all(separated(d, g, k), zero) =~= Seq::empty());
        assert(d.take(0) =~= Seq::empty());
    } else {
        let i = k - 1;
        lemma_separated_digits(d, g, i, zero);
        let before = separated(d, g, i);
        let sep = separator_at(g, d.len() - i);
        lemma_separator_at(g, d.len() - i);
        let last = if sep is Some && i > 0 {
            seq![sep->0, d[i]]
        } else {
            seq![d[i]]
        };
        assert(separated(d, g, k) =~= before + last);
        let a = shown_all(before, zero);
        let b = shown_all(last, zero);
        assert(shown_all(separated(d, g, k), zero) =~= a + b);
        lemma_plain_digits_add(a, b, zero);
        assert(is_digit(d[i]));
        lemma_shown_digit(d[i], zero);
        if sep is Some && i > 0 {
            lemma_shown_separator(sep->0, zero);
            assert(b.drop_last().drop_last() =~= Seq::empty());
            assert(b.drop_last().last() == shown(sep->0, zero));
            assert(plain_digits(b.drop_last().drop_last(), zero) =~= Seq::empty());
            assert(plain_digits(b.drop_last(), zero) =~= Seq::empty());
            assert(b.last() == shown(d[i], zero));
            assert(plain_digits(b, zero) =~= seq![d[i]]);
        } else {
            assert(b.drop_last() =~= Seq::empty());
            assert(plain_digits(b.drop_last(), zero) =~= Seq::empty());
            assert(b.last() == shown(d[i], zero));
            assert(plain_digits(b, zero) =~= seq![d[i]]);
        }
        assert(d.take(k) =~= d.take(i) + seq![d[i]]);
    }
}

/// The separators of a picture are its characters that stand for no digit.
proof fn lemma_picture_separators(p: Seq<char>, i: int, d: int)
    requires
        0 <= i <= p.len(),
        forall|k: int| 0 <= k < p.len() ==> #[trigger] p[k] != '-',
    ensures
        plain_separators(separators(p, i, d)),
    decreases i,
{
    if i > 0 {
        if placeholder(p[i - 1]) {
            lemma_picture_separators(p, i - 1, d + 1);
        } else {
            lemma_picture_separators(p, i - 1, d);
            if d > 0 {
                let rest = separators(p, i - 1, d);
                let all = separators(p, i, d);
                assert(all =~= seq![(p[i - 1], d)] + rest);
                assert forall|k: int| 0 <= k < all.len() implies !mandatory((#[trigger] all[k]).0) && all[k].0 != '-' by {
                    if k > 0 {
                        assert(all[k] == rest[k - 1]);
                    }
                }
            }
        }
    }
}

/// Leading zeros change nothing of a number.
pub proof fn lemma_zeros(k: nat, d: Seq<char>)
    requires
        all_digits(d),
    ensures
        all_digits(repeated('0', k) + d),
        number_of(repeated('0', k) + d) == number_of(d),
    decreases d.len(),
{
    let s = repeated('0', k) + d;
    if d.len() == 0 {
        assert(s =~= repeated('0', k));
        lemma_only_zeros(k);
    } else {
        assert forall|i: int| 0 <= i < d.drop_last().len() implies is_digit(#[trigger] d.drop_last()[i]) by {
            assert(is_digit(d[i]));
        }
        lemma_zeros(k, d.drop_last());
        assert(s.drop_last() =~= repeated('0', k) + d.drop_last());
        assert(s.last() == d.last());
        assert forall|i: int| 0 <= i < s.len() implies is_digit(#[trigger] s[i]) by {
            if i >= k {
                assert(is_digit(d[i - k]));
            }
        }
    }
}

proof fn lemma_only_zeros(k: nat)
    ensures
        all_digits(repeated('0', k)),
        number_of(repeated('0', k)) == 0,
    decreases k,
{
    if k > 0 {
        lemma_only_zeros((k - 1) as nat);
        assert(repeated('0', k).drop_last() =~= repeated('0', (k - 1) as nat));
    }
}

/// The zero that a picture is formatted with is known.
proof fn lemma_family_known(p: Seq<char>, i: int, zero: char, found: bool)
    requires
        known_zero(zero),
    ensures
        match family_from(p, i, zero, found) {
            Some(z) => known_zero(z),
            None => true,
        },
    decreases p.len() - i,
{
    if 0 <= i < p.len() {
        if is_digit(p[i]) {
            lemma_family_known(p, i + 1, '0', true);
        } else {
            match digit_zero(p[i]) {
                Some(z) => {
                    lemma_zero_known(p[i], 0);
                    lemma_family_known(p, i + 1, z, true);
                },
                None => {
                    lemma_family_known(p, i + 1, zero, found);
                },
            }
        }
    }
}

proof fn lemma_zero_known(c: char, from: int)
    requires
        0 <= from,
    ensures
        match family_zero(family_zeros(), c, from) {
            Some(z) => known_zero(z),
            None => true,
        },
    decreases family_zeros().len() - from,
{
    if from < family_zeros().len() && !in_family(c, family_zeros()[from]) {
        lemma_zero_known(c, from + 1);
    }
}

/// Where all digits of a picture are of one family, the last of them is.
proof fn lemma_last_family(p: Seq<char>, i: int, zero: char, found: bool)
    requires
        0 <= i <= p.len(),
        found ==> picture_zero(p.take(i)) == Some(zero),
        !found ==> picture_zero(p.take(i)) is None,
        family_from(p, i, zero, found) is Some,
        mandatory_count(p) > 0 || found,
        !found ==> forall|k: int| 0 <= k < i ==> !mandatory(#[trigger] p[k]),
    ensures
        picture_zero(p) == family_from(p, i, zero, found),
    decreases p.len() - i,
{
    if i == p.len() {
        assert(p.take(i) =~= p);
        if !found {
            lemma_none_mandatory(p);
        }
    } else {
        let next = p.take(i + 1);
        assert(next.drop_last() =~= p.take(i));
        assert(next.last() == p[i]);
        if is_digit(p[i]) {
            lemma_last_family(p, i + 1, '0', true);
        } else {
            match digit_zero(p[i]) {
                Some(z) => {
                    lemma_last_family(p, i + 1, z, true);
                },
                None => {
                    lemma_last_family(p, i + 1, zero, found);
                },
            }
        }
    }
}

proof fn lemma_none_mandatory(p: Seq<char>)
    requires
        forall|k: int| 0 <= k < p.len() ==> !mandatory(#[trigger] p[k]),
    ensures
        mandatory_count(p) == 0,
    decreases p.len(),
{
    if p.len() > 0 {
        lemma_none_mandatory(p.drop_last());
    }
}

/// What follows the digits of a picture does not change their family.
proof fn lemma_zero_before(a: Seq<char>, b: Seq<char>)
    requires
        forall|k: int| 0 <= k < b.len() ==> !mandatory(#[trigger] b[k]),
    ensures
        picture_zero(a + b) == picture_zero(a),
    decreases b.len(),
{
    if b.len() == 0 {
        assert(a + b =~= a);
    } else {
        assert((a + b).drop_last() =~= a + b.drop_last());
        assert((a + b).last() == b[b.len() - 1]);
        lemma_zero_before(a, b.drop_last());
    }
}

/// Whether a picture is one of digits that can be read back: it has a digit that
/// must be there, no minus sign among its separators, and no digit in what
/// follows the token.
pub open spec fn digits_picture(picture: Seq<char>) -> bool {
    let t = picture_token(picture);
    &&& !words_token(t)
    &&& !(t.len() == 1 && ascii_letter(t[0]))
    &&& mandatory_count(t) > 0
    &&& forall|k: int| 0 <= k < t.len() ==> #[trigger] t[k] != '-'
    &&& forall|k: int| t.len() <= k < picture.len() ==> !mandatory(#[trigger] picture[k])
}

/// An ordinal suffix is no digit.
proof fn lemma_suffix(n: int, zero: char)
    requires
        known_zero(zero),
    ensures
        no_digits(suffix_of(n), zero),
{
    reveal_strlit("th");
    reveal_strlit("st");
    reveal_strlit("nd");
    reveal_strlit("rd");
    lemma_known_zero(zero);
}

/// Parsing decimal digits gives the number that was formatted with them, by any
/// picture of digits: with separators, leading zeros, the digits of another
/// script, an ordinal suffix and a sign.
pub proof fn law_digits_round_trip(n: int, picture: Seq<char>, text: Seq<char>)
    requires
        -LARGEST <= n <= LARGEST,
        digits_picture(picture),
        integer_text(n, picture) == Ok::<Seq<char>, Seq<char>>(text),
    ensures
        parsed_integer(text, picture) == Ok::<Number, Seq<char>>(Number::of_int(n)),
{
    lemma_tokens();
    let t = picture_token(picture);
    let m = picture_modifier(picture);
    let a = (if n < 0 {
        -n
    } else {
        n
    }) as nat;
    assert(has_placeholder(t)) by {
        if !has_placeholder(t) {
            assert forall|k: int| 0 <= k < t.len() implies !mandatory(#[trigger] t[k]) by {
                assert(!placeholder(t[k]));
            }
            lemma_none_mandatory(t);
        }
    }
    assert(t != "i"@ && t != "I"@);
    assert(decimal_text(a, t) is Ok);
    let whole = magnitude_text(a, t, m)->Ok_0;
    let body = decimal_text(a, t)->Ok_0;
    let zero = family_from(t, 0, '0', false)->0;
    lemma_family_known(t, 0, '0', false);
    assert(t.take(0) =~= Seq::empty());
    lemma_last_family(t, 0, '0', false);
    let tail = picture.skip(t.len() as int);
    lemma_token_prefix(picture);
    assert forall|k: int| 0 <= k < tail.len() implies !mandatory(#[trigger] tail[k]) by {
        assert(tail[k] == picture[t.len() + k]);
    }
    lemma_zero_before(t, tail);
    assert(picture_zero(picture) == Some(zero));
    let d = zero_padded(a, mandatory_count(t));
    let g = separators(t, t.len() as int, 0);
    lemma_nat_text(a);
    let plain = nat_text(a);
    assert(all_digits(d) && number_of(d) == a) by {
        if plain.len() < mandatory_count(t) {
            lemma_zeros((mandatory_count(t) - plain.len()) as nat, plain);
        }
    }
    lemma_picture_separators(t, t.len() as int, 0);
    lemma_separated_digits(d, g, d.len() as int, zero);
    assert(d.take(d.len() as int) =~= d);
    let s = separated(d, g, d.len() as int);
    assert(body =~= shown_all(s, zero));
    assert(plain_digits(body, zero) == d);
    let suffix = if m == "o"@ {
        suffix_of(a as int)
    } else {
        Seq::empty()
    };
    assert(whole =~= body + suffix);
    lemma_suffix(a as int, zero);
    lemma_no_digits(suffix, zero);
    lemma_plain_digits_add(body, suffix, zero);
    assert(plain_digits(whole, zero) =~= d);
    assert(d.len() > 0);
    if n < 0 {
        let sign = seq!['-'];
        assert(text =~= sign + whole);
        lemma_plain_digits_add(sign, whole, zero);
        assert(sign.drop_last() =~= Seq::empty());
        assert(plain_digits(sign.drop_last(), zero) =~= Seq::empty());
        assert(plain_digits(sign, zero) =~= seq!['-']);
        let r = plain_digits(text, zero);
        assert(r =~= seq!['-'] + d);
        assert(r.skip(1) =~= d);
        assert(parse_spec(r, i64::MIN as int, i64::MAX as int) == Some(n));
    } else {
        assert(text == whole);
        assert(is_digit(d[0]));
        assert(parse_spec(d, i64::MIN as int, i64::MAX as int) == Some(n));
    }
}

/// The token of a picture is what it begins with.
pub proof fn lemma_token_prefix(picture: Seq<char>)
    ensures
        picture_token(picture).len() <= picture.len(),
        picture == picture_token(picture) + picture.skip(picture_token(picture).len() as int),
{
    let t = picture_token(picture);
    lemma_find_bound(picture, 0);
    assert(picture =~= t + picture.skip(t.len() as int));
}

proof fn lemma_find_bound(s: Seq<char>, from: int)
    requires
        0 <= from,
    ensures
        match crate::text::find_char(s, ';', from) {
            Some(i) => from <= i < s.len(),
            None => true,
        },
    decreases s.len() - from,
{
    if from < s.len() && s[from] != ';' {
        lemma_find_bound(s, from + 1);
    }
}

} // verus!
