//! `$parseInteger(string, picture)`: integers from text by a picture.
use vstd::prelude::*;

use super::number_words::{
    digit_zero, find_last_word, last_word_start, ones, ones_word, ordinal_pairs, ordinal_table, pair_texts,
    picture_token, roman_digit, roman_value, split_picture, table_first, tens, tens_word, unicode_digit_zero,
};
use crate::error::{fail, out, JsonataError, JsonataResult};
use crate::number::Number;
use crate::text::{
    ascii_letter, chars_of, digit, is_digit, is_text, lower_chars, lowercase, parse_int, parse_spec, part, push_text,
    split_words, texts_of, upper_chars, uppercase, words_from,
};
use crate::value::{vals, Val, Value};

verus! {

// ── Words ────────────────────────────────────────────────────────────────────

/// The value of the word for a number below twenty, searched up from `n`.
pub open spec fn ones_value(w: Seq<char>, n: int) -> Option<int>
    decreases 20 - n,
{
    if n > 19 {
        None
    } else if w == ones_word(n) {
        Some(n)
    } else {
        ones_value(w, n + 1)
    }
}

/// The value of the word for a multiple of ten, searched up from `n` tens.
pub open spec fn tens_value(w: Seq<char>, n: int) -> Option<int>
    decreases 10 - n,
{
    if n > 9 {
        None
    } else if w == tens_word(n) {
        Some(10 * n)
    } else {
        tens_value(w, n + 1)
    }
}

/// The value of a number word.
pub open spec fn word_value(w: Seq<char>) -> Option<int> {
    if w == "zero"@ {
        Some(0)
    } else if w == "hundred"@ {
        Some(100)
    } else if w == "thousand"@ {
        Some(1000)
    } else if w == "million"@ {
        Some(1_000_000)
    } else if w == "billion"@ {
        Some(1_000_000_000)
    } else if w == "trillion"@ {
        Some(1_000_000_000_000)
    } else {
        match ones_value(w, 1) {
            Some(v) => Some(v),
            None => tens_value(w, 2),
        }
    }
}

fn read_word_value(w: &[char]) -> (r: Option<i64>)
    ensures
        match r {
            Some(v) => word_value(w@) == Some(v as int),
            None => word_value(w@) is None,
        },
{
    if is_text(w, "zero") {
        return Some(0);
    }
    if is_text(w, "hundred") {
        return Some(100);
    }
    if is_text(w, "thousand") {
        return Some(1000);
    }
    if is_text(w, "million") {
        return Some(1_000_000);
    }
    if is_text(w, "billion") {
        return Some(1_000_000_000);
    }
    if is_text(w, "trillion") {
        return Some(1_000_000_000_000);
    }
    let ghost want = word_value(w@);
    let mut n: i64 = 1;
    while n <= 19
        invariant
            1 <= n <= 20,
            ones_value(w@, 1) == ones_value(w@, n as int),
            want == word_value(w@),
            want == match ones_value(w@, 1) {
                Some(v) => Some(v),
                None => tens_value(w@, 2),
            },
        decreases 20 - n,
    {
        if is_text(w, ones(n)) {
            return Some(n);
        }
        n = n + 1;
    }
    let mut t: i64 = 2;
    while t <= 9
        invariant
            2 <= t <= 10,
            tens_value(w@, 2) == tens_value(w@, t as int),
            ones_value(w@, 1) is None,
            want == word_value(w@),
            want == match ones_value(w@, 1) {
                Some(v) => Some(v),
                None => tens_value(w@, 2),
            },
        decreases 10 - t,
    {
        if is_text(w, tens(t)) {
            return Some(10 * t);
        }
        t = t + 1;
    }
    None
}

/// A phrase whose last word, if it is an irregular ordinal, is made cardinal.
pub open spec fn cardinal_phrase(s: Seq<char>) -> Seq<char> {
    let i = last_word_start(s, s.len() as int);
    match table_first(ordinal_table(), s.skip(i), 0) {
        Some(c) => s.take(i) + c,
        None => s,
    }
}

fn de_ordinalise(s: &[char]) -> (r: Vec<char>)
    ensures
        r@ == cardinal_phrase(s@),
{
    let i: usize = find_last_word(s);
    let last = part(s, i, s.len());
    assert(last@ =~= s@.skip(i as int));
    let table = ordinal_pairs();
    let ghost t = ordinal_table();
    let mut k: usize = 0;
    while k < table.len()
        invariant
            k <= table.len(),
            pair_texts(table@) == t,
            t == ordinal_table(),
            i <= s@.len(),
            i == last_word_start(s@, s@.len() as int),
            last@ == s@.skip(i as int),
            table_first(t, last@, 0) == table_first(t, last@, k as int),
        decreases table.len() - k,
    {
        let (cardinal, ordinal) = table[k];
        assert(t[k as int] == (cardinal@, ordinal@));
        if is_text(last.as_slice(), ordinal) {
            let mut r = part(s, 0, i);
            push_text(&mut r, cardinal);
            assert(r@ =~= s@.take(i as int) + cardinal@);
            return r;
        }
        k = k + 1;
    }
    let r = part(s, 0, s.len());
    assert(r@ =~= s@);
    r
}

/// A text with hyphens and commas as spaces.
pub open spec fn spaced(s: Seq<char>) -> Seq<char> {
    s.map_values(
        |c: char|
            if c == '-' || c == ',' {
                ' '
            } else {
                c
            },
    )
}

fn space_out(s: &[char]) -> (r: Vec<char>)
    ensures
        r@ == spaced(s@),
{
    let mut r: Vec<char> = Vec::new();
    let mut i: usize = 0;
    while i < s.len()
        invariant
            i <= s.len(),
            r@ =~= spaced(s@).take(i as int),
        decreases s.len() - i,
    {
        let c: char = s[i];
        if c == '-' || c == ',' {
            r.push(' ');
        } else {
            r.push(c);
        }
        i = i + 1;
    }
    assert(spaced(s@).take(i as int) =~= spaced(s@));
    r
}

/// What has been counted so far: what is complete, and the group in hand.
pub struct Tally {
    pub total: Number,
    pub current: Number,
}

/// A tally with one more number word.
pub open spec fn tallied(t: Tally, v: int) -> Tally {
    let n = Number::of_int(v);
    let one = Number::of_int(1);
    if v == 100 {
        Tally {
            current: (if t.current.zero() {
                one
            } else {
                t.current
            }).times_spec(n),
            ..t
        }
    } else if v >= 1000 {
        if t.current.zero() {
            Tally {
                total: (if t.total.zero() {
                    one
                } else {
                    t.total
                }).times_spec(n),
                ..t
            }
        } else {
            Tally { total: t.total.plus_spec(t.current.times_spec(n)), current: Number::of_int(0) }
        }
    } else {
        Tally { current: t.current.plus_spec(n), ..t }
    }
}

fn tally(t: Tally, v: i64) -> (r: Tally)
    ensures
        r == tallied(t, v as int),
{
    let n = Number::from_i64(v);
    if v == 100 {
        let c = if t.current.is_zero() {
            Number::from_i64(1)
        } else {
            t.current
        };
        Tally { total: t.total, current: c.times(&n) }
    } else if v >= 1000 {
        if t.current.is_zero() {
            let u = if t.total.is_zero() {
                Number::from_i64(1)
            } else {
                t.total
            };
            Tally { total: u.times(&n), current: t.current }
        } else {
            Tally { total: t.total.plus(&t.current.times(&n)), current: Number::from_i64(0) }
        }
    } else {
        Tally { total: t.total, current: t.current.plus(&n) }
    }
}

/// The number of words from `k` on, after a tally.
pub open spec fn words_number(ws: Seq<Seq<char>>, k: int, t: Tally) -> Option<Number>
    decreases ws.len() - k,
{
    if k < 0 || k >= ws.len() {
        Some(t.total.plus_spec(t.current))
    } else if ws[k] == "and"@ {
        words_number(ws, k + 1, t)
    } else {
        match word_value(ws[k]) {
            Some(v) => words_number(ws, k + 1, tallied(t, v)),
            None => None,
        }
    }
}

pub open spec fn empty_tally() -> Tally {
    Tally { total: Number::of_int(0), current: Number::of_int(0) }
}

/// The number that a phrase stands for.
pub open spec fn phrase_number(s: Seq<char>) -> Option<Number> {
    words_number(words_from(spaced(cardinal_phrase(s)), 0), 0, empty_tally())
}

fn words_to_float(s: &[char]) -> (r: Option<Number>)
    ensures
        r == phrase_number(s@),
{
    let c = de_ordinalise(s);
    let p = space_out(c.as_slice());
    let words = split_words(p.as_slice());
    let ghost ws = texts_of(words@);
    let mut t = Tally { total: Number::from_i64(0), current: Number::from_i64(0) };
    let mut k: usize = 0;
    while k < words.len()
        invariant
            k <= words.len(),
            ws == texts_of(words@),
            phrase_number(s@) == words_number(ws, 0, empty_tally()),
            words_number(ws, 0, empty_tally()) == words_number(ws, k as int, t),
        decreases words.len() - k,
    {
        assert(ws[k as int] == words@[k as int]@);
        if !is_text(words[k].as_slice(), "and") {
            match read_word_value(words[k].as_slice()) {
                Some(v) => {
                    t = tally(t, v);
                },
                None => {
                    return None;
                },
            }
        }
        k = k + 1;
    }
    Some(t.total.plus(&t.current))
}

// ── Roman numerals ───────────────────────────────────────────────────────────

/// The value of a Roman numeral from `i` on: a digit before a larger one is
/// subtracted.
pub open spec fn roman_from(s: Seq<char>, i: int) -> Option<int>
    decreases s.len() - i,
{
    if i < 0 || i >= s.len() {
        Some(0)
    } else {
        match (roman_digit(s[i]), roman_from(s, i + 1)) {
            (Some(v), Some(rest)) => if i + 1 < s.len() && roman_digit(s[i + 1])->0 > v {
                Some(rest - v)
            } else {
                Some(rest + v)
            },
            _ => None,
        }
    }
}

/// The value of a Roman numeral, if it is one of 64 bits.
pub open spec fn roman_number(s: Seq<char>) -> Option<int> {
    match roman_from(s, 0) {
        Some(v) => if i64::MIN <= v <= i64::MAX {
            Some(v)
        } else {
            None
        },
        None => None,
    }
}

proof fn lemma_not_roman(s: Seq<char>, i: int, k: int)
    requires
        0 <= i <= k < s.len(),
        roman_digit(s[k]) is None,
    ensures
        roman_from(s, i) is None,
    decreases k - i,
{
    if i < k {
        lemma_not_roman(s, i + 1, k);
    }
}

fn from_roman(s: &[char]) -> (r: Option<i64>)
    ensures
        match r {
            Some(v) => roman_number(s@) == Some(v as int),
            None => roman_number(s@) is None,
        },
{
    let n: usize = s.len();
    let mut total: i128 = 0;
    let mut next: i64 = 0;
    let mut i: usize = n;
    while i > 0
        invariant
            i <= n,
            n == s@.len(),
            roman_from(s@, i as int) == Some(total as int),
            -1000 * (n - i) <= total <= 1000 * (n - i),
            i < n ==> roman_digit(s@[i as int]) == Some(next as int),
            i == n ==> next == 0,
        decreases i,
    {
        i = i - 1;
        match roman_value(s[i]) {
            Some(v) => {
                if next > v {
                    total = total - v as i128;
                } else {
                    total = total + v as i128;
                }
                next = v;
            },
            None => {
                proof {
                    lemma_not_roman(s@, 0, i as int);
                }
                return None;
            },
        }
    }
    if total < i64::MIN as i128 || total > i64::MAX as i128 {
        return None;
    }
    Some(total as i64)
}

// ── Alphabetic numerals ──────────────────────────────────────────────────────

/// The value of lower-case letters, if it is one of 64 bits.
pub open spec fn letters_number(s: Seq<char>) -> Option<int>
    decreases s.len(),
{
    if s.len() == 0 {
        Some(0)
    } else {
        match letters_number(s.drop_last()) {
            Some(n) => {
                let v = n * 26 + (s.last() as int - 'a' as int + 1);
                if 'a' <= s.last() <= 'z' && v <= i64::MAX {
                    Some(v)
                } else {
                    None
                }
            },
            None => None,
        }
    }
}

proof fn lemma_no_letters(s: Seq<char>, i: int)
    requires
        0 <= i <= s.len(),
        letters_number(s.take(i)) is None,
    ensures
        letters_number(s) is None,
    decreases s.len() - i,
{
    if i == s.len() {
        assert(s.take(i) =~= s);
    } else {
        assert(s.take(i + 1).drop_last() =~= s.take(i));
        lemma_no_letters(s, i + 1);
    }
}

fn from_alphabetic(s: &[char]) -> (r: Option<i64>)
    ensures
        match r {
            Some(v) => letters_number(s@) == Some(v as int),
            None => letters_number(s@) is None,
        },
{
    let mut n: i64 = 0;
    let mut i: usize = 0;
    assert(s@.take(0) =~= Seq::empty());
    while i < s.len()
        invariant
            i <= s.len(),
            n >= 0,
            letters_number(s@.take(i as int)) == Some(n as int),
        decreases s.len() - i,
    {
        let c: char = s[i];
        assert(s@.take(i + 1).drop_last() =~= s@.take(i as int));
        let ok: bool = 'a' <= c && c <= 'z';
        let v: i128 = if ok {
            n as i128 * 26 + (c as i128 - 96)
        } else {
            0
        };
        if !ok || v > i64::MAX as i128 {
            proof {
                lemma_no_letters(s@, i + 1);
            }
            return None;
        }
        n = v as i64;
        i = i + 1;
    }
    assert(s@.take(i as int) =~= s@);
    Some(n)
}

// ── Decimal digits ───────────────────────────────────────────────────────────

/// The zero of the last digit of a picture.
pub open spec fn picture_zero(p: Seq<char>) -> Option<char>
    decreases p.len(),
{
    if p.len() == 0 {
        None
    } else if is_digit(p.last()) {
        Some('0')
    } else {
        match digit_zero(p.last()) {
            Some(z) => Some(z),
            None => picture_zero(p.drop_last()),
        }
    }
}

fn find_picture_zero(p: &[char]) -> (r: Option<char>)
    ensures
        r == picture_zero(p@),
{
    let mut i: usize = p.len();
    assert(p@.take(i as int) =~= p@);
    while i > 0
        invariant
            i <= p.len(),
            picture_zero(p@) == picture_zero(p@.take(i as int)),
        decreases i,
    {
        let c: char = p[i - 1];
        assert(p@.take(i as int).drop_last() =~= p@.take(i - 1));
        if digit(c) {
            return Some('0');
        }
        match unicode_digit_zero(c) {
            Some(z) => {
                return Some(z);
            },
            None => {},
        }
        i = i - 1;
    }
    None
}

/// The ASCII digit or sign that a character stands for, if it does.
pub open spec fn plain_digit(c: char, zero: char) -> Option<char> {
    if c == '-' || is_digit(c) {
        Some(c)
    } else if zero != '0' && zero as int <= c as int <= zero as int + 9 {
        Some(('0' as int + (c as int - zero as int)) as char)
    } else {
        None
    }
}

fn read_plain_digit(c: char, zero: char) -> (r: Option<char>)
    ensures
        r == plain_digit(c, zero),
{
    if c == '-' || digit(c) {
        return Some(c);
    }
    if zero != '0' {
        let a: u32 = c as u32;
        let z: u32 = zero as u32;
        if z <= a && a - z <= 9 {
            return Some((48 + (a - z) as u8) as char);
        }
    }
    None
}

/// The digits and signs of a text.
pub open spec fn plain_digits(s: Seq<char>, zero: char) -> Seq<char>
    decreases s.len(),
{
    if s.len() == 0 {
        Seq::empty()
    } else {
        match plain_digit(s.last(), zero) {
            Some(d) => plain_digits(s.drop_last(), zero).push(d),
            None => plain_digits(s.drop_last(), zero),
        }
    }
}

fn collect_digits(s: &[char], zero: char) -> (r: Vec<char>)
    ensures
        r@ == plain_digits(s@, zero),
{
    let mut r: Vec<char> = Vec::new();
    let mut i: usize = 0;
    assert(s@.take(0) =~= Seq::empty());
    while i < s.len()
        invariant
            i <= s.len(),
            r@ == plain_digits(s@.take(i as int), zero),
        decreases s.len() - i,
    {
        assert(s@.take(i + 1).drop_last() =~= s@.take(i as int));
        match read_plain_digit(s[i], zero) {
            Some(d) => {
                r.push(d);
            },
            None => {},
        }
        i = i + 1;
    }
    assert(s@.take(i as int) =~= s@);
    r
}

// ── Entry ────────────────────────────────────────────────────────────────────

/// An integer as a number, or the code for a text that is none.
pub open spec fn integer_or_error(v: Option<int>) -> Result<Number, Seq<char>> {
    match v {
        Some(n) => Ok(Number::of_int(n)),
        None => Err("D3137"@),
    }
}

/// The number that a text stands for by a picture.
pub open spec fn parsed_integer(s: Seq<char>, picture: Seq<char>) -> Result<Number, Seq<char>> {
    let t = picture_token(picture);
    if t == "w"@ || t == "W"@ || t == "Ww"@ {
        match phrase_number(lowercase(s)) {
            Some(n) => Ok(n),
            None => Err("D3137"@),
        }
    } else if t == "i"@ || t == "I"@ {
        integer_or_error(roman_number(uppercase(s)))
    } else if t.len() == 1 && ascii_letter(t[0]) {
        integer_or_error(letters_number(lowercase(s)))
    } else {
        match picture_zero(picture) {
            None => Err("D3130"@),
            Some(zero) => integer_or_error(
                parse_spec(plain_digits(s, zero), i64::MIN as int, i64::MAX as int),
            ),
        }
    }
}

pub open spec fn out_parsed(r: Result<Number, JsonataError>) -> Result<Number, Seq<char>> {
    match r {
        Ok(n) => Ok(n),
        Err(e) => Err(e.code@),
    }
}

fn integer_result(v: Option<i64>, before: &str, s: &[char], after: &str) -> (r: Result<Number, JsonataError>)
    ensures
        match v {
            Some(n) => r == Ok::<Number, JsonataError>(Number::of_int(n as int)),
            None => out_parsed(r) == Err::<Number, Seq<char>>("D3137"@),
        },
{
    match v {
        Some(n) => Ok(Number::from_i64(n)),
        None => Err(JsonataError::about("D3137", before, s, after)),
    }
}

/// The number that a text stands for by a picture.
pub fn parse_integer_with_picture(s: &[char], picture: &[char]) -> (r: Result<Number, JsonataError>)
    ensures
        out_parsed(r) == parsed_integer(s@, picture@),
{
    let (t, _m) = split_picture(picture);
    if is_text(t.as_slice(), "w") || is_text(t.as_slice(), "W") || is_text(t.as_slice(), "Ww") {
        return match words_to_float(lower_chars(s).as_slice()) {
            Some(n) => Ok(n),
            None => Err(JsonataError::about("D3137", "$parseInteger: unknown word in \"", s, "\"")),
        };
    }
    if is_text(t.as_slice(), "i") || is_text(t.as_slice(), "I") {
        return integer_result(
            from_roman(upper_chars(s).as_slice()),
            "$parseInteger: invalid Roman numeral \"",
            s,
            "\"",
        );
    }
    if t.len() == 1 {
        let c: char = t[0];
        if ('a' <= c && c <= 'z') || ('A' <= c && c <= 'Z') {
            return integer_result(
                from_alphabetic(lower_chars(s).as_slice()),
                "$parseInteger: invalid alphabetic character in \"",
                s,
                "\"",
            );
        }
    }
    let zero: char = match find_picture_zero(picture) {
        Some(z) => z,
        None => {
            return Err(
                JsonataError::new(
                    "D3130",
                    "$parseInteger: picture string must contain at least one mandatory digit placeholder",
                ),
            );
        },
    };
    let d = collect_digits(s, zero);
    integer_result(
        match parse_int(d.as_slice(), i64::MIN as i128, i64::MAX as i128) {
            Some(v) => Some(v as i64),
            None => None,
        },
        "$parseInteger: cannot parse \"",
        s,
        "\" as integer",
    )
}

/// What `$parseInteger` gives.
pub open spec fn parse_integer(a: Seq<Val>) -> Result<Val, Seq<char>> {
    if a.len() < 2 {
        Err("T0410"@)
    } else {
        match a[0] {
            Val::Undefined => Ok(Val::Undefined),
            Val::String(s) => match a[1] {
                Val::String(p) => match parsed_integer(s, p) {
                    Ok(n) => Ok(Val::Number(n)),
                    Err(e) => Err(e),
                },
                _ => Err("T0410"@),
            },
            _ => Err("T0410"@),
        }
    }
}

/// `$parseInteger(string, picture)`: an integer from text.
pub fn fn_parse_integer(args: &[Value], _focus: &Value) -> (r: JsonataResult)
    ensures
        out(r) == parse_integer(vals(args@)),
{
    if args.len() < 2 {
        return fail("T0410", "$parseInteger: requires 2 arguments");
    }
    assert(vals(args@)[0] == args@[0]@);
    assert(vals(args@)[1] == args@[1]@);
    let s = match &args[0] {
        Value::Undefined => {
            return Ok(Value::Undefined);
        },
        Value::String(s) => chars_of(s.as_str()),
        _ => {
            return fail("T0410", "$parseInteger: argument 1 must be a string");
        },
    };
    let p = match &args[1] {
        Value::String(p) => chars_of(p.as_str()),
        _ => {
            return fail("T0410", "$parseInteger: argument 2 must be a string");
        },
    };
    match parse_integer_with_picture(s.as_slice(), p.as_slice()) {
        Ok(n) => Ok(Value::Number(n)),
        Err(e) => Err(e),
    }
}

} // verus!
