//! Numbers in words, in Roman numerals and as alphabetic sequences.
use vstd::prelude::*;

use crate::text::{ascii_upper, chars_of, find, find_char, magnitude, part, push_all, push_text, text_of, upper_ascii};

verus! {

// ── Words ────────────────────────────────────────────────────────────────────

/// The word for a number from 1 to 19; nothing for any other.
pub open spec fn ones_word(n: int) -> Seq<char> {
    if n == 1 {
        "one"@
    } else if n == 2 {
        "two"@
    } else if n == 3 {
        "three"@
    } else if n == 4 {
        "four"@
    } else if n == 5 {
        "five"@
    } else if n == 6 {
        "six"@
    } else if n == 7 {
        "seven"@
    } else if n == 8 {
        "eight"@
    } else if n == 9 {
        "nine"@
    } else if n == 10 {
        "ten"@
    } else if n == 11 {
        "eleven"@
    } else if n == 12 {
        "twelve"@
    } else if n == 13 {
        "thirteen"@
    } else if n == 14 {
        "fourteen"@
    } else if n == 15 {
        "fifteen"@
    } else if n == 16 {
        "sixteen"@
    } else if n == 17 {
        "seventeen"@
    } else if n == 18 {
        "eighteen"@
    } else if n == 19 {
        "nineteen"@
    } else {
        ""@
    }
}

/// The word for a number from 1 to 19.
pub fn ones(n: i64) -> (r: &'static str)
    ensures
        r@ == ones_word(n as int),
{
    match n {
        1 => "one",
        2 => "two",
        3 => "three",
        4 => "four",
        5 => "five",
        6 => "six",
        7 => "seven",
        8 => "eight",
        9 => "nine",
        10 => "ten",
        11 => "eleven",
        12 => "twelve",
        13 => "thirteen",
        14 => "fourteen",
        15 => "fifteen",
        16 => "sixteen",
        17 => "seventeen",
        18 => "eighteen",
        19 => "nineteen",
        _ => "",
    }
}

/// The word for a multiple of ten, from its tens; nothing below twenty.
pub open spec fn tens_word(n: int) -> Seq<char> {
    if n == 2 {
        "twenty"@
    } else if n == 3 {
        "thirty"@
    } else if n == 4 {
        "forty"@
    } else if n == 5 {
        "fifty"@
    } else if n == 6 {
        "sixty"@
    } else if n == 7 {
        "seventy"@
    } else if n == 8 {
        "eighty"@
    } else if n == 9 {
        "ninety"@
    } else {
        ""@
    }
}

/// The word for a multiple of ten, from its tens.
pub fn tens(n: i64) -> (r: &'static str)
    ensures
        r@ == tens_word(n as int),
{
    match n {
        2 => "twenty",
        3 => "thirty",
        4 => "forty",
        5 => "fifty",
        6 => "sixty",
        7 => "seventy",
        8 => "eighty",
        9 => "ninety",
        _ => "",
    }
}

/// The largest named power of a thousand that is not larger than `n`.
pub open spec fn scale_of(n: int) -> int {
    if n >= 1_000_000_000_000 {
        1_000_000_000_000
    } else if n >= 1_000_000_000 {
        1_000_000_000
    } else if n >= 1_000_000 {
        1_000_000
    } else {
        1000
    }
}

/// The name of a power of a thousand.
pub open spec fn scale_word(v: int) -> Seq<char> {
    if v == 1_000_000_000_000 {
        "trillion"@
    } else if v == 1_000_000_000 {
        "billion"@
    } else if v == 1_000_000 {
        "million"@
    } else {
        "thousand"@
    }
}

/// A number below a thousand in words; nothing for zero.
pub open spec fn small_words(n: int) -> Seq<char> {
    if n < 20 {
        ones_word(n)
    } else if n < 100 {
        if n % 10 == 0 {
            tens_word(n / 10)
        } else {
            tens_word(n / 10) + "-"@ + ones_word(n % 10)
        }
    } else if n % 100 == 0 {
        ones_word(n / 100) + " hundred"@
    } else {
        ones_word(n / 100) + " hundred and "@ + tens_words(n % 100)
    }
}

/// A number below a hundred in words.
pub open spec fn tens_words(n: int) -> Seq<char> {
    if n < 20 {
        ones_word(n)
    } else if n % 10 == 0 {
        tens_word(n / 10)
    } else {
        tens_word(n / 10) + "-"@ + ones_word(n % 10)
    }
}

/// A positive number in words; nothing for zero.
pub open spec fn count_words(n: int) -> Seq<char>
    decreases n,
{
    if n < 1000 {
        small_words(n)
    } else {
        let v = scale_of(n);
        let rest = n % v;
        let head = count_words(n / v) + " "@ + scale_word(v);
        if rest == 0 {
            head
        } else if rest < 100 {
            head + " and "@ + count_words(rest)
        } else {
            head + ", "@ + count_words(rest)
        }
    }
}

/// A number in words.
pub open spec fn words_of(n: int) -> Seq<char> {
    if n == 0 {
        "zero"@
    } else if n < 0 {
        "minus "@ + count_words(-n)
    } else {
        count_words(n)
    }
}

fn below_hundred(out: &mut Vec<char>, n: i64)
    requires
        0 <= n < 100,
    ensures
        final(out)@ == old(out)@ + tens_words(n as int),
{
    let ghost before = out@;
    if n < 20 {
        push_text(out, ones(n));
    } else if n % 10 == 0 {
        push_text(out, tens(n / 10));
    } else {
        push_text(out, tens(n / 10));
        push_text(out, "-");
        push_text(out, ones(n % 10));
        assert(out@ =~= before + tens_words(n as int));
    }
}

fn below_thousand(out: &mut Vec<char>, n: i64)
    requires
        0 <= n < 1000,
    ensures
        final(out)@ == old(out)@ + small_words(n as int),
{
    let ghost before = out@;
    if n < 100 {
        below_hundred(out, n);
        return;
    }
    push_text(out, ones(n / 100));
    if n % 100 == 0 {
        push_text(out, " hundred");
    } else {
        push_text(out, " hundred and ");
        below_hundred(out, n % 100);
    }
    assert(out@ =~= before + small_words(n as int));
}

fn scale_name(v: i64) -> (r: &'static str)
    ensures
        r@ == scale_word(v as int),
{
    if v == 1_000_000_000_000 {
        "trillion"
    } else if v == 1_000_000_000 {
        "billion"
    } else if v == 1_000_000 {
        "million"
    } else {
        "thousand"
    }
}

fn to_words(out: &mut Vec<char>, n: i64)
    requires
        0 <= n,
    ensures
        final(out)@ == old(out)@ + count_words(n as int),
    decreases n,
{
    let ghost before = out@;
    if n < 1000 {
        below_thousand(out, n);
        return;
    }
    let v: i64 = if n >= 1_000_000_000_000 {
        1_000_000_000_000
    } else if n >= 1_000_000_000 {
        1_000_000_000
    } else if n >= 1_000_000 {
        1_000_000
    } else {
        1000
    };
    let q: i64 = n / v;
    let rest: i64 = n % v;
    proof {
        assert(q < n && rest < n && 0 <= rest) by (nonlinear_arith)
            requires
                q == n / v,
                rest == n % v,
                n >= v,
                v >= 1000,
        ;
        assert(0 <= q) by (nonlinear_arith)
            requires
                q == n / v,
                n >= 0,
                v > 0,
        ;
    }
    to_words(out, q);
    push_text(out, " ");
    push_text(out, scale_name(v));
    if rest > 0 {
        if rest < 100 {
            push_text(out, " and ");
        } else {
            push_text(out, ", ");
        }
        to_words(out, rest);
    }
    assert(out@ =~= before + count_words(n as int));
}

/// A number in words, as characters.
pub fn word_chars(n: i64) -> (r: Vec<char>)
    requires
        n > i64::MIN,
    ensures
        r@ == words_of(n as int),
{
    let mut r: Vec<char> = Vec::new();
    if n == 0 {
        push_text(&mut r, "zero");
    } else if n < 0 {
        push_text(&mut r, "minus ");
        to_words(&mut r, -n);
    } else {
        to_words(&mut r, n);
    }
    assert(r@ =~= words_of(n as int));
    r
}

/// A number in words.
pub fn int_to_words(n: i64) -> (r: String)
    requires
        n > i64::MIN,
    ensures
        r@ == words_of(n as int),
{
    text_of(word_chars(n).as_slice())
}

// ── Ordinals ─────────────────────────────────────────────────────────────────

/// English ordinal suffix of a number.
pub open spec fn suffix_of(n: int) -> Seq<char> {
    let a = if n < 0 {
        -n
    } else {
        n
    };
    if 11 <= a % 100 <= 13 {
        "th"@
    } else if a % 10 == 1 {
        "st"@
    } else if a % 10 == 2 {
        "nd"@
    } else if a % 10 == 3 {
        "rd"@
    } else {
        "th"@
    }
}

/// English ordinal suffix of a number: 1 gives "st", 11 gives "th".
pub fn ordinal_suffix(n: i64) -> (r: &'static str)
    ensures
        r@ == suffix_of(n as int),
{
    let a: u64 = magnitude(n);
    let m: u64 = a % 100;
    if 11 <= m && m <= 13 {
        return "th";
    }
    match a % 10 {
        1 => "st",
        2 => "nd",
        3 => "rd",
        _ => "th",
    }
}

/// The words whose ordinals are listed, with those ordinals.
pub open spec fn ordinal_table() -> Seq<(Seq<char>, Seq<char>)> {
    seq![
        ("one"@, "first"@),
        ("two"@, "second"@),
        ("three"@, "third"@),
        ("four"@, "fourth"@),
        ("five"@, "fifth"@),
        ("six"@, "sixth"@),
        ("seven"@, "seventh"@),
        ("eight"@, "eighth"@),
        ("nine"@, "ninth"@),
        ("ten"@, "tenth"@),
        ("eleven"@, "eleventh"@),
        ("twelve"@, "twelfth"@),
        ("thirteen"@, "thirteenth"@),
        ("fourteen"@, "fourteenth"@),
        ("fifteen"@, "fifteenth"@),
        ("sixteen"@, "sixteenth"@),
        ("seventeen"@, "seventeenth"@),
        ("eighteen"@, "eighteenth"@),
        ("nineteen"@, "nineteenth"@),
        ("twenty"@, "twentieth"@),
        ("thirty"@, "thirtieth"@),
        ("forty"@, "fortieth"@),
        ("fifty"@, "fiftieth"@),
        ("sixty"@, "sixtieth"@),
        ("seventy"@, "seventieth"@),
        ("eighty"@, "eightieth"@),
        ("ninety"@, "ninetieth"@),
        ("hundred"@, "hundredth"@),
        ("thousand"@, "thousandth"@),
        ("million"@, "millionth"@),
        ("billion"@, "billionth"@),
        ("trillion"@, "trillionth"@),
    ]
}

pub open spec fn pair_texts(s: Seq<(&'static str, &'static str)>) -> Seq<(Seq<char>, Seq<char>)> {
    s.map_values(|p: (&'static str, &'static str)| (p.0@, p.1@))
}

/// The words whose ordinals are listed, with those ordinals.
pub fn ordinal_pairs() -> (r: Vec<(&'static str, &'static str)>)
    ensures
        pair_texts(r@) == ordinal_table(),
{
    let r: Vec<(&'static str, &'static str)> = vec![
        ("one", "first"),
        ("two", "second"),
        ("three", "third"),
        ("four", "fourth"),
        ("five", "fifth"),
        ("six", "sixth"),
        ("seven", "seventh"),
        ("eight", "eighth"),
        ("nine", "ninth"),
        ("ten", "tenth"),
        ("eleven", "eleventh"),
        ("twelve", "twelfth"),
        ("thirteen", "thirteenth"),
        ("fourteen", "fourteenth"),
        ("fifteen", "fifteenth"),
        ("sixteen", "sixteenth"),
        ("seventeen", "seventeenth"),
        ("eighteen", "eighteenth"),
        ("nineteen", "nineteenth"),
        ("twenty", "twentieth"),
        ("thirty", "thirtieth"),
        ("forty", "fortieth"),
        ("fifty", "fiftieth"),
        ("sixty", "sixtieth"),
        ("seventy", "seventieth"),
        ("eighty", "eightieth"),
        ("ninety", "ninetieth"),
        ("hundred", "hundredth"),
        ("thousand", "thousandth"),
        ("million", "millionth"),
        ("billion", "billionth"),
        ("trillion", "trillionth"),
    ];
    assert(pair_texts(r@) =~= ordinal_table());
    r
}

/// End of the text before its last word: the position after the last space or
/// hyphen before `to`, or the start.
pub open spec fn last_word_start(s: Seq<char>, to: int) -> int
    decreases to,
{
    if to <= 0 || to > s.len() {
        0
    } else if s[to - 1] == ' ' || s[to - 1] == '-' {
        to
    } else {
        last_word_start(s, to - 1)
    }
}

pub fn find_last_word(s: &[char]) -> (r: usize)
    ensures
        r == last_word_start(s@, s@.len() as int),
        r <= s@.len(),
{
    let mut i: usize = s.len();
    while i > 0
        invariant
            i <= s.len(),
            last_word_start(s@, s@.len() as int) == last_word_start(s@, i as int),
        decreases i,
    {
        if s[i - 1] == ' ' || s[i - 1] == '-' {
            return i;
        }
        i = i - 1;
    }
    0
}

/// The second of the first pair at or after `from` whose first is `w`.
pub open spec fn table_second(t: Seq<(Seq<char>, Seq<char>)>, w: Seq<char>, from: int) -> Option<Seq<char>>
    decreases t.len() - from,
{
    if from < 0 || from >= t.len() {
        None
    } else if t[from].0 == w {
        Some(t[from].1)
    } else {
        table_second(t, w, from + 1)
    }
}

/// The first of the first pair at or after `from` whose second is `w`.
pub open spec fn table_first(t: Seq<(Seq<char>, Seq<char>)>, w: Seq<char>, from: int) -> Option<Seq<char>>
    decreases t.len() - from,
{
    if from < 0 || from >= t.len() {
        None
    } else if t[from].1 == w {
        Some(t[from].0)
    } else {
        table_first(t, w, from + 1)
    }
}

/// A phrase with its last word made ordinal.
pub open spec fn ordinal_phrase(s: Seq<char>) -> Seq<char> {
    let i = last_word_start(s, s.len() as int);
    let last = s.skip(i);
    s.take(i) + match table_second(ordinal_table(), last, 0) {
        Some(o) => o,
        None => if last.len() > 0 && last.last() == 'y' {
            last.drop_last() + "ieth"@
        } else {
            last + "th"@
        },
    }
}

/// Turn a cardinal phrase into its ordinal: "forty-two" gives "forty-second".
pub fn ordinal_chars(s: &[char]) -> (r: Vec<char>)
    ensures
        r@ == ordinal_phrase(s@),
{
    let i: usize = find_last_word(s);
    let mut r = part(s, 0, i);
    let last = part(s, i, s.len());
    assert(r@ =~= s@.take(i as int));
    assert(last@ =~= s@.skip(i as int));
    let table = ordinal_pairs();
    let mut k: usize = 0;
    while k < table.len()
        invariant
            k <= table.len(),
            pair_texts(table@) == ordinal_table(),
            r@ == s@.take(i as int),
            last@ == s@.skip(i as int),
            i == last_word_start(s@, s@.len() as int),
            table_second(ordinal_table(), last@, 0) == table_second(ordinal_table(), last@, k as int),
        decreases table.len() - k,
    {
        assert(pair_texts(table@)[k as int] == (table@[k as int].0@, table@[k as int].1@));
        if crate::text::is_text(last.as_slice(), table[k].0) {
            push_text(&mut r, table[k].1);
            return r;
        }
        k = k + 1;
    }
    if last.len() > 0 && last[last.len() - 1] == 'y' {
        let stem = part(last.as_slice(), 0, last.len() - 1);
        push_all(&mut r, stem.as_slice());
        push_text(&mut r, "ieth");
        assert(stem@ =~= last@.drop_last());
    } else {
        push_all(&mut r, last.as_slice());
        push_text(&mut r, "th");
    }
    assert(r@ =~= ordinal_phrase(s@));
    r
}

/// Turn a cardinal phrase into its ordinal.
pub fn apply_ordinal_word(word: &str) -> (r: String)
    ensures
        r@ == ordinal_phrase(word@),
{
    text_of(ordinal_chars(chars_of(word).as_slice()).as_slice())
}

/// The ordinal of a number in words.
pub fn int_to_words_ordinal(n: i64) -> (r: String)
    requires
        n > i64::MIN,
    ensures
        r@ == ordinal_phrase(words_of(n as int)),
{
    text_of(ordinal_chars(word_chars(n).as_slice()).as_slice())
}

// ── Roman numerals ───────────────────────────────────────────────────────────

/// Value of a Roman numeral character in either case.
pub open spec fn roman_digit(c: char) -> Option<int> {
    match ascii_upper(c) {
        'I' => Some(1),
        'V' => Some(5),
        'X' => Some(10),
        'L' => Some(50),
        'C' => Some(100),
        'D' => Some(500),
        'M' => Some(1000),
        _ => None,
    }
}

/// Value of a Roman numeral character in either case.
pub fn roman_value(c: char) -> (r: Option<i64>)
    ensures
        match r {
            Some(v) => roman_digit(c) == Some(v as int) && 1 <= v <= 1000,
            None => roman_digit(c) is None,
        },
{
    match upper_ascii(c) {
        'I' => Some(1),
        'V' => Some(5),
        'X' => Some(10),
        'L' => Some(50),
        'C' => Some(100),
        'D' => Some(500),
        'M' => Some(1000),
        _ => None,
    }
}

/// The largest part that a Roman numeral for `n` can begin with.
pub open spec fn roman_part(n: int) -> int {
    if n >= 1000 {
        1000
    } else if n >= 900 {
        900
    } else if n >= 500 {
        500
    } else if n >= 400 {
        400
    } else if n >= 100 {
        100
    } else if n >= 90 {
        90
    } else if n >= 50 {
        50
    } else if n >= 40 {
        40
    } else if n >= 10 {
        10
    } else if n >= 9 {
        9
    } else if n >= 5 {
        5
    } else if n >= 4 {
        4
    } else {
        1
    }
}

/// How a part of a Roman numeral is written.
pub open spec fn roman_symbol(v: int, upper: bool) -> Seq<char> {
    let i = if upper { 'I' } else { 'i' };
    let x = if upper { 'X' } else { 'x' };
    let c = if upper { 'C' } else { 'c' };
    let m = if upper { 'M' } else { 'm' };
    let v5 = if upper { 'V' } else { 'v' };
    let l = if upper { 'L' } else { 'l' };
    let d = if upper { 'D' } else { 'd' };
    if v == 1000 {
        seq![m]
    } else if v == 900 {
        seq![c, m]
    } else if v == 500 {
        seq![d]
    } else if v == 400 {
        seq![c, d]
    } else if v == 100 {
        seq![c]
    } else if v == 90 {
        seq![x, c]
    } else if v == 50 {
        seq![l]
    } else if v == 40 {
        seq![x, l]
    } else if v == 10 {
        seq![x]
    } else if v == 9 {
        seq![i, x]
    } else if v == 5 {
        seq![v5]
    } else if v == 4 {
        seq![i, v5]
    } else {
        seq![i]
    }
}

/// A positive number as a Roman numeral; nothing for any other.
pub open spec fn roman(n: int, upper: bool) -> Seq<char>
    decreases n,
{
    if n <= 0 {
        Seq::empty()
    } else {
        roman_symbol(roman_part(n), upper) + roman(n - roman_part(n), upper)
    }
}

fn roman_letter(v: i64, upper: bool) -> (r: char)
    requires
        v == 1 || v == 5 || v == 10 || v == 50 || v == 100 || v == 500 || v == 1000,
    ensures
        seq![r] == roman_symbol(v as int, upper),
{
    let r: char = match v {
        1 => if upper { 'I' } else { 'i' },
        5 => if upper { 'V' } else { 'v' },
        10 => if upper { 'X' } else { 'x' },
        50 => if upper { 'L' } else { 'l' },
        100 => if upper { 'C' } else { 'c' },
        500 => if upper { 'D' } else { 'd' },
        _ => if upper { 'M' } else { 'm' },
    };
    assert(seq![r] =~= roman_symbol(v as int, upper));
    r
}

/// A number as a Roman numeral, as characters.
pub fn roman_chars(n: i64, upper: bool) -> (r: Vec<char>)
    ensures
        r@ == roman(n as int, upper),
{
    let mut r: Vec<char> = Vec::new();
    let mut rest: i64 = n;
    assert(r@ + roman(n as int, upper) =~= roman(n as int, upper));
    while rest > 0
        invariant
            r@ + roman(rest as int, upper) == roman(n as int, upper),
        decreases rest,
    {
        let v: i64 = if rest >= 1000 {
            1000
        } else if rest >= 900 {
            900
        } else if rest >= 500 {
            500
        } else if rest >= 400 {
            400
        } else if rest >= 100 {
            100
        } else if rest >= 90 {
            90
        } else if rest >= 50 {
            50
        } else if rest >= 40 {
            40
        } else if rest >= 10 {
            10
        } else if rest >= 9 {
            9
        } else if rest >= 5 {
            5
        } else if rest >= 4 {
            4
        } else {
            1
        };
        let ghost done = r@;
        match v {
            900 => {
                r.push(roman_letter(100, upper));
                r.push(roman_letter(1000, upper));
            },
            400 => {
                r.push(roman_letter(100, upper));
                r.push(roman_letter(500, upper));
            },
            90 => {
                r.push(roman_letter(10, upper));
                r.push(roman_letter(100, upper));
            },
            40 => {
                r.push(roman_letter(10, upper));
                r.push(roman_letter(50, upper));
            },
            9 => {
                r.push(roman_letter(1, upper));
                r.push(roman_letter(10, upper));
            },
            4 => {
                r.push(roman_letter(1, upper));
                r.push(roman_letter(5, upper));
            },
            _ => {
                r.push(roman_letter(v, upper));
            },
        }
        proof {
            lemma_letters(upper);
            assert(r@ =~= done + roman_symbol(v as int, upper));
            assert(v == roman_part(rest as int));
            assert(done + (roman_symbol(v as int, upper) + roman(rest - v, upper)) =~= r@ + roman(
                rest - v,
                upper,
            ));
        }
        rest = rest - v;
    }
    assert(r@ + Seq::<char>::empty() =~= r@);
    r
}

proof fn lemma_letters(upper: bool)
    ensures
        forall|c: char|
            #![trigger seq![c]]
            {
                &&& seq![c] == roman_symbol(1, upper) ==> c == (if upper { 'I' } else { 'i' })
                &&& seq![c] == roman_symbol(5, upper) ==> c == (if upper { 'V' } else { 'v' })
                &&& seq![c] == roman_symbol(10, upper) ==> c == (if upper { 'X' } else { 'x' })
                &&& seq![c] == roman_symbol(50, upper) ==> c == (if upper { 'L' } else { 'l' })
                &&& seq![c] == roman_symbol(100, upper) ==> c == (if upper { 'C' } else { 'c' })
                &&& seq![c] == roman_symbol(500, upper) ==> c == (if upper { 'D' } else { 'd' })
                &&& seq![c] == roman_symbol(1000, upper) ==> c == (if upper { 'M' } else { 'm' })
            },
{
    assert forall|c: char|
        #![trigger seq![c]]
        {
            &&& seq![c] == roman_symbol(1, upper) ==> c == (if upper { 'I' } else { 'i' })
            &&& seq![c] == roman_symbol(5, upper) ==> c == (if upper { 'V' } else { 'v' })
            &&& seq![c] == roman_symbol(10, upper) ==> c == (if upper { 'X' } else { 'x' })
            &&& seq![c] == roman_symbol(50, upper) ==> c == (if upper { 'L' } else { 'l' })
            &&& seq![c] == roman_symbol(100, upper) ==> c == (if upper { 'C' } else { 'c' })
            &&& seq![c] == roman_symbol(500, upper) ==> c == (if upper { 'D' } else { 'd' })
            &&& seq![c] == roman_symbol(1000, upper) ==> c == (if upper { 'M' } else { 'm' })
        } by {
        assert(seq![c][0] == c);
    }
}

/// A positive number as a Roman numeral; nothing for any other.
pub fn to_roman(n: i64, upper: bool) -> (r: String)
    ensures
        r@ == roman(n as int, upper),
{
    text_of(roman_chars(n, upper).as_slice())
}

// ── Alphabetic sequences ─────────────────────────────────────────────────────

/// A positive number as letters counted from `base`: 1 is one letter, 27 is
/// two of the first.
pub open spec fn letters_of(n: int, base: char) -> Seq<char>
    decreases n,
{
    if n <= 0 {
        Seq::empty()
    } else {
        letters_of((n - 1) / 26, base).push((base as int + (n - 1) % 26) as char)
    }
}

/// A number as letters, as characters.
pub fn alphabetic_chars(n: i64, base: char) -> (r: Vec<char>)
    requires
        base == 'a' || base == 'A',
    ensures
        r@ == letters_of(n as int, base),
    decreases n,
{
    if n <= 0 {
        let r: Vec<char> = Vec::new();
        assert(r@ =~= letters_of(n as int, base));
        return r;
    }
    let mut r = alphabetic_chars((n - 1) / 26, base);
    let b: u8 = base as u8;
    let c: char = (b + ((n - 1) % 26) as u8) as char;
    r.push(c);
    r
}

/// A positive number as letters counted from `base`.
pub fn to_alphabetic(n: i64, base: char) -> (r: String)
    requires
        base == 'a' || base == 'A',
    ensures
        r@ == letters_of(n as int, base),
{
    text_of(alphabetic_chars(n, base).as_slice())
}

// ── Picture strings ──────────────────────────────────────────────────────────

/// The format token of an integer picture: what stands before the first `;`.
pub open spec fn picture_token(p: Seq<char>) -> Seq<char> {
    match find_char(p, ';', 0) {
        Some(i) => p.take(i),
        None => p,
    }
}

/// The modifier of an integer picture: what stands after the first `;`, or
/// the cardinal modifier.
pub open spec fn picture_modifier(p: Seq<char>) -> Seq<char> {
    match find_char(p, ';', 0) {
        Some(i) => p.skip(i + 1),
        None => "c"@,
    }
}

/// Token and modifier of an integer picture, as characters.
pub fn split_picture(p: &[char]) -> (r: (Vec<char>, Vec<char>))
    ensures
        r.0@ == picture_token(p@),
        r.1@ == picture_modifier(p@),
{
    match find(p, ';', 0) {
        Some(i) => {
            let a = part(p, 0, i);
            let b = part(p, i + 1, p.len());
            assert(a@ =~= p@.take(i as int));
            assert(b@ =~= p@.skip(i + 1));
            (a, b)
        },
        None => {
            let a = part(p, 0, p.len());
            assert(a@ =~= p@);
            (a, chars_of("c"))
        },
    }
}

/// Token and modifier of an integer picture.
pub fn split_picture_modifier(picture: &str) -> (r: (String, String))
    ensures
        r.0@ == picture_token(picture@),
        r.1@ == picture_modifier(picture@),
{
    let (a, b) = split_picture(chars_of(picture).as_slice());
    (text_of(a.as_slice()), text_of(b.as_slice()))
}

// ── Digit families ───────────────────────────────────────────────────────────

/// The zeros of the decimal digit families that pictures recognise besides ASCII.
pub open spec fn family_zeros() -> Seq<char> {
    seq![
        '\u{0660}', '\u{06F0}', '\u{07C0}', '\u{0966}', '\u{09E6}', '\u{0A66}', '\u{0AE6}', '\u{0B66}',
        '\u{0BE6}', '\u{0C66}', '\u{0CE6}', '\u{0D66}', '\u{0DE6}', '\u{0E50}', '\u{0ED0}', '\u{0F20}',
        '\u{1040}', '\u{1090}', '\u{17E0}', '\u{1810}', '\u{1946}', '\u{19D0}', '\u{1A80}', '\u{1A90}',
        '\u{1B50}', '\u{1BB0}', '\u{1C40}', '\u{1C50}', '\u{A620}', '\u{A8D0}', '\u{A900}', '\u{A9D0}',
        '\u{A9F0}', '\u{AA50}', '\u{ABF0}', '\u{FF10}',
    ]
}

/// Whether `c` is one of the ten digits from `zero` on.
pub open spec fn in_family(c: char, zero: char) -> bool {
    zero as int <= c as int <= zero as int + 9
}

/// The zero of the family of `c`, among those from `from` on.
pub open spec fn family_zero(t: Seq<char>, c: char, from: int) -> Option<char>
    decreases t.len() - from,
{
    if from < 0 || from >= t.len() {
        None
    } else if in_family(c, t[from]) {
        Some(t[from])
    } else {
        family_zero(t, c, from + 1)
    }
}

/// The zero of the digit family of a character that is a digit other than ASCII.
pub open spec fn digit_zero(c: char) -> Option<char> {
    family_zero(family_zeros(), c, 0)
}

fn within_ten(c: char, zero: char) -> (r: bool)
    ensures
        r == in_family(c, zero),
{
    let a: u32 = c as u32;
    let z: u32 = zero as u32;
    z <= a && a - z <= 9
}

/// The zero of the digit family of a character that is a digit other than ASCII.
pub fn unicode_digit_zero(c: char) -> (r: Option<char>)
    ensures
        r == digit_zero(c),
{
    let t: Vec<char> = vec![
        '\u{0660}', '\u{06F0}', '\u{07C0}', '\u{0966}', '\u{09E6}', '\u{0A66}', '\u{0AE6}', '\u{0B66}',
        '\u{0BE6}', '\u{0C66}', '\u{0CE6}', '\u{0D66}', '\u{0DE6}', '\u{0E50}', '\u{0ED0}', '\u{0F20}',
        '\u{1040}', '\u{1090}', '\u{17E0}', '\u{1810}', '\u{1946}', '\u{19D0}', '\u{1A80}', '\u{1A90}',
        '\u{1B50}', '\u{1BB0}', '\u{1C40}', '\u{1C50}', '\u{A620}', '\u{A8D0}', '\u{A900}', '\u{A9D0}',
        '\u{A9F0}', '\u{AA50}', '\u{ABF0}', '\u{FF10}',
    ];
    assert(t@ =~= family_zeros());
    let mut i: usize = 0;
    while i < t.len()
        invariant
            i <= t.len(),
            t@ == family_zeros(),
            digit_zero(c) == family_zero(t@, c, i as int),
        decreases t.len() - i,
    {
        if within_ten(c, t[i]) {
            return Some(t[i]);
        }
        i = i + 1;
    }
    None
}

pub fn is_unicode_digit(c: char) -> (r: bool)
    ensures
        r == (digit_zero(c) is Some),
{
    unicode_digit_zero(c).is_some()
}

} // verus!
