//! `$formatInteger(number, picture)`: integers by a picture.
use vstd::prelude::*;

use super::datetime::tz::{out_chars, push_padded, zero_padded};
use super::number_words::{
    alphabetic_chars, digit_zero, is_unicode_digit, letters_of, ordinal_chars, ordinal_phrase, ordinal_suffix,
    picture_modifier, picture_token, roman, roman_chars, split_picture, suffix_of, unicode_digit_zero, word_chars,
    words_of,
};
use crate::error::{fail, out, JsonataError, JsonataResult};
use crate::number::Number;
use crate::text::{
    ascii_lower_all, ascii_upper, ascii_upper_all, chars_of, digit, digit_value, is_digit, is_text, lower_ascii_all,
    part, push_all, push_text, scalar_value, std_from_u32, text_of, upper_ascii, upper_ascii_all,
};
use crate::value::{vals, Val, Value};

verus! {

/// The largest magnitude that is written as an integer: the largest double
/// below `2^63`.
pub const LARGEST: i64 = 9_223_372_036_854_774_784;

// ── Title case ───────────────────────────────────────────────────────────────

pub open spec fn word_break(c: char) -> bool {
    c == ' ' || c == ',' || c == '-'
}

/// Words that stay in lower case inside a phrase.
pub open spec fn small_word(w: Seq<char>) -> bool {
    w == "and"@ || w == "or"@ || w == "of"@ || w == "the"@
}

/// A word with a capital, unless it is a small one inside a phrase.
pub open spec fn capitalised(w: Seq<char>, first: bool) -> Seq<char> {
    let l = ascii_lower_all(w);
    if w.len() == 0 || (!first && small_word(l)) {
        l
    } else {
        seq![ascii_upper(l[0])] + l.skip(1)
    }
}

/// The rest of a phrase in title case from `i` on, with the letters of the word
/// in hand; `first` says whether that word must have a capital.
pub open spec fn titled_from(s: Seq<char>, i: int, word: Seq<char>, first: bool) -> Seq<char>
    decreases s.len() - i,
{
    if i < 0 || i >= s.len() {
        capitalised(word, first)
    } else if word_break(s[i]) {
        capitalised(word, first) + (seq![s[i]] + titled_from(s, i + 1, Seq::empty(), s[i] == '-'))
    } else {
        titled_from(s, i + 1, word.push(s[i]), first)
    }
}

/// A phrase in title case.
pub open spec fn titled(s: Seq<char>) -> Seq<char> {
    titled_from(s, 0, Seq::empty(), true)
}

fn push_capitalised(result: &mut Vec<char>, word: &[char], first: bool)
    ensures
        final(result)@ == old(result)@ + capitalised(word@, first),
{
    let ghost before = result@;
    let l = lower_ascii_all(word);
    if l.len() == 0 || (!first && (is_text(l.as_slice(), "and") || is_text(l.as_slice(), "or") || is_text(
        l.as_slice(),
        "of",
    ) || is_text(l.as_slice(), "the"))) {
        push_all(result, l.as_slice());
    } else {
        result.push(upper_ascii(l[0]));
        let rest = part(l.as_slice(), 1, l.len());
        push_all(result, rest.as_slice());
        assert(result@ =~= before + capitalised(word@, first));
    }
}

/// A phrase in title case.
pub fn to_title_case(s: &[char]) -> (r: Vec<char>)
    ensures
        r@ == titled(s@),
{
    let mut result: Vec<char> = Vec::new();
    let mut word: Vec<char> = Vec::new();
    let mut first: bool = true;
    let mut i: usize = 0;
    assert(word@ =~= Seq::<char>::empty());
    assert(result@ + titled(s@) =~= titled(s@));
    while i < s.len()
        invariant
            i <= s.len(),
            titled(s@) == result@ + titled_from(s@, i as int, word@, first),
        decreases s.len() - i,
    {
        let c: char = s[i];
        let ghost before = result@;
        let ghost w = word@;
        if c == ' ' || c == ',' || c == '-' {
            push_capitalised(&mut result, word.as_slice(), first);
            result.push(c);
            word = Vec::new();
            assert(word@ =~= Seq::<char>::empty());
            proof {
                let rest = titled_from(s@, i + 1, Seq::empty(), c == '-');
                assert(result@ + rest =~= before + (capitalised(w, first) + (seq![c] + rest)));
            }
            first = c == '-';
        } else {
            word.push(c);
        }
        i = i + 1;
    }
    push_capitalised(&mut result, word.as_slice(), first);
    result
}

// ── Decimal pictures ─────────────────────────────────────────────────────────

/// Whether a character of a picture stands for a digit that is always written.
pub open spec fn mandatory(c: char) -> bool {
    is_digit(c) || digit_zero(c) is Some
}

/// Whether a character of a picture stands for a digit.
pub open spec fn placeholder(c: char) -> bool {
    c == '#' || mandatory(c)
}

fn is_mandatory(c: char) -> (r: bool)
    ensures
        r == mandatory(c),
{
    digit(c) || is_unicode_digit(c)
}

/// The zero of the digits of a picture from `i` on, after `zero`; none where
/// digits of two families are mixed.
pub open spec fn family_from(p: Seq<char>, i: int, zero: char, found: bool) -> Option<char>
    decreases p.len() - i,
{
    if i < 0 || i >= p.len() {
        Some(zero)
    } else if is_digit(p[i]) {
        if found && zero != '0' {
            None
        } else {
            family_from(p, i + 1, '0', true)
        }
    } else {
        match digit_zero(p[i]) {
            Some(z) => if found && zero != z {
                None
            } else {
                family_from(p, i + 1, z, true)
            },
            None => family_from(p, i + 1, zero, found),
        }
    }
}

fn find_family(p: &[char]) -> (r: Option<char>)
    ensures
        r == family_from(p@, 0, '0', false),
{
    let mut zero: char = '0';
    let mut found: bool = false;
    let mut i: usize = 0;
    while i < p.len()
        invariant
            i <= p.len(),
            family_from(p@, 0, '0', false) == family_from(p@, i as int, zero, found),
        decreases p.len() - i,
    {
        let c: char = p[i];
        if digit(c) {
            if found && zero != '0' {
                return None;
            }
            zero = '0';
            found = true;
        } else {
            match unicode_digit_zero(c) {
                Some(z) => {
                    if found && zero != z {
                        return None;
                    }
                    zero = z;
                    found = true;
                },
                None => {},
            }
        }
        i = i + 1;
    }
    Some(zero)
}

/// How many digits a picture always writes.
pub open spec fn mandatory_count(p: Seq<char>) -> nat
    decreases p.len(),
{
    if p.len() == 0 {
        0
    } else {
        mandatory_count(p.drop_last()) + (if mandatory(p.last()) {
            1nat
        } else {
            0nat
        })
    }
}

fn count_mandatory(p: &[char]) -> (r: usize)
    ensures
        r == mandatory_count(p@),
{
    let mut r: usize = 0;
    let mut i: usize = 0;
    assert(p@.take(0) =~= Seq::empty());
    while i < p.len()
        invariant
            i <= p.len(),
            r <= i,
            r == mandatory_count(p@.take(i as int)),
        decreases p.len() - i,
    {
        assert(p@.take(i + 1).drop_last() =~= p@.take(i as int));
        if is_mandatory(p[i]) {
            r = r + 1;
        }
        i = i + 1;
    }
    assert(p@.take(i as int) =~= p@);
    r
}

/// Whether a picture holds a place for a digit.
pub open spec fn has_placeholder(p: Seq<char>) -> bool {
    exists|i: int| 0 <= i < p.len() && placeholder(#[trigger] p[i])
}

fn find_placeholder(p: &[char]) -> (r: bool)
    ensures
        r == has_placeholder(p@),
{
    let mut i: usize = 0;
    while i < p.len()
        invariant
            i <= p.len(),
            forall|k: int| 0 <= k < i ==> !placeholder(#[trigger] p@[k]),
        decreases p.len() - i,
    {
        if p[i] == '#' || is_mandatory(p[i]) {
            assert(placeholder(p@[i as int]));
            return true;
        }
        i = i + 1;
    }
    false
}

/// The separators of a picture before position `i`, from right to left, each
/// with the count of places for digits on its right; `d` are on the right of `i`.
pub open spec fn separators(p: Seq<char>, i: int, d: int) -> Seq<(char, int)>
    decreases i,
{
    if i <= 0 || i > p.len() {
        Seq::empty()
    } else if placeholder(p[i - 1]) {
        separators(p, i - 1, d + 1)
    } else if d > 0 {
        seq![(p[i - 1], d)] + separators(p, i - 1, d)
    } else {
        separators(p, i - 1, d)
    }
}

pub open spec fn with_ints(s: Seq<(char, usize)>) -> Seq<(char, int)> {
    s.map_values(|g: (char, usize)| (g.0, g.1 as int))
}

proof fn lemma_separators(p: Seq<char>, i: int, d: int)
    requires
        d >= 0,
    ensures
        forall|k: int| 0 <= k < separators(p, i, d).len() ==> (#[trigger] separators(p, i, d)[k]).1 > 0,
    decreases i,
{
    let all = separators(p, i, d);
    if 0 < i <= p.len() {
        if placeholder(p[i - 1]) {
            lemma_separators(p, i - 1, d + 1);
            assert(all == separators(p, i - 1, d + 1));
        } else {
            lemma_separators(p, i - 1, d);
            let rest = separators(p, i - 1, d);
            assert forall|k: int| 0 <= k < all.len() implies (#[trigger] all[k]).1 > 0 by {
                if d > 0 {
                    assert(all == seq![(p[i - 1], d)] + rest);
                    if k > 0 {
                        assert(all[k] == rest[k - 1]);
                    }
                } else {
                    assert(all == rest);
                    assert(rest[k].1 > 0);
                }
            }
        }
    }
}

fn find_separators(p: &[char]) -> (r: Vec<(char, usize)>)
    ensures
        with_ints(r@) == separators(p@, p@.len() as int, 0),
{
    let n: usize = p.len();
    let mut r: Vec<(char, usize)> = Vec::new();
    let mut d: usize = 0;
    let mut i: usize = n;
    assert(with_ints(r@) + separators(p@, n as int, 0) =~= separators(p@, n as int, 0));
    while i > 0
        invariant
            i <= n,
            n == p@.len(),
            d <= n - i,
            with_ints(r@) + separators(p@, i as int, d as int) == separators(p@, n as int, 0),
        decreases i,
    {
        let c: char = p[i - 1];
        if c == '#' || is_mandatory(c) {
            d = d + 1;
        } else if d > 0 {
            let ghost before = r@;
            r.push((c, d));
            assert(with_ints(r@) =~= with_ints(before).push((c, d as int)));
            assert(with_ints(r@) + separators(p@, i - 1, d as int) =~= with_ints(before) + (seq![(c, d as int)]
                + separators(p@, i - 1, d as int)));
        }
        i = i - 1;
    }
    assert(with_ints(r@) + Seq::<(char, int)>::empty() =~= with_ints(r@));
    r
}

/// Whether separators are all the same and stand at equal distances.
pub open spec fn regular(g: Seq<(char, int)>) -> bool {
    &&& forall|i: int| 0 <= i < g.len() ==> (#[trigger] g[i]).0 == g[0].0
    &&& forall|i: int| 0 <= i < g.len() - 1 ==> g[i + 1].1 - (#[trigger] g[i]).1 == g[0].1
}

fn is_regular(g: &Vec<(char, usize)>) -> (r: bool)
    ensures
        r == regular(with_ints(g@)),
{
    let ghost w = with_ints(g@);
    let mut i: usize = 0;
    while i < g.len()
        invariant
            i <= g.len(),
            w == with_ints(g@),
            forall|k: int| 0 <= k < i ==> (#[trigger] w[k]).0 == w[0].0,
            forall|k: int| 0 <= k < i && k < w.len() - 1 ==> w[k + 1].1 - (#[trigger] w[k]).1 == w[0].1,
        decreases g.len() - i,
    {
        assert(w[i as int] == (g@[i as int].0, g@[i as int].1 as int));
        if g[i].0 != g[0].0 {
            return false;
        }
        if i + 1 < g.len() {
            assert(w[i + 1].1 == g@[i + 1].1);
            if g[i + 1].1 as i128 - g[i].1 as i128 != g[0].1 as i128 {
                return false;
            }
        }
        i = i + 1;
    }
    true
}

/// The separator that a list of them has last for a count of digits.
pub open spec fn listed(g: Seq<(char, int)>, pos: int) -> Option<char>
    decreases g.len(),
{
    if g.len() == 0 {
        None
    } else if g.last().1 == pos {
        Some(g.last().0)
    } else {
        listed(g.drop_last(), pos)
    }
}

/// The separator before the last `pos` digits. Regular separators go on.
pub open spec fn separator_at(g: Seq<(char, int)>, pos: int) -> Option<char> {
    match listed(g, pos) {
        Some(c) => Some(c),
        None => if g.len() > 0 && regular(g) && pos % g[0].1 == 0 {
            Some(g[0].0)
        } else {
            None
        },
    }
}

/// The first `k` digits with their separators.
pub open spec fn separated(d: Seq<char>, g: Seq<(char, int)>, k: int) -> Seq<char>
    decreases k,
{
    if k <= 0 || k > d.len() {
        Seq::empty()
    } else {
        let i = k - 1;
        separated(d, g, k - 1) + match separator_at(g, d.len() - i) {
            Some(c) => if i > 0 {
                seq![c, d[i]]
            } else {
                seq![d[i]]
            },
            None => seq![d[i]],
        }
    }
}

fn find_listed(g: &Vec<(char, usize)>, pos: usize) -> (r: Option<char>)
    ensures
        r == listed(with_ints(g@), pos as int),
{
    let ghost w = with_ints(g@);
    let mut i: usize = g.len();
    assert(w.take(i as int) =~= w);
    while i > 0
        invariant
            i <= g.len(),
            w == with_ints(g@),
            listed(w, pos as int) == listed(w.take(i as int), pos as int),
        decreases i,
    {
        let ghost t = w.take(i as int);
        assert(t.last() == (g@[i - 1].0, g@[i - 1].1 as int));
        assert(t.drop_last() =~= w.take(i - 1));
        if g[i - 1].1 == pos {
            return Some(g[i - 1].0);
        }
        i = i - 1;
    }
    None
}

/// Digits with their separators.
pub fn apply_integer_grouping(digits: &[char], g: &Vec<(char, usize)>) -> (r: Vec<char>)
    requires
        forall|i: int| 0 <= i < g@.len() ==> (#[trigger] g@[i]).1 > 0,
    ensures
        r@ == separated(digits@, with_ints(g@), digits@.len() as int),
{
    let ghost w = with_ints(g@);
    let goes_on: bool = g.len() > 0 && is_regular(g);
    let mut r: Vec<char> = Vec::new();
    let mut i: usize = 0;
    assert(r@ =~= separated(digits@, w, 0));
    while i < digits.len()
        invariant
            i <= digits.len(),
            w == with_ints(g@),
            goes_on == (w.len() > 0 && regular(w)),
            forall|i: int| 0 <= i < g@.len() ==> (#[trigger] g@[i]).1 > 0,
            r@ == separated(digits@, w, i as int),
        decreases digits.len() - i,
    {
        let pos: usize = digits.len() - i;
        let ghost before = r@;
        if i > 0 {
            match find_listed(g, pos) {
                Some(c) => {
                    r.push(c);
                },
                None => {
                    if goes_on {
                        assert(g@[0].1 > 0);
                        assert(w[0] == (g@[0].0, g@[0].1 as int));
                        if pos % g[0].1 == 0 {
                            r.push(g[0].0);
                        }
                    }
                },
            }
        }
        r.push(digits[i]);
        assert(r@ =~= separated(digits@, w, i + 1));
        i = i + 1;
    }
    r
}

/// A digit in another family.
pub open spec fn in_other_family(c: char, zero: char) -> char {
    if is_digit(c) && scalar_value(zero as int + digit_value(c)) {
        (zero as int + digit_value(c)) as char
    } else {
        c
    }
}

fn shift_digit(c: char, zero: char) -> (r: char)
    ensures
        r == in_other_family(c, zero),
{
    if digit(c) {
        match std_from_u32(zero as u32 + (c as u32 - 48)) {
            Some(d) => d,
            None => c,
        }
    } else {
        c
    }
}

/// Digits in another family.
pub fn apply_digit_family_rune(s: &[char], zero: char) -> (r: Vec<char>)
    ensures
        r@ == s@.map_values(|c: char| in_other_family(c, zero)),
{
    let ghost want = s@.map_values(|c: char| in_other_family(c, zero));
    let mut r: Vec<char> = Vec::new();
    let mut i: usize = 0;
    while i < s.len()
        invariant
            i <= s.len(),
            want == s@.map_values(|c: char| in_other_family(c, zero)),
            r@ =~= want.take(i as int),
        decreases s.len() - i,
    {
        r.push(shift_digit(s[i], zero));
        i = i + 1;
    }
    assert(want.take(i as int) =~= want);
    r
}

/// A number by a picture of digits and separators.
pub open spec fn decimal_text(n: nat, p: Seq<char>) -> Result<Seq<char>, Seq<char>> {
    match family_from(p, 0, '0', false) {
        None => Err("D3131"@),
        Some(zero) => {
            let d = zero_padded(n, mandatory_count(p));
            let g = separators(p, p.len() as int, 0);
            let s = separated(d, g, d.len() as int);
            if zero == '0' {
                Ok(s)
            } else {
                Ok(s.map_values(|c: char| in_other_family(c, zero)))
            }
        },
    }
}

/// A number by a picture of digits and separators.
pub fn format_integer_decimal(n: u64, p: &[char]) -> (r: Result<Vec<char>, JsonataError>)
    ensures
        out_chars(r) == decimal_text(n as nat, p@),
{
    let zero: char = match find_family(p) {
        Some(z) => z,
        None => {
            return Err(JsonataError::new("D3131", "$formatInteger: mixed digit families in picture"));
        },
    };
    let mut d: Vec<char> = Vec::new();
    push_padded(&mut d, n, count_mandatory(p));
    assert(d@ =~= zero_padded(n as nat, mandatory_count(p@)));
    let g = find_separators(p);
    proof {
        lemma_separators(p@, p@.len() as int, 0);
        assert forall|i: int| 0 <= i < g@.len() implies (#[trigger] g@[i]).1 > 0 by {
            assert(with_ints(g@)[i].1 > 0);
        }
    }
    let s = apply_integer_grouping(d.as_slice(), &g);
    if zero == '0' {
        Ok(s)
    } else {
        Ok(apply_digit_family_rune(s.as_slice(), zero))
    }
}

// ── Pictures ─────────────────────────────────────────────────────────────────

/// Words in the case that a token asks for, ordinal where a modifier does.
pub open spec fn cased_words(words: Seq<char>, token: Seq<char>, modifier: Seq<char>) -> Seq<char> {
    let w = if modifier == "o"@ {
        ordinal_phrase(words)
    } else {
        words
    };
    if token == "W"@ {
        ascii_upper_all(w)
    } else if token == "Ww"@ {
        titled(w)
    } else {
        w
    }
}

/// Whether a token asks for words.
pub open spec fn words_token(token: Seq<char>) -> bool {
    token == "w"@ || token == "W"@ || token == "Ww"@
}

pub open spec fn signed(negative: bool, s: Seq<char>) -> Seq<char> {
    if negative {
        seq!['-'] + s
    } else {
        s
    }
}

/// A magnitude by the token of a picture.
pub open spec fn magnitude_text(n: nat, token: Seq<char>, modifier: Seq<char>) -> Result<Seq<char>, Seq<char>> {
    if words_token(token) {
        Ok(cased_words(words_of(n as int), token, modifier))
    } else if token == "i"@ {
        Ok(roman(n as int, false))
    } else if token == "I"@ {
        Ok(roman(n as int, true))
    } else if token.len() == 1 && 'a' <= token[0] <= 'z' {
        Ok(letters_of(n as int, 'a'))
    } else if token.len() == 1 && 'A' <= token[0] <= 'Z' {
        Ok(letters_of(n as int, 'A'))
    } else if !has_placeholder(token) {
        Err("D3130"@)
    } else {
        match decimal_text(n, token) {
            Ok(s) => Ok(
                if modifier == "o"@ {
                    s + suffix_of(n as int)
                } else {
                    s
                },
            ),
            Err(e) => Err(e),
        }
    }
}

/// An integer by a picture.
pub open spec fn integer_text(n: int, picture: Seq<char>) -> Result<Seq<char>, Seq<char>> {
    match magnitude_text(
        (if n < 0 {
            -n
        } else {
            n
        }) as nat,
        picture_token(picture),
        picture_modifier(picture),
    ) {
        Ok(s) => Ok(signed(n < 0, s)),
        Err(e) => Err(e),
    }
}

fn case_words(words: Vec<char>, token: &[char], modifier: &[char]) -> (r: Vec<char>)
    ensures
        r@ == cased_words(words@, token@, modifier@),
{
    let w = if is_text(modifier, "o") {
        ordinal_chars(words.as_slice())
    } else {
        words
    };
    if is_text(token, "W") {
        upper_ascii_all(w.as_slice())
    } else if is_text(token, "Ww") {
        to_title_case(w.as_slice())
    } else {
        w
    }
}

fn is_words_token(token: &[char]) -> (r: bool)
    ensures
        r == words_token(token@),
{
    is_text(token, "w") || is_text(token, "W") || is_text(token, "Ww")
}

fn sign_text(negative: bool, s: Vec<char>) -> (r: Vec<char>)
    ensures
        r@ == signed(negative, s@),
{
    if !negative {
        return s;
    }
    let mut r: Vec<char> = Vec::new();
    r.push('-');
    push_all(&mut r, s.as_slice());
    assert(r@ =~= signed(negative, s@));
    r
}

fn format_magnitude(n: i64, token: &[char], modifier: &[char]) -> (r: Result<Vec<char>, JsonataError>)
    requires
        n >= 0,
    ensures
        out_chars(r) == magnitude_text(n as nat, token@, modifier@),
{
    if is_words_token(token) {
        return Ok(case_words(word_chars(n), token, modifier));
    }
    if is_text(token, "i") {
        return Ok(roman_chars(n, false));
    }
    if is_text(token, "I") {
        return Ok(roman_chars(n, true));
    }
    if token.len() == 1 {
        let c: char = token[0];
        if 'a' <= c && c <= 'z' {
            return Ok(alphabetic_chars(n, 'a'));
        }
        if 'A' <= c && c <= 'Z' {
            return Ok(alphabetic_chars(n, 'A'));
        }
    }
    if !find_placeholder(token) {
        return Err(JsonataError::about("D3130", "$formatInteger: unsupported picture string \"", token, "\""));
    }
    match format_integer_decimal(n as u64, token) {
        Ok(mut s) => {
            if is_text(modifier, "o") {
                push_text(&mut s, ordinal_suffix(n));
            }
            Ok(s)
        },
        Err(e) => Err(e),
    }
}

/// An integer by a picture, as characters.
pub fn format_integer_with_picture(n: i64, picture: &[char]) -> (r: Result<Vec<char>, JsonataError>)
    requires
        n > i64::MIN,
    ensures
        out_chars(r) == integer_text(n as int, picture@),
{
    let (token, modifier) = split_picture(picture);
    let a: i64 = if n < 0 {
        -n
    } else {
        n
    };
    match format_magnitude(a, token.as_slice(), modifier.as_slice()) {
        Ok(s) => Ok(sign_text(n < 0, s)),
        Err(e) => Err(e),
    }
}

// ── Large numbers in words ───────────────────────────────────────────────────

/// Ten to the twelfth.
pub open spec fn trillion() -> Number {
    Number::of_int(1_000_000_000_000)
}

/// A large number in words, in units of trillions.
pub open spec fn large_words(f: Number) -> Seq<char>
    decreases f.mag(),
{
    let next = f.over_spec(trillion());
    if !f.lt_spec(trillion()) && 0 <= next.mag() < f.mag() {
        large_words(next) + " trillion"@
    } else if f.zero() {
        "zero"@
    } else {
        words_of(f.round_spec().saturated(0, i64::MAX as int))
    }
}

/// A large number in words, in units of trillions.
pub fn float_to_words(f: Number) -> (r: Vec<char>)
    ensures
        r@ == large_words(f),
    decreases f.mag(),
{
    let unit = Number::from_i64(1_000_000_000_000);
    if !f.lt(&unit) {
        let next = f.over(&unit);
        if next.magnitude() < f.magnitude() {
            let mut r = float_to_words(next);
            push_text(&mut r, " trillion");
            return r;
        }
    }
    if f.is_zero() {
        return chars_of("zero");
    }
    let v: i64 = f.round().to_i64();
    word_chars(
        if v < 0 {
            0
        } else {
            v
        },
    )
}

/// A number too large for an integer type, in words.
pub open spec fn large_text(f: Number, token: Seq<char>, modifier: Seq<char>) -> Seq<char> {
    let w = cased_words(large_words(f.abs_spec()), token, modifier);
    if f.lt_spec(Number::of_int(0)) {
        "minus "@ + w
    } else {
        w
    }
}

fn format_big_float_words(f: Number, token: &[char], modifier: &[char]) -> (r: Vec<char>)
    ensures
        r@ == large_text(f, token@, modifier@),
{
    let w = case_words(float_to_words(f.abs()), token, modifier);
    if f.lt(&Number::from_i64(0)) {
        let mut r = chars_of("minus ");
        push_all(&mut r, w.as_slice());
        r
    } else {
        w
    }
}

// ── Entry ────────────────────────────────────────────────────────────────────

/// A finite number by an integer picture.
pub open spec fn number_by_picture(n: Number, picture: Seq<char>) -> Result<Seq<char>, Seq<char>> {
    let v = n.saturated(i64::MIN as int, i64::MAX as int);
    if -LARGEST <= v <= LARGEST {
        integer_text(v, picture)
    } else if words_token(picture_token(picture)) {
        Ok(large_text(n.trunc_spec(), picture_token(picture), picture_modifier(picture)))
    } else {
        Err("D3137"@)
    }
}

/// What `$formatInteger` gives.
pub open spec fn format_integer(a: Seq<Val>) -> Result<Val, Seq<char>> {
    if a.len() < 2 {
        Err("T0410"@)
    } else {
        match a[0] {
            Val::Undefined => Ok(Val::Undefined),
            Val::Number(n) => match a[1] {
                Val::String(p) => if !n.finite() {
                    Err("D3001"@)
                } else {
                    match number_by_picture(n, p) {
                        Ok(s) => Ok(Val::String(s)),
                        Err(e) => Err(e),
                    }
                },
                _ => Err("T0410"@),
            },
            _ => Err("T0410"@),
        }
    }
}

fn format_by_picture(n: Number, p: &[char]) -> (r: Result<Vec<char>, JsonataError>)
    ensures
        out_chars(r) == number_by_picture(n, p@),
{
    let v: i64 = n.to_i64();
    if -LARGEST <= v && v <= LARGEST {
        return format_integer_with_picture(v, p);
    }
    let (token, modifier) = split_picture(p);
    if is_words_token(token.as_slice()) {
        return Ok(format_big_float_words(n.trunc(), token.as_slice(), modifier.as_slice()));
    }
    Err(JsonataError::new("D3137", "$formatInteger: number too large for integer formatting"))
}

/// `$formatInteger(number, picture)`: an integer as text.
pub fn fn_format_integer(args: &[Value], _focus: &Value) -> (r: JsonataResult)
    ensures
        out(r) == format_integer(vals(args@)),
{
    if args.len() < 2 {
        return fail("T0410", "$formatInteger: requires 2 arguments");
    }
    assert(vals(args@)[0] == args@[0]@);
    assert(vals(args@)[1] == args@[1]@);
    let n: Number = match &args[0] {
        Value::Undefined => {
            return Ok(Value::Undefined);
        },
        Value::Number(n) => *n,
        _ => {
            return fail("T0410", "$formatInteger: argument 1 must be a number");
        },
    };
    let p = match &args[1] {
        Value::String(s) => chars_of(s.as_str()),
        _ => {
            return fail("T0410", "$formatInteger: argument 2 must be a string");
        },
    };
    if !n.is_finite() {
        return fail("D3001", "$formatInteger: Number out of range");
    }
    match format_by_picture(n, p.as_slice()) {
        Ok(t) => Ok(Value::String(text_of(t.as_slice()))),
        Err(e) => Err(e),
    }
}

} // verus!
