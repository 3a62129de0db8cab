//! Numbers in words at the front of a text.
//!
//! Takes the longest number in words that a text begins with, ordinals and
//! years such as `nineteen hundred` included, and says how far it went.
use vstd::prelude::*;

use crate::stdlib::number_words::{ones, ones_word, tens, tens_word};
use crate::text::{alphabetic, chars_of, lower_chars, lowercase, matches_at, occurs_at, std_is_alphabetic};

verus! {

/// Ordinal of a number below twenty.
pub open spec fn ones_ordinal(n: int) -> Seq<char> {
    if n == 0 {
        "zeroth"@
    } else if n == 1 {
        "first"@
    } else if n == 2 {
        "second"@
    } else if n == 3 {
        "third"@
    } else if n == 4 {
        "fourth"@
    } else if n == 5 {
        "fifth"@
    } else if n == 6 {
        "sixth"@
    } else if n == 7 {
        "seventh"@
    } else if n == 8 {
        "eighth"@
    } else if n == 9 {
        "ninth"@
    } else if n == 10 {
        "tenth"@
    } else if n == 11 {
        "eleventh"@
    } else if n == 12 {
        "twelfth"@
    } else if n == 13 {
        "thirteenth"@
    } else if n == 14 {
        "fourteenth"@
    } else if n == 15 {
        "fifteenth"@
    } else if n == 16 {
        "sixteenth"@
    } else if n == 17 {
        "seventeenth"@
    } else if n == 18 {
        "eighteenth"@
    } else {
        "nineteenth"@
    }
}

fn ordinal_of_ones(n: i64) -> (r: &'static str)
    ensures
        r@ == ones_ordinal(n as int),
{
    match n {
        0 => "zeroth",
        1 => "first",
        2 => "second",
        3 => "third",
        4 => "fourth",
        5 => "fifth",
        6 => "sixth",
        7 => "seventh",
        8 => "eighth",
        9 => "ninth",
        10 => "tenth",
        11 => "eleventh",
        12 => "twelfth",
        13 => "thirteenth",
        14 => "fourteenth",
        15 => "fifteenth",
        16 => "sixteenth",
        17 => "seventeenth",
        18 => "eighteenth",
        _ => "nineteenth",
    }
}

/// Ordinal of ten times a number from two to nine.
pub open spec fn tens_ordinal(n: int) -> Seq<char> {
    if n == 2 {
        "twentieth"@
    } else if n == 3 {
        "thirtieth"@
    } else if n == 4 {
        "fortieth"@
    } else if n == 5 {
        "fiftieth"@
    } else if n == 6 {
        "sixtieth"@
    } else if n == 7 {
        "seventieth"@
    } else if n == 8 {
        "eightieth"@
    } else {
        "ninetieth"@
    }
}

fn ordinal_of_tens(n: i64) -> (r: &'static str)
    ensures
        r@ == tens_ordinal(n as int),
{
    match n {
        2 => "twentieth",
        3 => "thirtieth",
        4 => "fortieth",
        5 => "fiftieth",
        6 => "sixtieth",
        7 => "seventieth",
        8 => "eightieth",
        _ => "ninetieth",
    }
}

/// Position after a run of spaces and commas.
pub open spec fn comma_run(s: Seq<char>, i: int) -> int
    decreases s.len() - i,
{
    if 0 <= i < s.len() && (s[i] == ' ' || s[i] == ',') {
        comma_run(s, i + 1)
    } else {
        i
    }
}

/// Position after separators, one `and` included.
pub open spec fn after_separators(s: Seq<char>, i: int) -> int {
    let j = comma_run(s, i);
    if occurs_at(s, "and "@, j) {
        j + 4
    } else {
        j
    }
}

/// Position after a word that stands at `i` and does not go on, if it does.
pub open spec fn whole_word(s: Seq<char>, i: int, word: Seq<char>) -> Option<int> {
    let end = i + word.len();
    if word.len() > 0 && occurs_at(s, word, i) && (end >= s.len() || !alphabetic(s[end])) {
        Some(end)
    } else {
        None
    }
}

/// Position after separators and one of two words, if one stands there.
pub open spec fn word_at(s: Seq<char>, i: int, word: Seq<char>, ordinal: Seq<char>) -> Option<int> {
    let j = after_separators(s, i);
    match whole_word(s, j, word) {
        Some(k) => Some(k),
        None => whole_word(s, j, ordinal),
    }
}

/// The largest number from `lo` to `hi`, both below twenty, whose word comes
/// next, with the position after it.
pub open spec fn pick_ones(s: Seq<char>, i: int, hi: int, lo: int, ordinals: bool) -> Option<(int, int)>
    decreases hi - lo + 1,
{
    if hi < lo {
        None
    } else {
        match word_at(
            s,
            i,
            ones_word(hi),
            if ordinals {
                ones_ordinal(hi)
            } else {
                ""@
            },
        ) {
            Some(j) => Some((hi, j)),
            None => pick_ones(s, i, hi - 1, lo, ordinals),
        }
    }
}

/// The largest number from two to `hi` whose tens word comes next.
pub open spec fn pick_tens(s: Seq<char>, i: int, hi: int) -> Option<(int, int)>
    decreases hi,
{
    if hi < 2 {
        None
    } else {
        match word_at(s, i, tens_word(hi), tens_ordinal(hi)) {
            Some(j) => Some((hi, j)),
            None => pick_tens(s, i, hi - 1),
        }
    }
}

/// Position after a hyphen, if one stands at `i`.
pub open spec fn after_hyphen(s: Seq<char>, i: int) -> int {
    if 0 <= i < s.len() && s[i] == '-' {
        i + 1
    } else {
        i
    }
}

/// A number below a hundred, with the position after it.
pub open spec fn sub100(s: Seq<char>, i: int) -> Option<(int, int)> {
    match pick_ones(s, i, 19, 10, true) {
        Some(r) => Some(r),
        None => match pick_tens(s, i, 9) {
            Some((t, j)) => match pick_ones(s, after_hyphen(s, j), 9, 1, true) {
                Some((o, k)) => Some((10 * t + o, k)),
                None => Some((10 * t, j)),
            },
            None => pick_ones(s, i, 9, 1, true),
        },
    }
}

/// A number of hundreds up to `hi` and what follows below a hundred.
pub open spec fn hundreds(s: Seq<char>, i: int, hi: int) -> Option<(int, int)> {
    match pick_ones(s, i, hi, 1, false) {
        Some((h, j)) => match word_at(s, j, "hundred"@, "hundredth"@) {
            Some(k) => match sub100(s, k) {
                Some((r, l)) => Some((100 * h + r, l)),
                None => Some((100 * h, k)),
            },
            None => None,
        },
        None => None,
    }
}

/// A number below a thousand, with the position after it.
pub open spec fn sub1000(s: Seq<char>, i: int) -> Option<(int, int)> {
    match hundreds(s, i, 9) {
        Some(r) => Some(r),
        None => sub100(s, i),
    }
}

/// The number in words that a text begins with, as the count of characters it
/// takes and its value; both are zero where there is none.
pub open spec fn words_at(s: Seq<char>) -> (int, int) {
    match hundreds(s, 0, 19) {
        Some((v, j)) => (j, v),
        None => match sub1000(s, 0) {
            Some((t, j)) => match word_at(s, j, "thousand"@, "thousandth"@) {
                Some(k) => match sub1000(s, k) {
                    Some((r, l)) => (l, 1000 * t + r),
                    None => (k, 1000 * t),
                },
                None => (j, t),
            },
            None => (0, 0),
        },
    }
}

/// A position in a text that is read word by word.
pub struct WordParser<'a> {
    pub s: &'a [char],
    pub pos: usize,
}

impl<'a> WordParser<'a> {
    pub open spec fn wf(self) -> bool {
        self.pos <= self.s@.len()
    }

    /// What a step that gives a number leaves behind.
    pub open spec fn took(self, before: WordParser<'a>, r: Option<i64>, want: Option<(int, int)>, most: int) -> bool {
        &&& self.s == before.s
        &&& self.wf()
        &&& match want {
            Some((v, j)) => r == Some(v as i64) && 0 <= v <= most && self.pos == j,
            None => r is None && self.pos == before.pos,
        }
    }

    /// Skip separators, one `and` included.
    pub fn skip_sep(&mut self)
        requires
            old(self).wf(),
        ensures
            final(self).wf(),
            final(self).s == old(self).s,
            final(self).pos == after_separators(old(self).s@, old(self).pos as int),
    {
        let mut i: usize = self.pos;
        while i < self.s.len() && (self.s[i] == ' ' || self.s[i] == ',')
            invariant
                i <= self.s@.len(),
                self.s == old(self).s,
                comma_run(self.s@, old(self).pos as int) == comma_run(self.s@, i as int),
            decreases self.s@.len() - i,
        {
            i = i + 1;
        }
        let and = chars_of("and ");
        proof {
            reveal_strlit("and ");
        }
        if matches_at(self.s, and.as_slice(), i) {
            self.pos = i + 4;
        } else {
            self.pos = i;
        }
    }

    fn whole_word_at(&self, word: &str) -> (r: Option<usize>)
        requires
            self.wf(),
        ensures
            match r {
                Some(j) => whole_word(self.s@, self.pos as int, word@) == Some(j as int) && j <= self.s@.len(),
                None => whole_word(self.s@, self.pos as int, word@) is None,
            },
    {
        let w = chars_of(word);
        if w.len() == 0 || !matches_at(self.s, w.as_slice(), self.pos) {
            return None;
        }
        let n: usize = self.s.len();
        let end: usize = self.pos + w.len();
        if end >= n || !std_is_alphabetic(self.s[end]) {
            Some(end)
        } else {
            None
        }
    }

    /// Take separators and one of two words, or nothing.
    pub fn try_word_or_ordinal(&mut self, word: &str, ordinal: &str) -> (r: bool)
        requires
            old(self).wf(),
        ensures
            final(self).wf(),
            final(self).s == old(self).s,
            match word_at(old(self).s@, old(self).pos as int, word@, ordinal@) {
                Some(j) => r && final(self).pos == j,
                None => !r && final(self).pos == old(self).pos,
            },
    {
        let save: usize = self.pos;
        self.skip_sep();
        match self.whole_word_at(word) {
            Some(j) => {
                self.pos = j;
                return true;
            },
            None => {},
        }
        match self.whole_word_at(ordinal) {
            Some(j) => {
                self.pos = j;
                return true;
            },
            None => {},
        }
        self.pos = save;
        false
    }

    /// Take separators and a word, or nothing.
    pub fn try_word(&mut self, word: &str) -> (r: bool)
        requires
            old(self).wf(),
        ensures
            final(self).wf(),
            final(self).s == old(self).s,
            match word_at(old(self).s@, old(self).pos as int, word@, ""@) {
                Some(j) => r && final(self).pos == j,
                None => !r && final(self).pos == old(self).pos,
            },
    {
        self.try_word_or_ordinal(word, "")
    }

    fn take_ones(&mut self, hi: i64, lo: i64, ordinals: bool) -> (r: Option<i64>)
        requires
            old(self).wf(),
            0 <= lo <= hi < 20,
        ensures
            final(self).took(
                *old(self),
                r,
                pick_ones(old(self).s@, old(self).pos as int, hi as int, lo as int, ordinals),
                hi as int,
            ),
    {
        let mut i: i64 = hi;
        let ghost want = pick_ones(self.s@, self.pos as int, hi as int, lo as int, ordinals);
        while i >= lo
            invariant
                lo - 1 <= i <= hi,
                0 <= lo <= hi < 20,
                self.wf(),
                *self == *old(self),
                want == pick_ones(self.s@, self.pos as int, i as int, lo as int, ordinals),
                want == pick_ones(old(self).s@, old(self).pos as int, hi as int, lo as int, ordinals),
            decreases i - lo + 1,
        {
            let found: bool = if ordinals {
                self.try_word_or_ordinal(ones(i), ordinal_of_ones(i))
            } else {
                self.try_word(ones(i))
            };
            if found {
                return Some(i);
            }
            i = i - 1;
        }
        None
    }

    fn take_tens(&mut self) -> (r: Option<i64>)
        requires
            old(self).wf(),
        ensures
            final(self).took(*old(self), r, pick_tens(old(self).s@, old(self).pos as int, 9), 9),
    {
        let mut i: i64 = 9;
        let ghost want = pick_tens(self.s@, self.pos as int, 9);
        while i >= 2
            invariant
                1 <= i <= 9,
                self.wf(),
                *self == *old(self),
                want == pick_tens(self.s@, self.pos as int, i as int),
                want == pick_tens(old(self).s@, old(self).pos as int, 9),
            decreases i,
        {
            if self.try_word_or_ordinal(tens(i), ordinal_of_tens(i)) {
                return Some(i);
            }
            i = i - 1;
        }
        None
    }

    /// Take a number below a hundred, or nothing.
    pub fn parse_sub100(&mut self) -> (r: Option<i64>)
        requires
            old(self).wf(),
        ensures
            final(self).took(*old(self), r, sub100(old(self).s@, old(self).pos as int), 99),
    {
        match self.take_ones(19, 10, true) {
            Some(v) => {
                return Some(v);
            },
            None => {},
        }
        match self.take_tens() {
            Some(t) => {
                let v: i64 = t * 10;
                let dash_save: usize = self.pos;
                if self.pos < self.s.len() && self.s[self.pos] == '-' {
                    self.pos = self.pos + 1;
                }
                match self.take_ones(9, 1, true) {
                    Some(o) => {
                        return Some(v + o);
                    },
                    None => {},
                }
                self.pos = dash_save;
                return Some(v);
            },
            None => {},
        }
        self.take_ones(9, 1, true)
    }

    fn take_hundreds(&mut self, hi: i64) -> (r: Option<i64>)
        requires
            old(self).wf(),
            1 <= hi < 20,
        ensures
            final(self).took(
                *old(self),
                r,
                hundreds(old(self).s@, old(self).pos as int, hi as int),
                100 * hi + 99,
            ),
    {
        let save: usize = self.pos;
        match self.take_ones(hi, 1, false) {
            Some(h) => {
                if self.try_word_or_ordinal("hundred", "hundredth") {
                    let v: i64 = h * 100;
                    return match self.parse_sub100() {
                        Some(rem) => Some(v + rem),
                        None => Some(v),
                    };
                }
                self.pos = save;
                None
            },
            None => None,
        }
    }

    /// Take a number below a thousand, or nothing.
    pub fn parse_sub1000(&mut self) -> (r: Option<i64>)
        requires
            old(self).wf(),
        ensures
            final(self).took(*old(self), r, sub1000(old(self).s@, old(self).pos as int), 999),
    {
        match self.take_hundreds(9) {
            Some(v) => Some(v),
            None => self.parse_sub100(),
        }
    }
}

/// The number in words that a lower-case text begins with: the count of
/// characters it takes, and its value.
pub fn parse_complex_number(s: &[char]) -> (r: (usize, i64))
    ensures
        (r.0 as int, r.1 as int) == words_at(s@),
        r.0 <= s@.len(),
        0 <= r.1 <= 999_999,
{
    let mut p = WordParser { s, pos: 0 };
    match p.take_hundreds(19) {
        Some(v) => {
            return (p.pos, v);
        },
        None => {},
    }
    match p.parse_sub1000() {
        Some(t) => {
            if p.try_word_or_ordinal("thousand", "thousandth") {
                match p.parse_sub1000() {
                    Some(rest) => (p.pos, t * 1000 + rest),
                    None => (p.pos, t * 1000),
                }
            } else {
                (p.pos, t)
            }
        },
        None => (0, 0),
    }
}

/// The number in words that a text begins with, whatever its case: the count
/// of characters of the lower-case text it takes, and its value.
pub fn parse_word_number_from_string(s: &[char]) -> (r: (usize, i64))
    ensures
        (r.0 as int, r.1 as int) == words_at(lowercase(s@)),
        0 <= r.1 <= 999_999,
{
    let lower = lower_chars(s);
    parse_complex_number(lower.as_slice())
}

} // verus!
