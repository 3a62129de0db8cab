//! `$formatNumber`: numbers by a picture.
use vstd::prelude::*;

use super::numeric::{bankers_round, power_of_ten, rounded_at, ten_to};
use super::format_integer::{apply_digit_family_rune, in_other_family};
use crate::decimal::{fixed_chars, fixed_text};
use crate::error::{fail, out, JsonataError, JsonataResult};
use crate::number::{distance, lemma_ratio_exists, lemma_scaled_monotone, round_ratio, scaled, Number, INFINITE, UNIT};
use crate::text::{
    chars_of, find, find_char, is_text, matches_at, nat_chars, nat_text, occurs_at, part, push_all, repeated,
    split_from, split_text, text_of, texts_of,
};
use crate::value::{vals, ObjectMap, Val, Value};

verus! {

// ── The characters of a picture ──────────────────────────────────────────────

/// The characters that have a meaning in a picture.
#[derive(Debug)]
pub struct FmtChars {
    pub decimal_sep: char,
    pub grouping_sep: char,
    /// Text that marks a percentage; it may be of any length.
    pub percent: Vec<char>,
    /// Text that marks a number of thousandths.
    pub per_mille: Vec<char>,
    pub zero_digit: char,
    /// The place of a digit that may be left out.
    pub digit: char,
    /// Text between the picture for positive numbers and that for negative ones.
    pub pattern_sep: Vec<char>,
    /// What stands before the exponent; without one no picture has an exponent.
    pub exponent_sep: Option<char>,
}

/// The characters that have a meaning in a picture, as contracts speak of them.
#[verifier::ext_equal]
pub struct Marks {
    pub decimal: char,
    pub grouping: char,
    pub percent: Seq<char>,
    pub per_mille: Seq<char>,
    pub zero: char,
    pub optional: char,
    pub pattern: Seq<char>,
    pub exponent: Option<char>,
}

impl View for FmtChars {
    type V = Marks;

    open spec fn view(&self) -> Marks {
        Marks {
            decimal: self.decimal_sep,
            grouping: self.grouping_sep,
            percent: self.percent@,
            per_mille: self.per_mille@,
            zero: self.zero_digit,
            optional: self.digit,
            pattern: self.pattern_sep@,
            exponent: self.exponent_sep,
        }
    }
}

/// The characters of a picture where no option changes them.
pub open spec fn default_marks() -> Marks {
    Marks {
        decimal: '.',
        grouping: ',',
        percent: seq!['%'],
        per_mille: seq!['\u{2030}'],
        zero: '0',
        optional: '#',
        pattern: seq![';'],
        exponent: Some('e'),
    }
}

/// The characters of a picture, with an option heeded. Some options must be a
/// single character to count.
pub open spec fn with_option(m: Marks, key: Seq<char>, v: Seq<char>) -> Marks {
    let one = v.len() == 1;
    if key == "decimal-separator"@ && one {
        Marks { decimal: v[0], ..m }
    } else if key == "grouping-separator"@ && one {
        Marks { grouping: v[0], ..m }
    } else if key == "percent"@ {
        Marks { percent: v, ..m }
    } else if key == "per-mille"@ {
        Marks { per_mille: v, ..m }
    } else if key == "zero-digit"@ && one {
        Marks { zero: v[0], ..m }
    } else if key == "digit"@ && one {
        Marks { optional: v[0], ..m }
    } else if key == "pattern-separator"@ {
        Marks { pattern: v, ..m }
    } else if key == "exponent-separator"@ {
        Marks {
            exponent: if one {
                Some(v[0])
            } else {
                None
            },
            ..m
        }
    } else {
        m
    }
}

/// The characters of a picture, with the options of an object heeded.
pub open spec fn marks_of(o: Seq<(Seq<char>, Val)>) -> Marks
    decreases o.len(),
{
    if o.len() == 0 {
        default_marks()
    } else {
        match o.last().1 {
            Val::String(v) => with_option(marks_of(o.drop_last()), o.last().0, v),
            _ => marks_of(o.drop_last()),
        }
    }
}

fn one_char(c: char) -> (r: Vec<char>)
    ensures
        r@ == seq![c],
{
    let mut r: Vec<char> = Vec::new();
    r.push(c);
    assert(r@ =~= seq![c]);
    r
}

impl FmtChars {
    /// The characters where no option changes them.
    pub fn standard() -> (r: FmtChars)
        ensures
            r@ == default_marks(),
    {
        FmtChars {
            decimal_sep: '.',
            grouping_sep: ',',
            percent: one_char('%'),
            per_mille: one_char('\u{2030}'),
            zero_digit: '0',
            digit: '#',
            pattern_sep: one_char(';'),
            exponent_sep: Some('e'),
        }
    }

    fn set_option(&mut self, key: &[char], v: Vec<char>)
        ensures
            final(self)@ == with_option(old(self)@, key@, v@),
    {
        let one: bool = v.len() == 1;
        if is_text(key, "decimal-separator") && one {
            self.decimal_sep = v[0];
        } else if is_text(key, "grouping-separator") && one {
            self.grouping_sep = v[0];
        } else if is_text(key, "percent") {
            self.percent = v;
        } else if is_text(key, "per-mille") {
            self.per_mille = v;
        } else if is_text(key, "zero-digit") && one {
            self.zero_digit = v[0];
        } else if is_text(key, "digit") && one {
            self.digit = v[0];
        } else if is_text(key, "pattern-separator") {
            self.pattern_sep = v;
        } else if is_text(key, "exponent-separator") {
            self.exponent_sep = if one {
                Some(v[0])
            } else {
                None
            };
        }
    }

    /// The characters with the options of an object heeded.
    pub fn from_opts(o: &ObjectMap) -> (r: FmtChars)
        ensures
            r@ == marks_of(o@),
    {
        let ghost all = o@;
        let mut r = FmtChars::standard();
        let mut i: usize = 0;
        assert(all.take(0) =~= Seq::empty());
        while i < o.entries.len()
            invariant
                i <= o.entries.len(),
                all == o@,
                r@ == marks_of(all.take(i as int)),
            decreases o.entries.len() - i,
        {
            assert(all.take(i + 1).drop_last() =~= all.take(i as int));
            assert(all[i as int] == (o.entries@[i as int].key@, o.entries@[i as int].value@));
            if let Value::String(v) = &o.entries[i].value {
                r.set_option(chars_of(o.entries[i].key.as_str()).as_slice(), chars_of(v.as_str()));
            }
            i = i + 1;
        }
        assert(all.take(i as int) =~= all);
        r
    }

    fn is_digit_char(&self, c: char) -> (r: bool)
        ensures
            r == family_digit(self@, c),
    {
        c >= self.zero_digit && (c as u32) < (self.zero_digit as u32) + 10
    }

    fn is_active_char(&self, c: char) -> (r: bool)
        ensures
            r == active(self@, c),
    {
        let e: bool = match self.exponent_sep {
            Some(x) => x == c,
            None => false,
        };
        self.is_digit_char(c) || c == self.digit || c == self.grouping_sep || c == self.decimal_sep || e
    }

    fn is_region_edge_char(&self, c: char) -> (r: bool)
        ensures
            r == region_edge(self@, c),
    {
        let e: bool = match self.exponent_sep {
            Some(x) => x == c,
            None => false,
        };
        self.is_active_char(c) && !e
    }
}

/// Whether a character is a digit of the picture's family.
pub open spec fn family_digit(m: Marks, c: char) -> bool {
    m.zero <= c && (c as int) < m.zero as int + 10
}

/// Whether a character is the place of a digit.
pub open spec fn digit_place(m: Marks, c: char) -> bool {
    family_digit(m, c) || c == m.optional
}

/// Whether a character is one of the number's own in a picture.
pub open spec fn active(m: Marks, c: char) -> bool {
    family_digit(m, c) || c == m.optional || c == m.grouping || c == m.decimal || m.exponent == Some(c)
}

/// Whether a character can begin or end the number's part of a picture.
pub open spec fn region_edge(m: Marks, c: char) -> bool {
    active(m, c) && m.exponent != Some(c)
}

// ── Counting ─────────────────────────────────────────────────────────────────

/// How often a character occurs.
pub open spec fn char_count(s: Seq<char>, c: char) -> nat
    decreases s.len(),
{
    if s.len() == 0 {
        0
    } else {
        char_count(s.drop_last(), c) + (if s.last() == c {
            1nat
        } else {
            0
        })
    }
}

/// How many digits of the family a part of a picture has.
pub open spec fn mandatory_count(m: Marks, s: Seq<char>) -> nat
    decreases s.len(),
{
    if s.len() == 0 {
        0
    } else {
        mandatory_count(m, s.drop_last()) + (if family_digit(m, s.last()) {
            1nat
        } else {
            0
        })
    }
}

/// How many places for digits a part of a picture has.
pub open spec fn place_count(m: Marks, s: Seq<char>) -> nat
    decreases s.len(),
{
    if s.len() == 0 {
        0
    } else {
        place_count(m, s.drop_last()) + (if digit_place(m, s.last()) {
            1nat
        } else {
            0
        })
    }
}

/// At how many places from `i` on a text occurs; an empty one does at each.
pub open spec fn occurrences(s: Seq<char>, p: Seq<char>, i: int) -> nat
    decreases s.len() + 1 - i,
{
    if i < 0 || i > s.len() {
        0
    } else {
        (if occurs_at(s, p, i) {
            1nat
        } else {
            0
        }) + occurrences(s, p, i + 1)
    }
}

fn count_char(s: &[char], c: char) -> (r: usize)
    ensures
        r == char_count(s@, c),
{
    let mut r: usize = 0;
    let mut i: usize = 0;
    assert(s@.take(0) =~= Seq::empty());
    while i < s.len()
        invariant
            i <= s.len(),
            r <= i,
            r == char_count(s@.take(i as int), c),
        decreases s.len() - i,
    {
        assert(s@.take(i + 1).drop_last() =~= s@.take(i as int));
        if s[i] == c {
            r = r + 1;
        }
        i = i + 1;
    }
    assert(s@.take(i as int) =~= s@);
    r
}

fn count_mandatory(s: &[char], fc: &FmtChars) -> (r: usize)
    ensures
        r == mandatory_count(fc@, s@),
        r <= s@.len(),
{
    let mut r: usize = 0;
    let mut i: usize = 0;
    assert(s@.take(0) =~= Seq::empty());
    while i < s.len()
        invariant
            i <= s.len(),
            r <= i,
            r == mandatory_count(fc@, s@.take(i as int)),
        decreases s.len() - i,
    {
        assert(s@.take(i + 1).drop_last() =~= s@.take(i as int));
        if fc.is_digit_char(s[i]) {
            r = r + 1;
        }
        i = i + 1;
    }
    assert(s@.take(i as int) =~= s@);
    r
}

fn count_places(s: &[char], fc: &FmtChars) -> (r: usize)
    ensures
        r == place_count(fc@, s@),
        r <= s@.len(),
{
    let mut r: usize = 0;
    let mut i: usize = 0;
    assert(s@.take(0) =~= Seq::empty());
    while i < s.len()
        invariant
            i <= s.len(),
            r <= i,
            r == place_count(fc@, s@.take(i as int)),
        decreases s.len() - i,
    {
        assert(s@.take(i + 1).drop_last() =~= s@.take(i as int));
        if fc.is_digit_char(s[i]) || s[i] == fc.digit {
            r = r + 1;
        }
        i = i + 1;
    }
    assert(s@.take(i as int) =~= s@);
    r
}

/// Whether a text occurs, and whether it does so more than once.
fn count_occurrences(s: &[char], p: &[char]) -> (r: (bool, bool))
    ensures
        r.0 == (occurrences(s@, p@, 0) > 0),
        r.1 == (occurrences(s@, p@, 0) > 1),
{
    let n: usize = s.len();
    let mut found: u8 = 0;
    let mut i: usize = 0;
    while i < n
        invariant
            i <= n,
            n == s@.len(),
            found <= 2,
            found < 2 ==> found + occurrences(s@, p@, i as int) == occurrences(s@, p@, 0),
            found == 2 ==> occurrences(s@, p@, 0) > 1,
        decreases n - i,
    {
        if found < 2 && matches_at(s, p, i) {
            found = found + 1;
        }
        i = i + 1;
    }
    assert(occurrences(s@, p@, n + 1) == 0);
    if found < 2 && matches_at(s, p, n) {
        found = found + 1;
    }
    (found > 0, found > 1)
}

// ── The parts of a picture ───────────────────────────────────────────────────

/// First place at or after `i` where the number's part can begin.
pub open spec fn region_start(m: Marks, s: Seq<char>, i: int) -> int
    decreases s.len() - i,
{
    if i < 0 || i >= s.len() || region_edge(m, s[i]) {
        i
    } else {
        region_start(m, s, i + 1)
    }
}

/// Last place at or before `i` where the number's part can end.
pub open spec fn region_end(m: Marks, s: Seq<char>, i: int) -> int
    decreases i,
{
    if i <= 0 || i > s.len() || region_edge(m, s[i - 1]) {
        i
    } else {
        region_end(m, s, i - 1)
    }
}

/// A picture cut into its parts.
#[verifier::ext_equal]
pub struct Parts {
    pub prefix: Seq<char>,
    pub active: Seq<char>,
    pub suffix: Seq<char>,
    pub mantissa: Seq<char>,
    pub integer: Seq<char>,
    pub fraction: Seq<char>,
    pub exponent: Option<Seq<char>>,
}

/// Where the exponent begins: in the number's part, or right behind it.
pub open spec fn exponent_place(m: Marks, s: Seq<char>, start: int, len: int) -> Option<int> {
    match m.exponent {
        Some(sep) => match find_char(s.skip(start), sep, 0) {
            Some(e) if e <= len => Some(e),
            _ => None,
        },
        None => None,
    }
}

/// A picture cut into its parts, if it has one for a number. A mantissa
/// without a decimal separator has the suffix for a fraction.
pub open spec fn cut(m: Marks, s: Seq<char>) -> Option<Parts> {
    let start = region_start(m, s, 0);
    let end = region_end(m, s, s.len() as int);
    if start >= end {
        None
    } else {
        let active = s.subrange(start, end);
        let len = end - start;
        let (mantissa, exponent) = match exponent_place(m, s, start, len) {
            Some(e) => (
                active.take(e),
                Some(
                    if e < len {
                        active.skip(e + 1)
                    } else {
                        Seq::empty()
                    },
                ),
            ),
            None => (active, None),
        };
        let (integer, fraction) = match find_char(mantissa, m.decimal, 0) {
            Some(d) => (mantissa.take(d), mantissa.skip(d + 1)),
            None => (mantissa, s.skip(end)),
        };
        Some(Parts { prefix: s.take(start), active, suffix: s.skip(end), mantissa, integer, fraction, exponent })
    }
}

/// Whether some character is a place for a digit.
pub open spec fn has_place(m: Marks, s: Seq<char>) -> bool {
    exists|i: int| 0 <= i < s.len() && digit_place(m, #[trigger] s[i])
}

/// Whether some character is not one of the number's own.
pub open spec fn has_inactive(m: Marks, s: Seq<char>) -> bool {
    exists|i: int| 0 <= i < s.len() && !active(m, #[trigger] s[i])
}

/// Whether two neighbours are both a character.
pub open spec fn doubled(s: Seq<char>, c: char) -> bool {
    exists|i: int| #![trigger s[i]] 0 <= i < s.len() - 1 && s[i] == c && s[i + 1] == c
}

/// Whether a separator of groups stands next to the decimal separator.
pub open spec fn group_at_decimal(m: Marks, s: Seq<char>) -> bool {
    match find_char(s, m.decimal, 0) {
        Some(d) => (d > 0 && s[d - 1] == m.grouping) || (d + 1 < s.len() && s[d + 1] == m.grouping),
        None => false,
    }
}

/// Whether a digit of the family stands before the first optional one.
pub open spec fn optional_after_digit(m: Marks, s: Seq<char>) -> bool {
    match find_char(s, m.optional, 0) {
        Some(i) => exists|k: int| 0 <= k < i && family_digit(m, #[trigger] s[k]),
        None => false,
    }
}

/// Whether a digit of the family stands at or after the last optional one.
pub open spec fn digit_after_optional(m: Marks, s: Seq<char>) -> bool {
    exists|i: int, k: int|
        0 <= i <= k < s.len() && #[trigger] s[i] == m.optional && family_digit(m, #[trigger] s[k]) && (forall|q: int|
            i < q < s.len() ==> #[trigger] s[q] != m.optional)
}

/// Whether all characters are digits of the family, and there are any.
pub open spec fn all_family(m: Marks, s: Seq<char>) -> bool {
    s.len() > 0 && forall|i: int| 0 <= i < s.len() ==> family_digit(m, #[trigger] s[i])
}

/// The rule that a picture breaks: of several, the last one.
pub open spec fn broken_rule(m: Marks, s: Seq<char>, p: Parts) -> Option<Seq<char>> {
    let percents = occurrences(s, m.percent, 0);
    let per_milles = occurrences(s, m.per_mille, 0);
    if p.exponent is Some && !all_family(m, p.exponent->0) {
        Some("D3093"@)
    } else if p.exponent is Some && (p.exponent->0).len() > 0 && (percents > 0 || per_milles > 0) {
        Some("D3092"@)
    } else if digit_after_optional(m, p.fraction) {
        Some("D3091"@)
    } else if optional_after_digit(m, p.integer) {
        Some("D3090"@)
    } else if doubled(s, m.grouping) {
        Some("D3089"@)
    } else if find_char(s, m.decimal, 0) is None && p.integer.len() > 0 && p.integer.last() == m.grouping {
        Some("D3088"@)
    } else if group_at_decimal(m, s) {
        Some("D3087"@)
    } else if has_inactive(m, p.active) {
        Some("D3086"@)
    } else if !has_place(m, p.mantissa) {
        Some("D3085"@)
    } else if percents > 0 && per_milles > 0 {
        Some("D3084"@)
    } else if per_milles > 1 {
        Some("D3083"@)
    } else if percents > 1 {
        Some("D3082"@)
    } else if char_count(s, m.decimal) > 1 {
        Some("D3081"@)
    } else {
        None
    }
}

/// A picture cut into its parts.
struct SubPictureParts {
    prefix: Vec<char>,
    active: Vec<char>,
    suffix: Vec<char>,
    mantissa: Vec<char>,
    integer: Vec<char>,
    fraction: Vec<char>,
    exponent: Option<Vec<char>>,
}

impl SubPictureParts {
    spec fn parts(self) -> Parts {
        Parts {
            prefix: self.prefix@,
            active: self.active@,
            suffix: self.suffix@,
            mantissa: self.mantissa@,
            integer: self.integer@,
            fraction: self.fraction@,
            exponent: match self.exponent {
                Some(e) => Some(e@),
                None => None,
            },
        }
    }
}

proof fn lemma_find_bound(s: Seq<char>, c: char, from: int)
    requires
        0 <= from,
    ensures
        find_char(s, c, from) matches Some(i) ==> from <= i < s.len() && s[i] == c && (forall|q: int|
            from <= q < i ==> #[trigger] s[q] != c),
        find_char(s, c, from) is None ==> (forall|q: int| from <= q < s.len() ==> #[trigger] s[q] != c),
    decreases s.len() - from,
{
    if from < s.len() && s[from] != c {
        lemma_find_bound(s, c, from + 1);
    }
}

fn cut_picture(s: &[char], fc: &FmtChars) -> (r: Option<SubPictureParts>)
    ensures
        match (r, cut(fc@, s@)) {
            (Some(p), Some(q)) => p.parts() == q && p.fraction@.len() < usize::MAX,
            (None, None) => true,
            _ => false,
        },
{
    let n: usize = s.len();
    let ghost m = fc@;
    let mut start: usize = 0;
    while start < n && !fc.is_region_edge_char(s[start])
        invariant
            start <= n,
            n == s@.len(),
            m == fc@,
            region_start(m, s@, 0) == region_start(m, s@, start as int),
        decreases n - start,
    {
        start = start + 1;
    }
    let mut end: usize = n;
    while end > 0 && !fc.is_region_edge_char(s[end - 1])
        invariant
            end <= n,
            n == s@.len(),
            m == fc@,
            region_end(m, s@, n as int) == region_end(m, s@, end as int),
        decreases end,
    {
        end = end - 1;
    }
    if start >= end {
        return None;
    }
    let act = part(s, start, end);
    let len: usize = end - start;
    let tail = part(s, start, n);
    assert(tail@ =~= s@.skip(start as int));
    let mut place: Option<usize> = None;
    match fc.exponent_sep {
        Some(sep) => {
            match find(tail.as_slice(), sep, 0) {
                Some(e) => {
                    if e <= len {
                        place = Some(e);
                    }
                },
                None => {},
            }
        },
        None => {},
    }
    let suffix = part(s, end, n);
    assert(suffix@ =~= s@.skip(end as int));
    let prefix = part(s, 0, start);
    assert(prefix@ =~= s@.take(start as int));
    let (mantissa, exponent) = match place {
        Some(e) => {
            let man = part(act.as_slice(), 0, e);
            assert(man@ =~= act@.take(e as int));
            let ex = if e < len {
                let x = part(act.as_slice(), e + 1, len);
                assert(x@ =~= act@.skip(e + 1));
                x
            } else {
                let x: Vec<char> = Vec::new();
                assert(x@ =~= Seq::<char>::empty());
                x
            };
            (man, Some(ex))
        },
        None => (part(act.as_slice(), 0, len), None),
    };
    proof {
        if place is None {
            assert(mantissa@ =~= act@);
        }
        lemma_find_bound(mantissa@, m.decimal, 0);
    }
    let (integer, fraction) = match find(mantissa.as_slice(), fc.decimal_sep, 0) {
        Some(d) => {
            let i = part(mantissa.as_slice(), 0, d);
            let k: usize = mantissa.len();
            let f = part(mantissa.as_slice(), d + 1, k);
            assert(i@ =~= mantissa@.take(d as int));
            assert(f@ =~= mantissa@.skip(d + 1));
            (i, f)
        },
        None => {
            let i = part(mantissa.as_slice(), 0, mantissa.len());
            assert(i@ =~= mantissa@);
            let f = part(suffix.as_slice(), 0, suffix.len());
            assert(f@ =~= suffix@);
            (i, f)
        },
    };
    let p = SubPictureParts { prefix, active: act, suffix, mantissa, integer, fraction, exponent };
    assert(p.parts() =~= cut(m, s@)->0);
    Some(p)
}

fn any_place(s: &[char], fc: &FmtChars) -> (r: bool)
    ensures
        r == has_place(fc@, s@),
{
    let mut i: usize = 0;
    while i < s.len()
        invariant
            i <= s.len(),
            forall|k: int| 0 <= k < i ==> !digit_place(fc@, #[trigger] s@[k]),
        decreases s.len() - i,
    {
        if fc.is_digit_char(s[i]) || s[i] == fc.digit {
            assert(digit_place(fc@, s@[i as int]));
            return true;
        }
        i = i + 1;
    }
    false
}

fn any_inactive(s: &[char], fc: &FmtChars) -> (r: bool)
    ensures
        r == has_inactive(fc@, s@),
{
    let mut i: usize = 0;
    while i < s.len()
        invariant
            i <= s.len(),
            forall|k: int| 0 <= k < i ==> active(fc@, #[trigger] s@[k]),
        decreases s.len() - i,
    {
        if !fc.is_active_char(s[i]) {
            assert(!active(fc@, s@[i as int]));
            return true;
        }
        i = i + 1;
    }
    false
}

fn any_doubled(s: &[char], c: char) -> (r: bool)
    ensures
        r == doubled(s@, c),
{
    let n: usize = s.len();
    let mut i: usize = 0;
    while i < n && i + 1 < n
        invariant
            i <= n,
            n == s@.len(),
            forall|k: int| #![trigger s@[k]] 0 <= k < i && k < n - 1 ==> !(s@[k] == c && s@[k + 1] == c),
        decreases n - i,
    {
        if s[i] == c && s[i + 1] == c {
            assert(s@[i as int] == c && s@[i + 1] == c);
            return true;
        }
        i = i + 1;
    }
    false
}

fn is_group_at_decimal(s: &[char], fc: &FmtChars) -> (r: bool)
    ensures
        r == group_at_decimal(fc@, s@),
{
    proof {
        lemma_find_bound(s@, fc@.decimal, 0);
    }
    let n: usize = s.len();
    match find(s, fc.decimal_sep, 0) {
        Some(d) => (d > 0 && s[d - 1] == fc.grouping_sep) || (d + 1 < n && s[d + 1] == fc.grouping_sep),
        None => false,
    }
}

fn is_optional_after_digit(s: &[char], fc: &FmtChars) -> (r: bool)
    ensures
        r == optional_after_digit(fc@, s@),
{
    proof {
        lemma_find_bound(s@, fc@.optional, 0);
    }
    match find(s, fc.digit, 0) {
        Some(i) => {
            let mut k: usize = 0;
            while k < i
                invariant
                    k <= i < s@.len(),
                    find_char(s@, fc@.optional, 0) == Some(i as int),
                    forall|q: int| 0 <= q < k ==> !family_digit(fc@, #[trigger] s@[q]),
                decreases i - k,
            {
                if fc.is_digit_char(s[k]) {
                    assert(family_digit(fc@, s@[k as int]));
                    return true;
                }
                k = k + 1;
            }
            false
        },
        None => false,
    }
}

fn is_digit_after_optional(s: &[char], fc: &FmtChars) -> (r: bool)
    ensures
        r == digit_after_optional(fc@, s@),
{
    let n: usize = s.len();
    let mut i: usize = n;
    while i > 0 && s[i - 1] != fc.digit
        invariant
            i <= n,
            n == s@.len(),
            forall|q: int| i <= q < n ==> #[trigger] s@[q] != fc.digit,
        decreases i,
    {
        i = i - 1;
    }
    if i == 0 {
        return false;
    }
    let ghost at = i - 1;
    assert(s@[at] == fc@.optional);
    let mut k: usize = i - 1;
    while k < n
        invariant
            at <= k <= n,
            n == s@.len(),
            0 <= at < n,
            s@[at] == fc@.optional,
            forall|q: int| at < q < n ==> #[trigger] s@[q] != fc@.optional,
            forall|q: int| at <= q < k ==> !family_digit(fc@, #[trigger] s@[q]),
        decreases n - k,
    {
        if fc.is_digit_char(s[k]) {
            assert(family_digit(fc@, s@[k as int]));
            return true;
        }
        k = k + 1;
    }
    assert forall|a: int, b: int|
        0 <= a <= b < s@.len() && #[trigger] s@[a] == fc@.optional && (forall|q: int|
            a < q < s@.len() ==> #[trigger] s@[q] != fc@.optional) implies !family_digit(fc@, #[trigger] s@[b]) by {
        if a < at {
            assert(s@[at] != fc@.optional);
        }
        assert(a == at);
    }
    false
}

fn is_all_family(s: &[char], fc: &FmtChars) -> (r: bool)
    ensures
        r == all_family(fc@, s@),
{
    if s.len() == 0 {
        return false;
    }
    let mut i: usize = 0;
    while i < s.len()
        invariant
            i <= s.len(),
            forall|k: int| 0 <= k < i ==> family_digit(fc@, #[trigger] s@[k]),
        decreases s.len() - i,
    {
        if !fc.is_digit_char(s[i]) {
            assert(!family_digit(fc@, s@[i as int]));
            return false;
        }
        i = i + 1;
    }
    true
}

/// The rule that a picture breaks, each in turn taking the place of the one
/// before, with a sentence about it.
fn validate_sub_picture(s: &[char], p: &SubPictureParts, fc: &FmtChars) -> (r: Option<(&'static str, &'static str)>)
    ensures
        broken_rule(fc@, s@, p.parts()) == (match r {
            Some((code, message)) => Some(code@),
            None => None,
        }),
{
    let (percent, percents) = count_occurrences(s, fc.percent.as_slice());
    let (per_mille, per_milles) = count_occurrences(s, fc.per_mille.as_slice());
    let mut worst: Option<(&'static str, &'static str)> = None;
    if count_char(s, fc.decimal_sep) > 1 {
        worst = Some(("D3081", "$formatNumber: picture has more than one decimal separator"));
    }
    if percents {
        worst = Some(("D3082", "$formatNumber: picture has more than one percent character"));
    }
    if per_milles {
        worst = Some(("D3083", "$formatNumber: picture has more than one per-mille character"));
    }
    if percent && per_mille {
        worst = Some(("D3084", "$formatNumber: picture has both percent and per-mille characters"));
    }
    if !any_place(p.mantissa.as_slice(), fc) {
        worst = Some(("D3085", "$formatNumber: picture mantissa has no digit placeholders"));
    }
    if any_inactive(p.active.as_slice(), fc) {
        worst = Some(("D3086", "$formatNumber: invalid character in active picture region"));
    }
    if is_group_at_decimal(s, fc) {
        worst = Some(("D3087", "$formatNumber: grouping separator adjacent to decimal separator"));
    }
    if find(s, fc.decimal_sep, 0).is_none() && p.integer.len() > 0 && p.integer[p.integer.len() - 1] == fc.grouping_sep {
        worst = Some(("D3088", "$formatNumber: grouping separator at end of integer part"));
    }
    if any_doubled(s, fc.grouping_sep) {
        worst = Some(("D3089", "$formatNumber: adjacent grouping separators in picture"));
    }
    if is_optional_after_digit(p.integer.as_slice(), fc) {
        worst = Some(("D3090", "$formatNumber: optional digit cannot follow mandatory digit in integer part"));
    }
    if is_digit_after_optional(p.fraction.as_slice(), fc) {
        worst = Some(("D3091", "$formatNumber: mandatory digit cannot follow optional digit in fraction part"));
    }
    match &p.exponent {
        Some(e) => {
            if e.len() > 0 && (percent || per_mille) {
                worst = Some(("D3092", "$formatNumber: percent/per-mille cannot appear in picture with exponent separator"));
            }
            if !is_all_family(e.as_slice(), fc) {
                worst = Some(("D3093", "$formatNumber: exponent part must comprise digit-family characters"));
            }
        },
        None => {},
    }
    worst
}

// ── What a picture says ──────────────────────────────────────────────────────

/// What a picture says of how a number is written.
#[derive(Debug)]
pub struct SubPicture {
    pub prefix: Vec<char>,
    pub suffix: Vec<char>,
    /// Places for digits to the right of each separator in the integer part,
    /// from left to right.
    pub int_grp_pos: Vec<usize>,
    /// The interval at which separators recur, or zero where there is none.
    pub regular_grouping: usize,
    /// Places for digits to the left of each separator in the fraction.
    pub frac_grp_pos: Vec<usize>,
    pub min_int: usize,
    /// How many digits the integer part of a mantissa has.
    pub scaling_factor: usize,
    pub min_frac: usize,
    pub max_frac: usize,
    pub min_exp: usize,
    /// One for a percentage, two for thousandths, else zero.
    pub scale: u8,
    /// Whether the picture has a decimal separator anywhere.
    pub has_decimal: bool,
}

/// What a picture says, as contracts speak of it.
#[verifier::ext_equal]
pub struct Plan {
    pub prefix: Seq<char>,
    pub suffix: Seq<char>,
    pub int_groups: Seq<usize>,
    pub regular: usize,
    pub frac_groups: Seq<usize>,
    pub min_int: usize,
    pub scaling: usize,
    pub min_frac: usize,
    pub max_frac: usize,
    pub min_exp: usize,
    pub scale: u8,
    pub has_decimal: bool,
}

impl View for SubPicture {
    type V = Plan;

    open spec fn view(&self) -> Plan {
        Plan {
            prefix: self.prefix@,
            suffix: self.suffix@,
            int_groups: self.int_grp_pos@,
            regular: self.regular_grouping,
            frac_groups: self.frac_grp_pos@,
            min_int: self.min_int,
            scaling: self.scaling_factor,
            min_frac: self.min_frac,
            max_frac: self.max_frac,
            min_exp: self.min_exp,
            scale: self.scale,
            has_decimal: self.has_decimal,
        }
    }
}

/// The places for digits on one side of a place in a part.
pub open spec fn places_beside(m: Marks, part: Seq<char>, i: int, to_left: bool) -> usize {
    let cut = if i < part.len() {
        i
    } else {
        part.len() as int
    };
    if to_left {
        place_count(m, part.take(cut)) as usize
    } else {
        place_count(m, part.skip(cut)) as usize
    }
}

/// Where the separators of the integer part from `i` on divide a part.
pub open spec fn later_groups(m: Marks, part: Seq<char>, integer: Seq<char>, to_left: bool, i: int) -> Seq<usize>
    decreases integer.len() - i,
{
    if i < 0 || i >= integer.len() {
        Seq::empty()
    } else if integer[i] == m.grouping {
        seq![places_beside(m, part, i, to_left)] + later_groups(m, part, integer, to_left, i + 1)
    } else {
        later_groups(m, part, integer, to_left, i + 1)
    }
}

/// Where separators divide a part: at its first one, and from there on at those
/// of the integer part.
pub open spec fn groups_of(m: Marks, part: Seq<char>, integer: Seq<char>, to_left: bool) -> Seq<usize> {
    match find_char(part, m.grouping, 0) {
        Some(i) => seq![places_beside(m, part, i, to_left)] + later_groups(m, part, integer, to_left, i + 1),
        None => Seq::empty(),
    }
}

/// The greatest common divisor.
pub open spec fn gcd(a: nat, b: nat) -> nat
    decreases b,
{
    if b == 0 {
        a
    } else {
        gcd(b, a % b)
    }
}

/// The greatest common divisor of all.
pub open spec fn gcd_all(s: Seq<usize>) -> nat
    decreases s.len(),
{
    if s.len() == 0 {
        0
    } else if s.len() == 1 {
        s[0] as nat
    } else {
        gcd(gcd_all(s.drop_last()), s.last() as nat)
    }
}

/// A product, no larger than a machine word holds.
pub open spec fn capped_product(a: int, b: int) -> int {
    if a * b > usize::MAX {
        usize::MAX as int
    } else {
        a * b
    }
}

/// Whether the first multiples of a number are all among others, as many as
/// these are.
pub open spec fn has_multiples(s: Seq<usize>, f: int) -> bool {
    forall|k: int| 1 <= k <= s.len() ==> s.contains(#[trigger] capped_product(k, f) as usize)
}

/// The interval at which groups recur, or zero.
pub open spec fn regular_interval(s: Seq<usize>) -> usize {
    if s.len() > 0 && has_multiples(s, gcd_all(s) as int) {
        gcd_all(s) as usize
    } else {
        0
    }
}

fn divisor(a: usize, b: usize) -> (r: usize)
    ensures
        r == gcd(a as nat, b as nat),
{
    let mut x: usize = a;
    let mut y: usize = b;
    while y != 0
        invariant
            gcd(a as nat, b as nat) == gcd(x as nat, y as nat),
        decreases y,
    {
        let r: usize = x % y;
        x = y;
        y = r;
    }
    x
}

fn holds(s: &[usize], v: usize) -> (r: bool)
    ensures
        r == s@.contains(v),
{
    let mut i: usize = 0;
    while i < s.len()
        invariant
            i <= s.len(),
            forall|k: int| 0 <= k < i ==> #[trigger] s@[k] != v,
        decreases s.len() - i,
    {
        if s[i] == v {
            return true;
        }
        i = i + 1;
    }
    false
}

/// The interval at which groups recur, or zero where they do not.
pub fn regular_grouping(positions: &[usize]) -> (r: usize)
    ensures
        r == regular_interval(positions@),
{
    let n: usize = positions.len();
    if n == 0 {
        return 0;
    }
    let mut f: usize = positions[0];
    let mut i: usize = 1;
    assert(positions@.take(1)[0] == positions@[0]);
    while i < n
        invariant
            1 <= i <= n,
            n == positions@.len(),
            f == gcd_all(positions@.take(i as int)),
        decreases n - i,
    {
        assert(positions@.take(i + 1).drop_last() =~= positions@.take(i as int));
        f = divisor(f, positions[i]);
        i = i + 1;
    }
    assert(positions@.take(i as int) =~= positions@);
    let mut k: usize = 1;
    while k <= n
        invariant
            1 <= k,
            k <= n + 1,
            n == positions@.len(),
            n > 0,
            f == gcd_all(positions@),
            forall|q: int| 1 <= q < k ==> positions@.contains(#[trigger] capped_product(q, f as int) as usize),
        decreases n + 1 - k,
    {
        assert(k * f <= 0xffff_ffff_ffff_ffff * 0xffff_ffff_ffff_ffff) by (nonlinear_arith)
            requires
                0 <= k <= 0xffff_ffff_ffff_ffff,
                0 <= f <= 0xffff_ffff_ffff_ffff,
        ;
        let product: u128 = k as u128 * f as u128;
        let v: usize = if product > usize::MAX as u128 {
            usize::MAX
        } else {
            product as usize
        };
        assert(v == capped_product(k as int, f as int) as usize);
        if !holds(positions, v) {
            assert(!has_multiples(positions@, f as int));
            return 0;
        }
        if k == n {
            return f;
        }
        k = k + 1;
    }
    f
}

proof fn lemma_multiples_set(f: int, n: nat) -> (m: Set<usize>)
    requires
        f > 0,
        n * f <= usize::MAX,
    ensures
        m.finite(),
        m.len() == n,
        forall|v: usize| m.contains(v) <==> exists|k: int| 1 <= k <= n && v == #[trigger] (k * f),
    decreases n,
{
    if n == 0 {
        Set::empty()
    } else {
        assert((n - 1) * f <= n * f) by (nonlinear_arith)
            requires
                f > 0,
        ;
        assert(n * f >= 0) by (nonlinear_arith)
            requires
                f > 0,
        ;
        let p = lemma_multiples_set(f, (n - 1) as nat);
        let v = (n * f) as usize;
        assert(!p.contains(v)) by {
            if p.contains(v) {
                let k = choose|k: int| 1 <= k <= n - 1 && v == #[trigger] (k * f);
                assert(k * f < n * f) by (nonlinear_arith)
                    requires
                        f > 0,
                        k < n,
                ;
            }
        }
        let m = p.insert(v);
        assert forall|w: usize| m.contains(w) <==> exists|k: int| 1 <= k <= n && w == #[trigger] (k * f) by {
            if m.contains(w) {
                if p.contains(w) {
                    let k = choose|k: int| 1 <= k <= n - 1 && w == #[trigger] (k * f);
                    assert(1 <= k <= n && w == k * f);
                } else {
                    assert(w == n * f);
                }
            }
            if exists|k: int| 1 <= k <= n && w == #[trigger] (k * f) {
                let k = choose|k: int| 1 <= k <= n && w == #[trigger] (k * f);
                if k < n {
                    assert(1 <= k <= n - 1 && w == k * f);
                }
            }
        }
        m
    }
}

proof fn lemma_gcd_bound(a: nat, b: nat, top: nat)
    requires
        a <= top,
        b <= top,
    ensures
        gcd(a, b) <= top,
    decreases b,
{
    if b > 0 {
        lemma_gcd_bound(b, a % b, top);
    }
}

proof fn lemma_gcd_all_bound(s: Seq<usize>)
    ensures
        gcd_all(s) <= usize::MAX,
    decreases s.len(),
{
    if s.len() > 1 {
        lemma_gcd_all_bound(s.drop_last());
        lemma_gcd_bound(gcd_all(s.drop_last()), s.last() as nat, usize::MAX as nat);
    }
}

/// Groups that recur at an interval stand at its multiples, from the first to
/// as many as there are, and nowhere else.
pub proof fn law_regular_groups(s: Seq<usize>, v: usize)
    requires
        regular_interval(s) > 0,
        s.len() * regular_interval(s) <= usize::MAX,
    ensures
        s.contains(v) <==> exists|k: int| 1 <= k <= s.len() && v == #[trigger] (k * regular_interval(s)),
{
    let f = regular_interval(s) as int;
    lemma_gcd_all_bound(s);
    let m = lemma_multiples_set(f, s.len());
    let all = s.to_set();
    assert forall|w: usize| m.contains(w) implies all.contains(w) by {
        let k = choose|k: int| 1 <= k <= s.len() && w == #[trigger] (k * f);
        assert(k * f <= s.len() * f) by (nonlinear_arith)
            requires
                f > 0,
                k <= s.len(),
        ;
        assert(capped_product(k, f) as usize == w);
    }
    s.lemma_cardinality_of_set();
    vstd::set_lib::lemma_len_subset(m, all);
    if all.contains(v) && !m.contains(v) {
        vstd::set_lib::lemma_len_subset(m.insert(v), all);
    }
    assert(s.contains(v) == all.contains(v));
}

/// How a number is scaled: one for a percentage, two for thousandths.
pub open spec fn scale_of(m: Marks, s: Seq<char>) -> u8 {
    if occurrences(s, m.percent, 0) > 0 {
        1
    } else if occurrences(s, m.per_mille, 0) > 0 {
        2
    } else {
        0
    }
}

/// The fewest digits of the integer part, and the fewest and the most of the
/// fraction.
pub open spec fn digit_bounds(m: Marks, p: Parts) -> (usize, usize, usize) {
    let int0 = mandatory_count(m, p.integer) as usize;
    let frac0 = mandatory_count(m, p.fraction) as usize;
    let max0 = place_count(m, p.fraction) as usize;
    let none = int0 == 0 && max0 == 0;
    let has_exponent = p.exponent is Some;
    let int1 = if none && !has_exponent {
        1usize
    } else {
        int0
    };
    let frac1 = if none && has_exponent {
        1usize
    } else {
        frac0
    };
    let max1 = if none && has_exponent {
        1usize
    } else {
        max0
    };
    let int2 = if has_exponent && int1 == 0 && find_char(p.integer, m.optional, 0) is Some {
        1usize
    } else {
        int1
    };
    let frac2 = if int2 == 0 && frac1 == 0 {
        1usize
    } else {
        frac1
    };
    (int2, frac2, max1)
}

/// What a picture says that breaks no rule.
pub open spec fn analysed(m: Marks, s: Seq<char>, p: Parts) -> Plan {
    let groups = groups_of(m, p.integer, p.integer, false);
    let bounds = digit_bounds(m, p);
    Plan {
        prefix: p.prefix,
        suffix: p.suffix,
        int_groups: groups,
        regular: regular_interval(groups),
        frac_groups: groups_of(m, p.fraction, p.integer, true),
        min_int: bounds.0,
        scaling: mandatory_count(m, p.integer) as usize,
        min_frac: bounds.1,
        max_frac: bounds.2,
        min_exp: match p.exponent {
            Some(e) => mandatory_count(m, e) as usize,
            None => 0,
        },
        scale: scale_of(m, s),
        has_decimal: find_char(s, m.decimal, 0) is Some,
    }
}

/// What a picture says, or the rule that it breaks.
pub open spec fn parsed_picture(m: Marks, s: Seq<char>) -> Result<Plan, Seq<char>> {
    match cut(m, s) {
        None => Err("D3085"@),
        Some(p) => match broken_rule(m, s, p) {
            Some(code) => Err(code),
            None => Ok(analysed(m, s, p)),
        },
    }
}

fn count_beside(s: &[char], i: usize, to_left: bool, fc: &FmtChars) -> (r: usize)
    ensures
        r == places_beside(fc@, s@, i as int, to_left),
{
    let n: usize = s.len();
    let cut: usize = if i < n {
        i
    } else {
        n
    };
    if to_left {
        let t = part(s, 0, cut);
        assert(t@ =~= s@.take(cut as int));
        count_places(t.as_slice(), fc)
    } else {
        let t = part(s, cut, n);
        assert(t@ =~= s@.skip(cut as int));
        count_places(t.as_slice(), fc)
    }
}

fn grouping_positions(s: &[char], integer: &[char], to_left: bool, fc: &FmtChars) -> (r: Vec<usize>)
    ensures
        r@ == groups_of(fc@, s@, integer@, to_left),
{
    let mut r: Vec<usize> = Vec::new();
    let n: usize = integer.len();
    let k: usize = s.len();
    proof {
        lemma_find_bound(s@, fc@.grouping, 0);
    }
    match find(s, fc.grouping_sep, 0) {
        None => {
            assert(r@ =~= Seq::<usize>::empty());
        },
        Some(first) => {
            assert(first < k);
            r.push(count_beside(s, first, to_left, fc));
            let mut i: usize = first + 1;
            let ghost want = groups_of(fc@, s@, integer@, to_left);
            assert(r@ + later_groups(fc@, s@, integer@, to_left, i as int) =~= want);
            while i < n
                invariant
                    n == integer@.len(),
                    0 <= i,
                    r@ + later_groups(fc@, s@, integer@, to_left, i as int) == want,
                decreases n - i,
            {
                let ghost before = r@;
                let ghost rest = later_groups(fc@, s@, integer@, to_left, i as int);
                if integer[i] == fc.grouping_sep {
                    r.push(count_beside(s, i, to_left, fc));
                }
                i = i + 1;
                assert(r@ + later_groups(fc@, s@, integer@, to_left, i as int) =~= before + rest);
            }
            assert(r@ + Seq::<usize>::empty() =~= r@);
        },
    }
    r
}

fn copy_chars(s: &Vec<char>) -> (r: Vec<char>)
    ensures
        r@ == s@,
{
    let r = part(s.as_slice(), 0, s.len());
    assert(r@ =~= s@);
    r
}

fn copy_positions(s: &Vec<usize>) -> (r: Vec<usize>)
    ensures
        r@ == s@,
{
    let mut r: Vec<usize> = Vec::new();
    let mut i: usize = 0;
    while i < s.len()
        invariant
            i <= s.len(),
            r@ =~= s@.take(i as int),
        decreases s.len() - i,
    {
        r.push(s[i]);
        i = i + 1;
    }
    assert(s@.take(i as int) =~= s@);
    r
}

/// Whether the numbers in a plan can be worked with.
pub open spec fn workable(p: Plan) -> bool {
    p.max_frac < usize::MAX
}

fn analyse(s: &[char], p: SubPictureParts, fc: &FmtChars) -> (r: SubPicture)
    requires
        p.fraction@.len() < usize::MAX,
    ensures
        r@ == analysed(fc@, s@, p.parts()),
        workable(r@),
{
    let (percent, _p) = count_occurrences(s, fc.percent.as_slice());
    let (per_mille, _q) = count_occurrences(s, fc.per_mille.as_slice());
    let scale: u8 = if percent {
        1
    } else if per_mille {
        2
    } else {
        0
    };
    let int_grp_pos = grouping_positions(p.integer.as_slice(), p.integer.as_slice(), false, fc);
    let regular: usize = regular_grouping(int_grp_pos.as_slice());
    let frac_grp_pos = grouping_positions(p.fraction.as_slice(), p.integer.as_slice(), true, fc);
    let mut min_int: usize = count_mandatory(p.integer.as_slice(), fc);
    let scaling_factor: usize = min_int;
    let mut min_frac: usize = count_mandatory(p.fraction.as_slice(), fc);
    let mut max_frac: usize = count_places(p.fraction.as_slice(), fc);
    let has_exponent: bool = p.exponent.is_some();
    if min_int == 0 && max_frac == 0 {
        if has_exponent {
            min_frac = 1;
            max_frac = 1;
        } else {
            min_int = 1;
        }
    }
    if has_exponent && min_int == 0 && find(p.integer.as_slice(), fc.digit, 0).is_some() {
        min_int = 1;
    }
    if min_int == 0 && min_frac == 0 {
        min_frac = 1;
    }
    let min_exp: usize = match &p.exponent {
        Some(e) => count_mandatory(e.as_slice(), fc),
        None => 0,
    };
    let has_decimal: bool = find(s, fc.decimal_sep, 0).is_some();
    let r = SubPicture {
        prefix: p.prefix,
        suffix: p.suffix,
        int_grp_pos,
        regular_grouping: regular,
        frac_grp_pos,
        min_int,
        scaling_factor,
        min_frac,
        max_frac,
        min_exp,
        scale,
        has_decimal,
    };
    assert(r@ =~= analysed(fc@, s@, p.parts()));
    r
}

pub open spec fn out_plan(r: Result<SubPicture, JsonataError>) -> Result<Plan, Seq<char>> {
    match r {
        Ok(p) => Ok(p@),
        Err(e) => Err(e.code@),
    }
}

/// What a picture says, or the rule that it breaks.
pub fn parse_sub_picture(s: &[char], fc: &FmtChars) -> (r: Result<SubPicture, JsonataError>)
    ensures
        out_plan(r) == parsed_picture(fc@, s@),
        r matches Ok(p) ==> workable(p@),
{
    match cut_picture(s, fc) {
        None => Err(JsonataError::new("D3085", "$formatNumber: picture has no digit or separator characters")),
        Some(p) => match validate_sub_picture(s, &p, fc) {
            Some((code, message)) => Err(JsonataError::new(code, message)),
            None => Ok(analyse(s, p, fc)),
        },
    }
}

// ── Writing a number ─────────────────────────────────────────────────────────

/// Ten.
pub open spec fn ten() -> Number {
    Number { bits: 0x4024_0000_0000_0000 }
}

proof fn lemma_ten()
    ensures
        ten().finite(),
        !ten().negative(),
        scaled(ten().mag()) == 10 * vstd::arithmetic::power2::pow2(UNIT as nat),
{
    let h = 0x10_0000_0000_0000int;
    let m = ten().mag();
    assert(m == 0x4024_0000_0000_0000int);
    assert(m / h == 0x402 && m % h == 0x4_0000_0000_0000);
    vstd::arithmetic::power2::lemma_pow2_adds(0x401, 49);
    vstd::arithmetic::power2::lemma2_to64();
    vstd::arithmetic::power2::lemma2_to64_rest();
    assert(vstd::arithmetic::power2::pow2(49) == 0x2_0000_0000_0000);
    assert(0x401 + 49 == 1074);
    let p = vstd::arithmetic::power2::pow2(0x401);
    assert(scaled(m) == 0x14_0000_0000_0000nat * p);
    assert(0x14_0000_0000_0000nat * p == 10 * (p * 0x2_0000_0000_0000nat)) by (nonlinear_arith);
}

proof fn lemma_scaled_double(m: int)
    requires
        0 < m,
    ensures
        scaled(m + 1) <= 2 * scaled(m),
{
    let h = 0x10_0000_0000_0000int;
    let e = m / h;
    let f = m % h;
    vstd::arithmetic::power2::lemma2_to64();
    if f + 1 < h {
        assert((m + 1) / h == e && (m + 1) % h == f + 1);
        if e > 0 {
            let p = vstd::arithmetic::power2::pow2((e - 1) as nat);
            assert((h + f + 1) * p <= 2 * ((h + f) * p)) by (nonlinear_arith)
                requires
                    h + f >= 1,
                    p >= 0,
            ;
        }
    } else {
        assert((m + 1) / h == e + 1 && (m + 1) % h == 0);
        if e > 0 {
            let p = vstd::arithmetic::power2::pow2((e - 1) as nat);
            vstd::arithmetic::power2::lemma_pow2_unfold(e as nat);
            assert(vstd::arithmetic::power2::pow2(e as nat) == 2 * p);
            assert(h * (2 * p) <= 2 * ((h + f) * p)) by (nonlinear_arith)
                requires
                    f >= 0,
                    h >= 0,
                    p >= 0,
            ;
        }
    }
}

proof fn lemma_times_ten_grows(x: Number)
    requires
        x.finite(),
        !x.zero(),
    ensures
        x.times_spec(ten()).mag() > x.mag(),
        !x.times_spec(ten()).nan(),
        x.times_spec(ten()).negative() == x.negative(),
{
    lemma_ten();
    let u = vstd::arithmetic::power2::pow2(UNIT as nat) as int;
    vstd::arithmetic::power2::lemma_pow2_pos(UNIT as nat);
    let m = x.mag();
    let s = scaled(m) as int;
    let n = (scaled(m) * scaled(ten().mag())) as int;
    assert(n >= 0) by (nonlinear_arith)
        requires
            n == scaled(m) * scaled(ten().mag()),
    ;
    assert(n == 10 * s * u) by (nonlinear_arith)
        requires
            n == s * (10 * u),
    ;
    lemma_ratio_exists(n, u);
    let r = round_ratio(n, u);
    lemma_scaled_monotone(m, m + 1);
    lemma_scaled_double(m);
    let t = scaled(m + 1) as int;
    assert(distance(m + 1, n, u) == (10 * s - t) * u) by (nonlinear_arith)
        requires
            n == 10 * s * u,
            t <= 2 * s,
            s >= 0,
            u > 0,
            distance(m + 1, n, u) == (if t * u - n < 0 {
                -(t * u - n)
            } else {
                t * u - n
            }),
    ;
    if r <= m {
        let q = scaled(r) as int;
        if r < m {
            lemma_scaled_monotone(r, m);
        }
        assert(q <= s);
        assert(distance(r, n, u) == (10 * s - q) * u) by (nonlinear_arith)
            requires
                n == 10 * s * u,
                q <= s,
                s >= 0,
                u > 0,
                distance(r, n, u) == (if q * u - n < 0 {
                    -(q * u - n)
                } else {
                    q * u - n
                }),
        ;
        assert((10 * s - t) * u < (10 * s - q) * u) by (nonlinear_arith)
            requires
                t > s,
                q <= s,
                u > 0,
        ;
        assert(false);
    }
}

proof fn lemma_over_ten_shrinks(x: Number)
    requires
        x.finite(),
        !x.zero(),
    ensures
        x.over_spec(ten()).mag() < x.mag(),
        !x.over_spec(ten()).nan(),
        x.over_spec(ten()).negative() == x.negative(),
{
    lemma_ten();
    let u = vstd::arithmetic::power2::pow2(UNIT as nat) as int;
    vstd::arithmetic::power2::lemma_pow2_pos(UNIT as nat);
    let m = x.mag();
    let s = scaled(m) as int;
    lemma_scaled_monotone(0, m);
    assert(scaled(0) == 0);
    let n = (scaled(m) * vstd::arithmetic::power2::pow2(UNIT as nat)) as int;
    let d = scaled(ten().mag()) as int;
    assert(n >= 0) by (nonlinear_arith)
        requires
            n == s * u,
            s >= 0,
            u > 0,
    ;
    lemma_ratio_exists(n, d);
    let r = round_ratio(n, d);
    assert(distance(0, n, d) == n) by (nonlinear_arith)
        requires
            n >= 0,
            scaled(0) == 0,
            distance(0, n, d) == (if scaled(0) * d - n < 0 {
                -(scaled(0) * d - n)
            } else {
                scaled(0) * d - n
            }),
    ;
    if r >= m {
        let q = scaled(r) as int;
        if r > m {
            lemma_scaled_monotone(m, r);
        }
        assert(distance(r, n, d) > n) by (nonlinear_arith)
            requires
                n == s * u,
                d == 10 * u,
                q >= s,
                s > 0,
                u > 0,
                distance(r, n, d) == (if q * d - n < 0 {
                    -(q * d - n)
                } else {
                    q * d - n
                }),
        ;
        assert(false);
    }
}

/// A number multiplied by ten until it reaches a bound, and how often.
pub open spec fn raised(x: Number, low: Number, k: int) -> (Number, int)
    decreases INFINITE - x.mag(),
{
    if !x.finite() || x.zero() || !x.abs_spec().lt_spec(low) {
        (x, k)
    } else {
        proof {
            lemma_times_ten(x);
        }
        raised(x.times_spec(ten()), low, k + 1)
    }
}

/// A number divided by ten until it is within a bound, and how often.
pub open spec fn lowered(x: Number, high: Number, k: int) -> (Number, int)
    decreases x.mag(),
{
    if !x.finite() || x.zero() || !high.lt_spec(x.abs_spec()) {
        (x, k)
    } else {
        proof {
            lemma_over_ten(x);
        }
        lowered(x.over_spec(ten()), high, k + 1)
    }
}

/// Multiplying by ten makes a number larger.
pub proof fn lemma_times_ten(x: Number)
    requires
        x.finite(),
        !x.zero(),
    ensures
        x.mag() < x.times_spec(ten()).mag() <= INFINITE,
{
    lemma_times_ten_grows(x);
}

/// Dividing by ten makes a number smaller.
pub proof fn lemma_over_ten(x: Number)
    requires
        x.finite(),
        !x.zero(),
    ensures
        0 <= x.over_spec(ten()).mag() < x.mag(),
{
    lemma_over_ten_shrinks(x);
}

/// The mantissa of a number, with as many digits before the decimal point as a
/// picture has there, and the exponent that goes with it.
pub open spec fn normal_form(x: Number, scaling: int) -> (Number, int) {
    let up = raised(x, power_of_ten(scaling - 1), 0);
    let down = lowered(up.0, power_of_ten(scaling), 0);
    (down.0, down.1 - up.1)
}

/// A magnitude with a number of decimals.
pub open spec fn value_text(x: Number, places: nat) -> Seq<char> {
    if x.nan() {
        "NaN"@
    } else if x.infinite() {
        "inf"@
    } else {
        fixed_text(x.mag(), places)
    }
}

/// A text with its digits in a family.
pub open spec fn in_family(s: Seq<char>, zero: char) -> Seq<char> {
    s.map_values(|c: char| in_other_family(c, zero))
}

/// A text with its decimal point made the separator, or one put at its end.
pub open spec fn with_decimal(s: Seq<char>, c: char) -> Seq<char> {
    match find_char(s, '.', 0) {
        Some(i) => s.update(i, c),
        None => s.push(c),
    }
}

/// First place at or after `i` where another character stands.
pub open spec fn run_end(s: Seq<char>, c: char, i: int) -> int
    decreases s.len() - i,
{
    if i < 0 || i >= s.len() || s[i] != c {
        i
    } else {
        run_end(s, c, i + 1)
    }
}

/// Last place at or before `i` behind which only the character stands.
pub open spec fn run_start(s: Seq<char>, c: char, i: int) -> int
    decreases i,
{
    if i <= 0 || i > s.len() || s[i - 1] != c {
        i
    } else {
        run_start(s, c, i - 1)
    }
}

/// A text without a character at its ends.
pub open spec fn stripped(s: Seq<char>, c: char) -> Seq<char> {
    let t = s.skip(run_end(s, c, 0));
    t.take(run_start(t, c, t.len() as int))
}

/// Where a character stands first, or one below zero.
pub open spec fn place_of(s: Seq<char>, c: char) -> int {
    match find_char(s, c, 0) {
        Some(i) => i,
        None => -1,
    }
}

pub open spec fn at_least_zero(n: int) -> nat {
    if n < 0 {
        0
    } else {
        n as nat
    }
}

/// A text with zeros before and after, to the fewest digits on both sides of
/// the decimal separator.
pub open spec fn zero_padded(s: Seq<char>, m: Marks, min_int: int, min_frac: int) -> Seq<char> {
    let d = place_of(s, m.decimal);
    repeated(m.zero, at_least_zero(min_int - d)) + s + repeated(m.zero, at_least_zero(min_frac - (s.len() - d - 1)))
}

/// Where text is put in: a place below zero counts from the end.
pub open spec fn split_point(at: int, len: int) -> int {
    let p = if at < 0 {
        len + at
    } else {
        at
    };
    if p < 0 {
        0
    } else if p > len {
        len
    } else {
        p
    }
}

/// A text with a character put in.
pub open spec fn inserted(s: Seq<char>, at: int, c: char) -> Seq<char> {
    s.insert(split_point(at, s.len() as int), c)
}

/// A text with separators at an interval before a place.
pub open spec fn regularly(s: Seq<char>, c: char, d: int, interval: int, k: int, groups: int) -> Seq<char>
    decreases groups - k + 1,
{
    if k > groups {
        s
    } else {
        regularly(inserted(s, d - k * interval, c), c, d, interval, k + 1, groups)
    }
}

/// A text with separators so many places before a place, which moves along.
pub open spec fn literally(s: Seq<char>, c: char, d: int, groups: Seq<usize>, k: int) -> Seq<char>
    decreases groups.len() - k,
{
    if k < 0 || k >= groups.len() {
        s
    } else {
        literally(inserted(s, d + k - groups[k], c), c, d, groups, k + 1)
    }
}

/// A text with separators so many places behind a place.
pub open spec fn behind(s: Seq<char>, c: char, d: int, groups: Seq<usize>, k: int) -> Seq<char>
    decreases groups.len() - k,
{
    if k < 0 || k >= groups.len() {
        s
    } else {
        behind(inserted(s, groups[k] + d + 1, c), c, d, groups, k + 1)
    }
}

/// A text with the separators of its integer part.
pub open spec fn integer_grouped(s: Seq<char>, m: Marks, p: Plan) -> Seq<char> {
    let d = place_of(s, m.decimal);
    if p.regular > 0 {
        regularly(s, m.grouping, d, p.regular as int, 1, (d - 1) / (p.regular as int))
    } else {
        literally(s, m.grouping, d, p.int_groups, 0)
    }
}

/// A text without its decimal separator where the picture has none or nothing
/// stands behind it.
pub open spec fn without_decimal(s: Seq<char>, m: Marks, p: Plan) -> Seq<char> {
    if s.len() > 0 && (!p.has_decimal || place_of(s, m.decimal) == s.len() - 1) {
        s.drop_last()
    } else {
        s
    }
}

/// A whole number with zeros before it, to a fewest digits.
pub open spec fn exponent_digits(e: int, m: Marks, min: int) -> Seq<char> {
    let d = in_family(
        nat_text(
            if e < 0 {
                (-e) as nat
            } else {
                e as nat
            },
        ),
        m.zero,
    );
    repeated(m.zero, at_least_zero(min - d.len())) + d
}

/// A number as a picture has it, without what stands before and after.
pub open spec fn digits_by(x: Number, m: Marks, p: Plan) -> Seq<char> {
    let (mantissa, exponent) = if p.min_exp == 0 {
        (x, 0)
    } else {
        normal_form(x, p.scaling as int)
    };
    let places = if p.max_frac <= i32::MAX {
        p.max_frac as int
    } else {
        0
    };
    let t = in_family(value_text(rounded_at(mantissa, places), p.max_frac as nat), m.zero);
    let s = stripped(with_decimal(t, m.decimal), m.zero);
    let g = integer_grouped(zero_padded(s, m, p.min_int as int, p.min_frac as int), m, p);
    let f = without_decimal(behind(g, m.grouping, place_of(g, m.decimal), p.frac_groups, 0), m, p);
    if p.min_exp == 0 {
        f
    } else {
        let sep = match m.exponent {
            Some(c) => c,
            None => 'e',
        };
        let sign = if exponent < 0 {
            seq!['-']
        } else {
            Seq::empty()
        };
        f.push(sep) + sign + exponent_digits(exponent, m, p.min_exp as int)
    }
}

fn get_place(s: &[char], c: char) -> (r: i128)
    ensures
        r == place_of(s@, c),
        -1 <= r < s@.len(),
        r <= usize::MAX,
{
    proof {
        lemma_find_bound(s@, c, 0);
    }
    match find(s, c, 0) {
        Some(i) => i as i128,
        None => -1,
    }
}

fn get_split_point(at: i128, len: usize) -> (r: usize)
    requires
        -0x4000_0000_0000_0000_0000_0000_0000_0000 <= at,
    ensures
        r == split_point(at as int, len as int),
        r <= len,
{
    let n: i128 = len as i128;
    let p: i128 = if at < 0 {
        n + at
    } else {
        at
    };
    if p < 0 {
        0
    } else if p > n {
        len
    } else {
        p as usize
    }
}

fn make_string(x: Number, places: usize, fc: &FmtChars) -> (r: Vec<char>)
    requires
        places < usize::MAX,
    ensures
        r@ == in_family(value_text(x, places as nat), fc@.zero),
{
    let t = if x.is_nan() {
        chars_of("NaN")
    } else if x.is_infinite() {
        chars_of("inf")
    } else {
        fixed_chars(x.magnitude(), places)
    };
    let r = apply_digit_family_rune(t.as_slice(), fc.zero_digit);
    assert(r@ =~= in_family(value_text(x, places as nat), fc@.zero));
    r
}

fn mantissa_and_exponent(x: Number, scaling: usize) -> (r: (Number, i128))
    ensures
        r.0 == normal_form(x, scaling as int).0,
        r.1 == normal_form(x, scaling as int).1,
        -0x1_0000_0000_0000_0000 < r.1 < 0x1_0000_0000_0000_0000,
{
    let low = ten_to(scaling as i128 - 1);
    let high = ten_to(scaling as i128);
    let by = Number { bits: 0x4024_0000_0000_0000 };
    let mut m = x;
    let mut up: i128 = 0;
    while m.is_finite() && !m.is_zero() && m.abs().lt(&low)
        invariant
            by == ten(),
            low == power_of_ten(scaling - 1),
            raised(x, low, 0) == raised(m, low, up as int),
            0 <= up <= m.mag(),
            m.mag() <= u64::MAX,
        decreases INFINITE - m.mag(),
    {
        proof {
            lemma_times_ten_grows(m);
        }
        m = m.times(&by);
        up = up + 1;
    }
    assert(raised(x, low, 0) == (m, up as int));
    let ghost start = m;
    let mut down: i128 = 0;
    while m.is_finite() && !m.is_zero() && high.lt(&m.abs())
        invariant
            by == ten(),
            high == power_of_ten(scaling as int),
            lowered(start, high, 0) == lowered(m, high, down as int),
            0 <= down,
            down + m.mag() <= start.mag() <= u64::MAX,
        decreases m.mag(),
    {
        proof {
            lemma_over_ten_shrinks(m);
        }
        m = m.over(&by);
        down = down + 1;
    }
    (m, down - up)
}

fn strip(s: Vec<char>, c: char) -> (r: Vec<char>)
    ensures
        r@ == stripped(s@, c),
{
    let n: usize = s.len();
    let mut a: usize = 0;
    while a < n && s[a] == c
        invariant
            a <= n,
            n == s@.len(),
            run_end(s@, c, 0) == run_end(s@, c, a as int),
        decreases n - a,
    {
        a = a + 1;
    }
    let t = part(s.as_slice(), a, n);
    assert(t@ =~= s@.skip(a as int));
    let k: usize = t.len();
    let mut b: usize = k;
    while b > 0 && t[b - 1] == c
        invariant
            b <= k,
            k == t@.len(),
            run_start(t@, c, k as int) == run_start(t@, c, b as int),
        decreases b,
    {
        b = b - 1;
    }
    let r = part(t.as_slice(), 0, b);
    assert(r@ =~= t@.take(b as int));
    r
}

fn pad_zeros(s: Vec<char>, fc: &FmtChars, min_int: usize, min_frac: usize) -> (r: Vec<char>)
    ensures
        r@ == zero_padded(s@, fc@, min_int as int, min_frac as int),
{
    let d: i128 = get_place(s.as_slice(), fc.decimal_sep);
    let left: i128 = min_int as i128 - d;
    let right: i128 = min_frac as i128 - (s.len() as i128 - d - 1);
    let mut r: Vec<char> = Vec::new();
    push_zeros(&mut r, fc.zero_digit, left);
    push_all(&mut r, s.as_slice());
    push_zeros(&mut r, fc.zero_digit, right);
    assert(r@ =~= zero_padded(s@, fc@, min_int as int, min_frac as int));
    r
}

fn push_zeros(r: &mut Vec<char>, c: char, n: i128)
    ensures
        final(r)@ == old(r)@ + repeated(c, at_least_zero(n as int)),
{
    let ghost before = r@;
    let mut i: i128 = 0;
    while i < n
        invariant
            0 <= i,
            n >= 0 ==> i <= n,
            n < 0 ==> i == 0,
            r@ =~= before + repeated(c, i as nat),
        decreases n - i,
    {
        r.push(c);
        i = i + 1;
    }
    assert(r@ =~= before + repeated(c, at_least_zero(n as int)));
}

fn group_integer_part(s: Vec<char>, p: &SubPicture, fc: &FmtChars) -> (r: Vec<char>)
    ensures
        r@ == integer_grouped(s@, fc@, p@),
{
    let c: char = fc.grouping_sep;
    let d: i128 = get_place(s.as_slice(), fc.decimal_sep);
    let ghost start = s@;
    let mut r = s;
    if p.regular_grouping > 0 {
        let interval: i128 = p.regular_grouping as i128;
        if d < 1 {
            assert((d - 1) / interval as int <= 0) by (nonlinear_arith)
                requires
                    d < 1,
                    interval > 0,
            ;
            return r;
        }
        let groups: i128 = (d - 1) / interval;
        assert(groups * interval <= d - 1 && 0 <= groups <= d - 1) by (nonlinear_arith)
            requires
                groups == (d - 1) / interval as int,
                d >= 1,
                interval > 0,
        ;
        let mut k: i128 = 1;
        while k <= groups
            invariant
                1 <= k <= groups + 1,
                groups <= d - 1,
                d <= usize::MAX,
                interval > 0,
                groups * interval <= d - 1,
                c == fc@.grouping,
                regularly(start, c, d as int, interval as int, 1, groups as int) == regularly(
                    r@,
                    c,
                    d as int,
                    interval as int,
                    k as int,
                    groups as int,
                ),
            decreases groups + 1 - k,
        {
            assert(0 <= k * interval <= d - 1) by (nonlinear_arith)
                requires
                    1 <= k <= groups,
                    interval > 0,
                    groups * interval <= d - 1,
            ;
            let at: usize = get_split_point(d - k * interval, r.len());
            r.insert(at, c);
            k = k + 1;
        }
        return r;
    }
    let mut k: usize = 0;
    while k < p.int_grp_pos.len()
        invariant
            k <= p.int_grp_pos@.len(),
            -1 <= d <= usize::MAX,
            c == fc@.grouping,
            literally(start, c, d as int, p@.int_groups, 0) == literally(r@, c, d as int, p@.int_groups, k as int),
        decreases p.int_grp_pos.len() - k,
    {
        let at: usize = get_split_point(d + k as i128 - p.int_grp_pos[k] as i128, r.len());
        r.insert(at, c);
        k = k + 1;
    }
    r
}

fn group_fraction(s: Vec<char>, p: &SubPicture, fc: &FmtChars) -> (r: Vec<char>)
    ensures
        r@ == behind(s@, fc@.grouping, place_of(s@, fc@.decimal), p@.frac_groups, 0),
{
    let c: char = fc.grouping_sep;
    let d: i128 = get_place(s.as_slice(), fc.decimal_sep);
    let ghost start = s@;
    let mut r = s;
    let mut k: usize = 0;
    while k < p.frac_grp_pos.len()
        invariant
            k <= p.frac_grp_pos@.len(),
            -1 <= d <= usize::MAX,
            c == fc@.grouping,
            behind(start, c, d as int, p@.frac_groups, 0) == behind(r@, c, d as int, p@.frac_groups, k as int),
        decreases p.frac_grp_pos.len() - k,
    {
        let at: usize = get_split_point(p.frac_grp_pos[k] as i128 + d + 1, r.len());
        r.insert(at, c);
        k = k + 1;
    }
    r
}

fn push_exponent(s: Vec<char>, e: i128, p: &SubPicture, fc: &FmtChars) -> (r: Vec<char>)
    requires
        -0x1_0000_0000_0000_0000 < e < 0x1_0000_0000_0000_0000,
    ensures
        r@ == s@.push(
            match fc@.exponent {
                Some(c) => c,
                None => 'e',
            },
        ) + (if e < 0 {
            seq!['-']
        } else {
            Seq::empty()
        }) + exponent_digits(e as int, fc@, p@.min_exp as int),
{
    let ghost before = s@;
    let size: u64 = if e < 0 {
        (-e) as u64
    } else {
        e as u64
    };
    let d = apply_digit_family_rune(nat_chars(size).as_slice(), fc.zero_digit);
    assert(d@ =~= in_family(nat_text(size as nat), fc@.zero));
    let mut r = s;
    r.push(
        match fc.exponent_sep {
            Some(c) => c,
            None => 'e',
        },
    );
    if e < 0 {
        r.push('-');
    }
    let ghost so_far = r@;
    push_zeros(&mut r, fc.zero_digit, p.min_exp as i128 - d.len() as i128);
    push_all(&mut r, d.as_slice());
    assert(r@ =~= so_far + exponent_digits(e as int, fc@, p@.min_exp as int));
    assert(so_far =~= before.push(
        match fc@.exponent {
            Some(c) => c,
            None => 'e',
        },
    ) + (if e < 0 {
        seq!['-']
    } else {
        Seq::empty()
    }));
    r
}

/// A number as a picture has it, without what stands before and after.
fn format_sub_picture(x: Number, p: &SubPicture, fc: &FmtChars) -> (r: Vec<char>)
    requires
        workable(p@),
    ensures
        r@ == digits_by(x, fc@, p@),
{
    let mut mantissa = x;
    let mut exponent: i128 = 0;
    if p.min_exp > 0 {
        let (m, e) = mantissa_and_exponent(x, p.scaling_factor);
        mantissa = m;
        exponent = e;
    }
    let places: i32 = if p.max_frac <= i32::MAX as usize {
        p.max_frac as i32
    } else {
        0
    };
    let mut t = make_string(bankers_round(mantissa, places), p.max_frac, fc);
    let ghost whole = t@;
    proof {
        lemma_find_bound(t@, '.', 0);
    }
    match find(t.as_slice(), '.', 0) {
        Some(i) => {
            t.set(i, fc.decimal_sep);
        },
        None => {
            t.push(fc.decimal_sep);
        },
    }
    assert(t@ =~= with_decimal(whole, fc@.decimal));
    let s = strip(t, fc.zero_digit);
    let g = group_integer_part(pad_zeros(s, fc, p.min_int, p.min_frac), p, fc);
    let mut f = group_fraction(g, p, fc);
    let ghost full = f@;
    if f.len() > 0 && (!p.has_decimal || get_place(f.as_slice(), fc.decimal_sep) == f.len() as i128 - 1) {
        f.pop();
    }
    assert(f@ =~= without_decimal(full, fc@, p@));
    if p.min_exp > 0 {
        return push_exponent(f, exponent, p, fc);
    }
    f
}

// ── Entry ────────────────────────────────────────────────────────────────────

/// The pictures that a picture holds: the separator between them may be of any
/// length, and an empty one stands between all characters.
pub open spec fn pictures(s: Seq<char>, sep: Seq<char>) -> Seq<Seq<char>> {
    if sep.len() > 0 {
        split_from(s, sep, 0, 0)
    } else if s.len() == 0 {
        seq![Seq::empty()]
    } else {
        s.map_values(|c: char| seq![c])
    }
}

/// The picture for positive numbers and that for negative ones: without a
/// second picture, the first with a minus sign before it.
pub open spec fn prepared(s: Seq<char>, m: Marks) -> Result<(Plan, Plan), Seq<char>> {
    let all = pictures(s, m.pattern);
    if all.len() > 2 {
        Err("D3080"@)
    } else {
        match parsed_picture(m, all[0]) {
            Err(e) => Err(e),
            Ok(pos) => if all.len() == 2 {
                match parsed_picture(m, all[1]) {
                    Err(e) => Err(e),
                    Ok(neg) => Ok((pos, neg)),
                }
            } else {
                Ok((pos, Plan { prefix: seq!['-'] + pos.prefix, ..pos }))
            },
        }
    }
}

/// A number by its pictures.
pub open spec fn formatted_by(n: Number, m: Marks, pos: Plan, neg: Plan) -> Seq<char> {
    let p = if n.lt_spec(Number::of_int(0)) {
        neg
    } else {
        pos
    };
    let x = if p.scale == 1 {
        n.times_spec(Number::of_int(100))
    } else if p.scale == 2 {
        n.times_spec(Number::of_int(1000))
    } else {
        n
    };
    p.prefix + digits_by(x, m, p) + p.suffix
}

/// Cut a picture at its separator.
pub fn split_on_pattern_sep(s: &[char], sep: &[char]) -> (r: Vec<Vec<char>>)
    ensures
        texts_of(r@) == pictures(s@, sep@),
        r@.len() > 0,
{
    if sep.len() > 0 {
        proof {
            crate::text::law_join_undoes_split(s@, sep@);
            lemma_split_some(s@, sep@, 0, 0);
        }
        let r = split_text(s, sep);
        assert(texts_of(r@).len() == r@.len());
        return r;
    }
    let mut r: Vec<Vec<char>> = Vec::new();
    if s.len() == 0 {
        let none: Vec<char> = Vec::new();
        assert(none@ =~= Seq::<char>::empty());
        r.push(none);
        assert(texts_of(r@) =~= seq![Seq::<char>::empty()]);
        return r;
    }
    let mut i: usize = 0;
    while i < s.len()
        invariant
            i <= s.len(),
            r@.len() == i,
            forall|q: int| 0 <= q < i ==> (#[trigger] r@[q])@ == seq![s@[q]],
        decreases s.len() - i,
    {
        r.push(one_char(s[i]));
        i = i + 1;
    }
    assert(texts_of(r@) =~= s@.map_values(|c: char| seq![c]));
    r
}

proof fn lemma_split_some(s: Seq<char>, sep: Seq<char>, start: int, i: int)
    requires
        sep.len() > 0,
        0 <= i,
    ensures
        split_from(s, sep, start, i).len() > 0,
    decreases s.len() - i,
{
    if i < s.len() && !occurs_at(s, sep, i) {
        lemma_split_some(s, sep, start, i + 1);
    }
}

pub open spec fn out_prepared(r: Result<(SubPicture, SubPicture), JsonataError>) -> Result<(Plan, Plan), Seq<char>> {
    match r {
        Ok((a, b)) => Ok((a@, b@)),
        Err(e) => Err(e.code@),
    }
}

/// The picture for positive numbers and that for negative ones.
pub fn prepare_sub_pictures(s: &[char], fc: &FmtChars) -> (r: Result<(SubPicture, SubPicture), JsonataError>)
    ensures
        out_prepared(r) == prepared(s@, fc@),
        r matches Ok((a, b)) ==> workable(a@) && workable(b@),
{
    let all = split_on_pattern_sep(s, fc.pattern_sep.as_slice());
    let ghost texts = texts_of(all@);
    if all.len() > 2 {
        return Err(JsonataError::new("D3080", "$formatNumber: picture has more than one pattern separator"));
    }
    assert(texts[0] == all@[0]@);
    let pos = match parse_sub_picture(all[0].as_slice(), fc) {
        Ok(p) => p,
        Err(e) => {
            return Err(e);
        },
    };
    if all.len() == 2 {
        assert(texts[1] == all@[1]@);
        return match parse_sub_picture(all[1].as_slice(), fc) {
            Ok(neg) => Ok((pos, neg)),
            Err(e) => Err(e),
        };
    }
    let mut prefix: Vec<char> = Vec::new();
    prefix.push('-');
    push_all(&mut prefix, pos.prefix.as_slice());
    let neg = SubPicture {
        prefix,
        suffix: copy_chars(&pos.suffix),
        int_grp_pos: copy_positions(&pos.int_grp_pos),
        regular_grouping: pos.regular_grouping,
        frac_grp_pos: copy_positions(&pos.frac_grp_pos),
        min_int: pos.min_int,
        scaling_factor: pos.scaling_factor,
        min_frac: pos.min_frac,
        max_frac: pos.max_frac,
        min_exp: pos.min_exp,
        scale: pos.scale,
        has_decimal: pos.has_decimal,
    };
    assert(neg@ =~= (Plan { prefix: seq!['-'] + pos@.prefix, ..pos@ }));
    Ok((pos, neg))
}

/// A number by its pictures.
pub fn format_number_value(n: Number, pos: &SubPicture, neg: &SubPicture, fc: &FmtChars) -> (r: Vec<char>)
    requires
        workable(pos@),
        workable(neg@),
    ensures
        r@ == formatted_by(n, fc@, pos@, neg@),
{
    let p = if n.lt(&Number::from_usize(0)) {
        neg
    } else {
        pos
    };
    let x = if p.scale == 1 {
        n.times(&Number::from_usize(100))
    } else if p.scale == 2 {
        n.times(&Number::from_usize(1000))
    } else {
        n
    };
    let inner = format_sub_picture(x, p, fc);
    let mut r: Vec<char> = Vec::new();
    push_all(&mut r, p.prefix.as_slice());
    push_all(&mut r, inner.as_slice());
    push_all(&mut r, p.suffix.as_slice());
    assert(r@ =~= formatted_by(n, fc@, pos@, neg@));
    r
}

/// The characters of a picture that the third argument changes.
pub open spec fn marks_from(a: Seq<Val>) -> Marks {
    if a.len() >= 3 {
        match a[2] {
            Val::Object(o) => marks_of(o),
            _ => default_marks(),
        }
    } else {
        default_marks()
    }
}

/// What `$formatNumber` gives.
pub open spec fn format_number(a: Seq<Val>) -> Result<Val, Seq<char>> {
    if a.len() < 2 {
        Err("D3006"@)
    } else {
        match a[0] {
            Val::Undefined => Ok(Val::Undefined),
            Val::Number(n) => match a[1] {
                Val::String(s) => if !n.finite() {
                    Err("D3001"@)
                } else {
                    let m = marks_from(a);
                    match prepared(s, m) {
                        Ok((pos, neg)) => Ok(Val::String(formatted_by(n, m, pos, neg))),
                        Err(e) => Err(e),
                    }
                },
                _ => Err("T0410"@),
            },
            _ => Err("T0410"@),
        }
    }
}

/// `$formatNumber(number, picture, options)`: a number by a picture.
pub fn fn_format_number(args: &[Value], _focus: &Value) -> (r: JsonataResult)
    ensures
        out(r) == format_number(vals(args@)),
{
    if args.len() < 2 {
        return fail("D3006", "$formatNumber: requires at least 2 arguments");
    }
    assert(vals(args@)[0] == args@[0]@);
    assert(vals(args@)[1] == args@[1]@);
    let n: Number = match &args[0] {
        Value::Undefined => {
            return Ok(Value::Undefined);
        },
        Value::Number(n) => *n,
        _ => {
            return fail("T0410", "$formatNumber: argument 1 must be a number");
        },
    };
    let picture = match &args[1] {
        Value::String(s) => chars_of(s.as_str()),
        _ => {
            return fail("T0410", "$formatNumber: argument 2 must be a string");
        },
    };
    if !n.is_finite() {
        return fail("D3001", "$formatNumber: Number out of range");
    }
    let mut fc = FmtChars::standard();
    if args.len() >= 3 {
        assert(vals(args@)[2] == args@[2]@);
        if let Value::Object(o) = &args[2] {
            fc = FmtChars::from_opts(o);
        }
    }
    match prepare_sub_pictures(picture.as_slice(), &fc) {
        Ok((pos, neg)) => {
            let t = format_number_value(n, &pos, &neg, &fc);
            Ok(Value::String(text_of(t.as_slice())))
        },
        Err(e) => Err(e),
    }
}

} // verus!
