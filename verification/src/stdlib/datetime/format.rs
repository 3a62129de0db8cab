//! Dates and times as text, by picture strings and in ISO 8601 notation.
//!
//! A picture is literal text with variable markers in square brackets; each
//! marker names a component and says how to present it.
use vstd::prelude::*;

use super::calendar::{
    day_of_week, day_of_year, days_before_month, epoch_day, floor_div, floor_mod, is_iso_week, iso_week,
    iso_week_thursday, law_epoch_day_injective, lemma_has_date, lemma_thursday_has_date, lemma_years_ordered,
    secs_to_ymd_hms, valid_date, week_of_month, week_thursday, weekday,
};
use super::tz::{format_timezone, out_chars, push_padded, zero_padded, zone_text};
use crate::error::JsonataError;
use crate::stdlib::number_words::{
    alphabetic_chars, letters_of, ordinal_chars, ordinal_phrase, ordinal_suffix, roman, roman_chars, suffix_of,
    word_chars, words_of,
};
use crate::text::{
    ascii_lower_all, ascii_upper_all, byte_len, chars_of, count_bytes, digit_run, digits_end, find, find_char,
    int_chars, int_text, is_text, lower_ascii_all, magnitude, nat_chars, nat_text, occurs_at, parse_int, parse_spec,
    part, push_all, push_many, push_repeated, push_text, repeated, starts_with, text_of, trim, trimmed, upper_ascii_all,
};

verus! {

/// A point in time as the components of a picture see it.
#[derive(Clone, Copy, Debug)]
pub struct Moment {
    pub year: i32,
    pub month: u8,
    pub day: u8,
    pub hour: u8,
    pub minute: u8,
    pub second: u8,
    pub millis: i32,
    /// Day of the week, 0 for Sunday.
    pub weekday: u8,
    /// Offset from UTC, in seconds.
    pub tz: i32,
}

/// Epoch milliseconds moved by an offset, held within 64 bits.
pub open spec fn local_ms(ms: int, tz: int) -> int {
    let x = ms + tz * 1000;
    if x < i64::MIN {
        i64::MIN as int
    } else if x > i64::MAX {
        i64::MAX as int
    } else {
        x
    }
}

/// Whether `m` is the point in time `local` milliseconds after the epoch.
pub open spec fn is_moment(m: Moment, local: int, tz: int) -> bool {
    let day = epoch_day(m.year as int, m.month as int, m.day as int);
    &&& valid_date(m.year as int, m.month as int, m.day as int)
    &&& m.hour < 24
    &&& m.minute < 60
    &&& m.second < 60
    &&& 0 <= m.millis < 1000
    &&& local == (day * 86400 + m.hour * 3600 + m.minute * 60 + m.second) * 1000 + m.millis
    &&& m.weekday == weekday(day)
    &&& m.tz == tz
}

/// The point in time `ms` milliseconds after the epoch, seen at an offset.
pub open spec fn moment_of(ms: int, tz: int) -> Moment {
    choose|m: Moment| is_moment(m, local_ms(ms, tz), tz)
}

/// A time is one moment only.
pub proof fn lemma_moment_unique(a: Moment, b: Moment, local: int, tz: int)
    requires
        is_moment(a, local, tz),
        is_moment(b, local, tz),
    ensures
        a == b,
{
    let da = epoch_day(a.year as int, a.month as int, a.day as int);
    let db = epoch_day(b.year as int, b.month as int, b.day as int);
    assert(da == db);
    law_epoch_day_injective(
        a.year as int,
        a.month as int,
        a.day as int,
        b.year as int,
        b.month as int,
        b.day as int,
    );
}

/// The point in time `ms` milliseconds after the epoch, seen at an offset.
pub fn moment_at(ms: i64, tz: i32) -> (r: Moment)
    ensures
        r == moment_of(ms as int, tz as int),
        is_moment(r, local_ms(ms as int, tz as int), tz as int),
        -400_000_000 <= r.year <= 400_000_000,
{
    let wide: i128 = ms as i128 + tz as i128 * 1000;
    let local: i64 = if wide < i64::MIN as i128 {
        i64::MIN
    } else if wide > i64::MAX as i128 {
        i64::MAX
    } else {
        wide as i64
    };
    let secs: i64 = floor_div(local, 1000);
    let millis: i32 = floor_mod(local, 1000) as i32;
    proof {
        lemma_has_date(secs as int / 86400);
    }
    let (year, month, day, hour, minute, second) = secs_to_ymd_hms(secs);
    let m = Moment { year, month, day, hour, minute, second, millis, weekday: day_of_week(year, month, day), tz };
    proof {
        assert(is_moment(m, local_ms(ms as int, tz as int), tz as int));
        lemma_moment_unique(m, moment_of(ms as int, tz as int), local as int, tz as int);
    }
    m
}

// ── Names ────────────────────────────────────────────────────────────────────

/// Name of a day of the week, Sunday first.
pub open spec fn weekday_name(i: int) -> Seq<char> {
    if i == 0 {
        "Sunday"@
    } else if i == 1 {
        "Monday"@
    } else if i == 2 {
        "Tuesday"@
    } else if i == 3 {
        "Wednesday"@
    } else if i == 4 {
        "Thursday"@
    } else if i == 5 {
        "Friday"@
    } else {
        "Saturday"@
    }
}

pub fn weekday_text(i: u8) -> (r: &'static str)
    ensures
        r@ == weekday_name(i as int),
{
    match i {
        0 => "Sunday",
        1 => "Monday",
        2 => "Tuesday",
        3 => "Wednesday",
        4 => "Thursday",
        5 => "Friday",
        _ => "Saturday",
    }
}

/// Name of a month, January being 1.
pub open spec fn month_name(m: int) -> Seq<char> {
    if m == 1 {
        "January"@
    } else if m == 2 {
        "February"@
    } else if m == 3 {
        "March"@
    } else if m == 4 {
        "April"@
    } else if m == 5 {
        "May"@
    } else if m == 6 {
        "June"@
    } else if m == 7 {
        "July"@
    } else if m == 8 {
        "August"@
    } else if m == 9 {
        "September"@
    } else if m == 10 {
        "October"@
    } else if m == 11 {
        "November"@
    } else {
        "December"@
    }
}

pub fn month_text(m: i64) -> (r: &'static str)
    ensures
        r@ == month_name(m as int),
{
    match m {
        1 => "January",
        2 => "February",
        3 => "March",
        4 => "April",
        5 => "May",
        6 => "June",
        7 => "July",
        8 => "August",
        9 => "September",
        10 => "October",
        11 => "November",
        _ => "December",
    }
}

// ── Widths ───────────────────────────────────────────────────────────────────

/// The number that a text stands for as a length, or zero.
pub open spec fn length_or_zero(s: Seq<char>) -> int {
    match parse_spec(s, 0, usize::MAX as int) {
        Some(v) => v,
        None => 0,
    }
}

fn read_length(s: &[char]) -> (r: usize)
    ensures
        r == length_or_zero(s@),
{
    match parse_int(s, 0, usize::MAX as i128) {
        Some(v) => v as usize,
        None => 0,
    }
}

/// What stands before the first hyphen, or everything.
pub open spec fn before_dash(s: Seq<char>) -> Seq<char> {
    match find_char(s, '-', 0) {
        Some(i) => s.take(i),
        None => s,
    }
}

/// The width that a width specifier asks for: its minimum, or zero.
pub open spec fn width_of(suffix: Seq<char>) -> int {
    length_or_zero(before_dash(suffix))
}

/// The width that a width specifier asks for.
pub fn parse_width_from_suffix(suffix: &[char]) -> (r: usize)
    ensures
        r == width_of(suffix@),
{
    match find(suffix, '-', 0) {
        Some(i) => {
            let head = part(suffix, 0, i);
            assert(head@ =~= suffix@.take(i as int));
            read_length(head.as_slice())
        },
        None => read_length(suffix),
    }
}

// ── Integers ─────────────────────────────────────────────────────────────────

/// The first `k` characters with a comma before each that is followed by a
/// multiple of three others, but the first.
pub open spec fn grouped_upto(d: Seq<char>, k: int) -> Seq<char>
    decreases k,
{
    if k <= 0 || k > d.len() {
        Seq::empty()
    } else {
        let i = k - 1;
        let c = if i > 0 && (d.len() - i) % 3 == 0 {
            seq![',', d[i]]
        } else {
            seq![d[i]]
        };
        grouped_upto(d, k - 1) + c
    }
}

/// Characters in groups of three from the right.
pub open spec fn grouped(d: Seq<char>) -> Seq<char> {
    grouped_upto(d, d.len() as int)
}

fn push_grouped(out: &mut Vec<char>, d: &[char])
    ensures
        final(out)@ == old(out)@ + grouped(d@),
{
    let ghost before = out@;
    let mut i: usize = 0;
    assert(out@ =~= before + grouped_upto(d@, 0));
    while i < d.len()
        invariant
            i <= d.len(),
            out@ == before + grouped_upto(d@, i as int),
        decreases d.len() - i,
    {
        let ghost done = grouped_upto(d@, i as int);
        if i > 0 && (d.len() - i) % 3 == 0 {
            out.push(',');
        }
        out.push(d[i]);
        assert(out@ =~= before + grouped_upto(d@, i + 1));
        i = i + 1;
    }
}

/// An integer by a presentation modifier: as it is, in groups of three, or
/// with at least as many digits as the modifier has.
pub open spec fn integer_mod(v: int, modifier: Seq<char>) -> Seq<char> {
    let m = trimmed(modifier);
    if m.len() == 0 || m == "1"@ {
        int_text(v)
    } else if find_char(m, ',', 0) is Some {
        let d = nat_text((if v < 0 { -v } else { v }) as nat);
        if d.len() > 3 {
            if v < 0 {
                seq!['-'] + grouped(d)
            } else {
                grouped(d)
            }
        } else {
            int_text(v)
        }
    } else if m[0] == '0' {
        if v < 0 {
            seq!['-'] + zero_padded((-v) as nat, digit_run(m, 0))
        } else {
            zero_padded(v as nat, digit_run(m, 0))
        }
    } else {
        int_text(v)
    }
}

/// An integer by a presentation modifier.
pub fn format_integer_mod(v: i64, modifier: &[char]) -> (r: Vec<char>)
    ensures
        r@ == integer_mod(v as int, modifier@),
{
    let m = trim(modifier);
    if m.len() == 0 || is_text(m.as_slice(), "1") {
        return int_chars(v);
    }
    let a: u64 = magnitude(v);
    if find(m.as_slice(), ',', 0).is_some() {
        let d = nat_chars(a);
        if d.len() > 3 {
            let mut out: Vec<char> = Vec::new();
            if v < 0 {
                out.push('-');
            }
            push_grouped(&mut out, d.as_slice());
            assert(out@ =~= integer_mod(v as int, modifier@));
            return out;
        }
        return int_chars(v);
    }
    if m[0] == '0' {
        let k: usize = digits_end(m.as_slice(), 0);
        let mut out: Vec<char> = Vec::new();
        if v < 0 {
            out.push('-');
        }
        push_padded(&mut out, a, k);
        assert(out@ =~= integer_mod(v as int, modifier@));
        return out;
    }
    int_chars(v)
}

/// A text padded on the left with zeros.
pub open spec fn left_padded(s: Seq<char>, w: int) -> Seq<char> {
    if s.len() < w {
        repeated('0', (w - s.len()) as nat) + s
    } else {
        s
    }
}

/// An integer by a modifier whose part after a comma is a minimum width.
pub open spec fn min_width_text(v: int, modifier: Seq<char>) -> Seq<char> {
    match find_char(modifier, ',', 0) {
        Some(i) => left_padded(integer_mod(v, modifier.take(i)), width_of(modifier.skip(i + 1))),
        None => integer_mod(v, modifier),
    }
}

/// An integer by a modifier whose part after a comma is a minimum width.
pub fn format_numeric_with_min_width(v: i32, modifier: &[char]) -> (r: Vec<char>)
    ensures
        r@ == min_width_text(v as int, modifier@),
{
    match find(modifier, ',', 0) {
        Some(i) => {
            let primary = part(modifier, 0, i);
            let suffix = part(modifier, i + 1, modifier.len());
            assert(primary@ =~= modifier@.take(i as int));
            assert(suffix@ =~= modifier@.skip(i + 1));
            let w: usize = parse_width_from_suffix(suffix.as_slice());
            let s = format_integer_mod(v as i64, primary.as_slice());
            if s.len() < w {
                let mut out: Vec<char> = Vec::new();
                push_repeated(&mut out, '0', w - s.len());
                push_all(&mut out, s.as_slice());
                assert(out@ =~= left_padded(s@, w as int));
                out
            } else {
                s
            }
        },
        None => format_integer_mod(v as i64, modifier),
    }
}

/// An integer in groups of three, sign included.
pub open spec fn grouped_int(v: int) -> Seq<char> {
    let s = int_text(v);
    if s.len() <= 3 {
        s
    } else {
        grouped(s)
    }
}

/// An integer in groups of three.
pub fn format_integer_with_grouping(v: i32) -> (r: Vec<char>)
    ensures
        r@ == grouped_int(v as int),
{
    let s = int_chars(v as i64);
    if s.len() <= 3 {
        return s;
    }
    let mut out: Vec<char> = Vec::new();
    push_grouped(&mut out, s.as_slice());
    assert(out@ =~= grouped(s@));
    out
}

// ── Years ────────────────────────────────────────────────────────────────────

/// The last `w` characters, or all where there are fewer or `w` is zero.
pub open spec fn last_chars(s: Seq<char>, w: int) -> Seq<char> {
    if w > 0 && s.len() > w {
        s.skip(s.len() - w)
    } else {
        s
    }
}

fn keep_last(s: Vec<char>, w: usize) -> (r: Vec<char>)
    ensures
        r@ == last_chars(s@, w as int),
{
    if w > 0 && s.len() > w {
        let r = part(s.as_slice(), s.len() - w, s.len());
        assert(r@ =~= s@.skip(s@.len() - w));
        r
    } else {
        s
    }
}

/// A year cut to the width that a specifier asks for.
pub fn truncate_year(y: i32, width_spec: &[char]) -> (r: Vec<char>)
    ensures
        r@ == last_chars(int_text(y as int), width_of(width_spec@)),
{
    let w: usize = parse_width_from_suffix(width_spec);
    keep_last(int_chars(y as i64), w)
}

/// Whether a character only decorates a width.
pub open spec fn width_decoration(c: char) -> bool {
    c == '#' || c == '*' || c == ' '
}

/// A width specifier without decoration at its ends.
pub open spec fn undecorated(s: Seq<char>) -> Seq<char> {
    let a = decoration_run(s, 0);
    let b = decoration_tail(s, s.len() as int);
    if a >= b {
        Seq::empty()
    } else {
        s.subrange(a, b)
    }
}

pub open spec fn decoration_run(s: Seq<char>, from: int) -> int
    decreases s.len() - from,
{
    if from < 0 || from >= s.len() || !width_decoration(s[from]) {
        from
    } else {
        decoration_run(s, from + 1)
    }
}

pub open spec fn decoration_tail(s: Seq<char>, to: int) -> int
    decreases to,
{
    if to <= 0 || to > s.len() || !width_decoration(s[to - 1]) {
        to
    } else {
        decoration_tail(s, to - 1)
    }
}

fn undecorate(s: &[char]) -> (r: Vec<char>)
    ensures
        r@ == undecorated(s@),
{
    let mut a: usize = 0;
    while a < s.len() && (s[a] == '#' || s[a] == '*' || s[a] == ' ')
        invariant
            a <= s.len(),
            decoration_run(s@, 0) == decoration_run(s@, a as int),
        decreases s.len() - a,
    {
        a = a + 1;
    }
    let mut b: usize = s.len();
    while b > 0 && (s[b - 1] == '#' || s[b - 1] == '*' || s[b - 1] == ' ')
        invariant
            b <= s.len(),
            decoration_tail(s@, s@.len() as int) == decoration_tail(s@, b as int),
        decreases b,
    {
        b = b - 1;
    }
    if a >= b {
        Vec::new()
    } else {
        part(s, a, b)
    }
}

/// The maximum width after the hyphen of a width specifier, or zero.
pub open spec fn maximum_width(suffix: Seq<char>) -> int {
    match find_char(suffix, '-', 0) {
        Some(i) => length_or_zero(undecorated(suffix.skip(i + 1))),
        None => 0,
    }
}

/// A year by a presentation modifier.
pub open spec fn year_token(y: int, modifier: Seq<char>) -> Seq<char> {
    match find_char(modifier, ',', 0) {
        None => integer_mod(y, modifier),
        Some(i) => {
            let prefix = modifier.take(i);
            let suffix = modifier.skip(i + 1);
            if i == 0 {
                last_chars(int_text(y), width_of(suffix))
            } else if maximum_width(suffix) > 0 {
                last_chars(integer_mod(y, prefix), maximum_width(suffix))
            } else if find_char(prefix, '9', 0) is Some || find_char(suffix, '9', 0) is Some {
                grouped_int(y)
            } else {
                integer_mod(y, prefix)
            }
        },
    }
}

/// A year by a presentation modifier.
pub fn format_year_token(y: i32, modifier: &[char]) -> (r: Vec<char>)
    ensures
        r@ == year_token(y as int, modifier@),
{
    match find(modifier, ',', 0) {
        None => format_integer_mod(y as i64, modifier),
        Some(i) => {
            let prefix = part(modifier, 0, i);
            let suffix = part(modifier, i + 1, modifier.len());
            assert(prefix@ =~= modifier@.take(i as int));
            assert(suffix@ =~= modifier@.skip(i + 1));
            if i == 0 {
                return truncate_year(y, suffix.as_slice());
            }
            let w: usize = match find(suffix.as_slice(), '-', 0) {
                Some(k) => {
                    let rest = part(suffix.as_slice(), k + 1, suffix.len());
                    assert(rest@ =~= suffix@.skip(k + 1));
                    let bare = undecorate(rest.as_slice());
                    read_length(bare.as_slice())
                },
                None => 0,
            };
            if w > 0 {
                return keep_last(format_integer_mod(y as i64, prefix.as_slice()), w);
            }
            if find(prefix.as_slice(), '9', 0).is_some() || find(suffix.as_slice(), '9', 0).is_some() {
                return format_integer_with_grouping(y);
            }
            format_integer_mod(y as i64, prefix.as_slice())
        },
    }
}

/// The component `Y`.
pub open spec fn year_component(y: int, modifier: Seq<char>) -> Result<Seq<char>, Seq<char>> {
    if modifier == "I"@ {
        Ok(roman(y, true))
    } else if modifier == "i"@ {
        Ok(roman(y, false))
    } else if modifier == "w"@ {
        Ok(words_of(y))
    } else if modifier == "W"@ {
        Ok(ascii_upper_all(words_of(y)))
    } else if modifier == "a"@ {
        Ok(letters_of(y, 'a'))
    } else if modifier == "A"@ {
        Ok(letters_of(y, 'A'))
    } else if modifier == "N"@ {
        Err("D3133"@)
    } else {
        Ok(year_token(y, modifier))
    }
}

/// The component `Y`.
pub fn format_year_component(y: i32, modifier: &[char]) -> (r: Result<Vec<char>, JsonataError>)
    ensures
        out_chars(r) == year_component(y as int, modifier@),
{
    if is_text(modifier, "I") {
        Ok(roman_chars(y as i64, true))
    } else if is_text(modifier, "i") {
        Ok(roman_chars(y as i64, false))
    } else if is_text(modifier, "w") {
        Ok(word_chars(y as i64))
    } else if is_text(modifier, "W") {
        Ok(upper_ascii_all(word_chars(y as i64).as_slice()))
    } else if is_text(modifier, "a") {
        Ok(alphabetic_chars(y as i64, 'a'))
    } else if is_text(modifier, "A") {
        Ok(alphabetic_chars(y as i64, 'A'))
    } else if is_text(modifier, "N") {
        Err(JsonataError::new("D3133", "the picture string is not valid: unsupported modifier in [YN]"))
    } else {
        Ok(format_year_token(y, modifier))
    }
}

// ── Months and names ─────────────────────────────────────────────────────────

/// A name by a modifier that begins with `Nn`: whole, or cut to the width that
/// stands after a comma.
pub open spec fn cut_name(name: Seq<char>, modifier: Seq<char>) -> Seq<char> {
    let w = if modifier.len() > 2 && modifier[2] == ',' {
        width_of(modifier.skip(3))
    } else {
        0
    };
    if w > 0 && name.len() > w {
        name.take(w)
    } else {
        name
    }
}

fn name_cut(name: &str, modifier: &[char]) -> (r: Vec<char>)
    ensures
        r@ == cut_name(name@, modifier@),
{
    let n = chars_of(name);
    if modifier.len() > 2 && modifier[2] == ',' {
        let suffix = part(modifier, 3, modifier.len());
        assert(suffix@ =~= modifier@.skip(3));
        let w: usize = parse_width_from_suffix(suffix.as_slice());
        if w > 0 && n.len() > w {
            let r = part(n.as_slice(), 0, w);
            assert(r@ =~= n@.take(w as int));
            return r;
        }
    }
    n
}

/// The component `M`.
pub open spec fn month_token(m: int, modifier: Seq<char>) -> Seq<char> {
    if occurs_at(modifier, "Nn"@, 0) {
        cut_name(month_name(m), modifier)
    } else if modifier == "N"@ {
        ascii_upper_all(month_name(m))
    } else if modifier == "a"@ {
        letters_of(m, 'a')
    } else if modifier == "A"@ {
        letters_of(m, 'A')
    } else if modifier == "I"@ {
        roman(m, true)
    } else if modifier == "i"@ {
        roman(m, false)
    } else {
        min_width_text(m, modifier)
    }
}

/// The component `M`.
pub fn format_month_token(m: u8, modifier: &[char]) -> (r: Vec<char>)
    ensures
        r@ == month_token(m as int, modifier@),
{
    if starts_with(modifier, "Nn") {
        name_cut(month_text(m as i64), modifier)
    } else if is_text(modifier, "N") {
        upper_ascii_all(chars_of(month_text(m as i64)).as_slice())
    } else if is_text(modifier, "a") {
        alphabetic_chars(m as i64, 'a')
    } else if is_text(modifier, "A") {
        alphabetic_chars(m as i64, 'A')
    } else if is_text(modifier, "I") {
        roman_chars(m as i64, true)
    } else if is_text(modifier, "i") {
        roman_chars(m as i64, false)
    } else {
        format_numeric_with_min_width(m as i32, modifier)
    }
}

/// The component `F`, from a day of the week with Sunday as 0.
pub open spec fn weekday_token(wd: int, modifier: Seq<char>) -> Seq<char> {
    if modifier == ""@ || modifier == "n"@ {
        ascii_lower_all(weekday_name(wd))
    } else if occurs_at(modifier, "Nn"@, 0) {
        cut_name(weekday_name(wd), modifier)
    } else if modifier == "N"@ {
        ascii_upper_all(weekday_name(wd))
    } else {
        integer_mod((wd + 6) % 7 + 1, modifier)
    }
}

/// The component `F`.
pub fn format_weekday_token(wd: u8, modifier: &[char]) -> (r: Vec<char>)
    requires
        wd < 7,
    ensures
        r@ == weekday_token(wd as int, modifier@),
{
    if is_text(modifier, "") || is_text(modifier, "n") {
        lower_ascii_all(chars_of(weekday_text(wd)).as_slice())
    } else if starts_with(modifier, "Nn") {
        name_cut(weekday_text(wd), modifier)
    } else if is_text(modifier, "N") {
        upper_ascii_all(chars_of(weekday_text(wd)).as_slice())
    } else {
        format_integer_mod((wd as i64 + 6) % 7 + 1, modifier)
    }
}

/// The component `x`: the month that a week is counted in.
pub open spec fn week_month(m: int, modifier: Seq<char>) -> Seq<char> {
    if modifier == "Nn"@ || modifier == "n"@ {
        month_name(m)
    } else if modifier == "N"@ {
        ascii_upper_all(month_name(m))
    } else {
        int_text(m)
    }
}

/// The component `x`.
pub fn format_iso_week_month(m: u8, modifier: &[char]) -> (r: Vec<char>)
    ensures
        r@ == week_month(m as int, modifier@),
{
    if is_text(modifier, "Nn") || is_text(modifier, "n") {
        chars_of(month_text(m as i64))
    } else if is_text(modifier, "N") {
        upper_ascii_all(chars_of(month_text(m as i64)).as_slice())
    } else {
        int_chars(m as i64)
    }
}

// ── Days ─────────────────────────────────────────────────────────────────────

/// A day of the month by a numeric modifier, `o` at its end asking for an ordinal.
pub open spec fn day_token(d: int, modifier: Seq<char>) -> Seq<char> {
    let ordinal = modifier.len() > 0 && modifier.last() == 'o';
    let base = if ordinal {
        modifier.drop_last()
    } else {
        modifier
    };
    min_width_text(d, base) + (if ordinal {
        suffix_of(d)
    } else {
        Seq::empty()
    })
}

/// A day of the month by a numeric modifier.
pub fn format_day_token(d: u8, modifier: &[char]) -> (r: Vec<char>)
    ensures
        r@ == day_token(d as int, modifier@),
{
    let ordinal: bool = modifier.len() > 0 && modifier[modifier.len() - 1] == 'o';
    let base = if ordinal {
        part(modifier, 0, modifier.len() - 1)
    } else {
        part(modifier, 0, modifier.len())
    };
    assert(base@ =~= (if ordinal {
        modifier@.drop_last()
    } else {
        modifier@
    }));
    let mut s = format_numeric_with_min_width(d as i32, base.as_slice());
    if ordinal {
        push_text(&mut s, ordinal_suffix(d as i64));
    }
    assert(s@ =~= day_token(d as int, modifier@));
    s
}

/// The component `D`.
pub open spec fn day_component(d: int, modifier: Seq<char>) -> Seq<char> {
    if modifier == "I"@ {
        roman(d, true)
    } else if modifier == "i"@ {
        roman(d, false)
    } else if modifier == "a"@ {
        letters_of(d, 'a')
    } else if modifier == "A"@ {
        letters_of(d, 'A')
    } else if modifier == "wo"@ {
        ordinal_phrase(words_of(d))
    } else if modifier == "Wo"@ {
        ascii_upper_all(ordinal_phrase(words_of(d)))
    } else if modifier == "w"@ {
        words_of(d)
    } else if modifier == "W"@ {
        ascii_upper_all(words_of(d))
    } else {
        day_token(d, modifier)
    }
}

/// The component `D`.
pub fn format_day_component(d: u8, modifier: &[char]) -> (r: Vec<char>)
    ensures
        r@ == day_component(d as int, modifier@),
{
    let n: i64 = d as i64;
    if is_text(modifier, "I") {
        roman_chars(n, true)
    } else if is_text(modifier, "i") {
        roman_chars(n, false)
    } else if is_text(modifier, "a") {
        alphabetic_chars(n, 'a')
    } else if is_text(modifier, "A") {
        alphabetic_chars(n, 'A')
    } else if is_text(modifier, "wo") {
        ordinal_chars(word_chars(n).as_slice())
    } else if is_text(modifier, "Wo") {
        upper_ascii_all(ordinal_chars(word_chars(n).as_slice()).as_slice())
    } else if is_text(modifier, "w") {
        word_chars(n)
    } else if is_text(modifier, "W") {
        upper_ascii_all(word_chars(n).as_slice())
    } else {
        format_day_token(d, modifier)
    }
}

/// The component `d`.
pub open spec fn day_of_year_token(d: int, modifier: Seq<char>) -> Seq<char> {
    if modifier == "wo"@ {
        ordinal_phrase(words_of(d))
    } else if modifier == "Wo"@ {
        ascii_upper_all(ordinal_phrase(words_of(d)))
    } else if modifier == "w"@ {
        words_of(d)
    } else if modifier == "W"@ {
        ascii_upper_all(words_of(d))
    } else if modifier.len() > 0 && modifier.last() == 'o' {
        integer_mod(d, modifier.drop_last()) + suffix_of(d)
    } else {
        integer_mod(d, modifier)
    }
}

/// The component `d`.
pub fn format_day_of_year_token(d: u32, modifier: &[char]) -> (r: Vec<char>)
    ensures
        r@ == day_of_year_token(d as int, modifier@),
{
    let n: i64 = d as i64;
    if is_text(modifier, "wo") {
        ordinal_chars(word_chars(n).as_slice())
    } else if is_text(modifier, "Wo") {
        upper_ascii_all(ordinal_chars(word_chars(n).as_slice()).as_slice())
    } else if is_text(modifier, "w") {
        word_chars(n)
    } else if is_text(modifier, "W") {
        upper_ascii_all(word_chars(n).as_slice())
    } else if modifier.len() > 0 && modifier[modifier.len() - 1] == 'o' {
        let base = part(modifier, 0, modifier.len() - 1);
        assert(base@ =~= modifier@.drop_last());
        let mut s = format_integer_mod(n, base.as_slice());
        push_text(&mut s, ordinal_suffix(n));
        s
    } else {
        format_integer_mod(n, modifier)
    }
}

// ── Time of day ──────────────────────────────────────────────────────────────

/// The component `P`.
pub open spec fn ampm(hour: int, modifier: Seq<char>) -> Seq<char> {
    if modifier == "N"@ {
        if hour < 12 {
            "AM"@
        } else {
            "PM"@
        }
    } else if hour < 12 {
        "am"@
    } else {
        "pm"@
    }
}

/// The component `P`.
pub fn format_ampm(hour: u8, modifier: &[char]) -> (r: Vec<char>)
    ensures
        r@ == ampm(hour as int, modifier@),
{
    if is_text(modifier, "N") {
        chars_of(
            if hour < 12 {
                "AM"
            } else {
                "PM"
            },
        )
    } else {
        chars_of(
            if hour < 12 {
                "am"
            } else {
                "pm"
            },
        )
    }
}

/// The component `f`: as many digits of the fraction of the second as the
/// modifier is long, three by default.
pub open spec fn fraction(millis: int, modifier: Seq<char>) -> Seq<char> {
    let w = if modifier.len() == 0 {
        3
    } else {
        byte_len(modifier)
    };
    let full = zero_padded((millis * 1_000_000) as nat, 9);
    if w <= 9 {
        full.take(w as int)
    } else {
        full + repeated('0', (w - 9) as nat)
    }
}

/// The component `f`.
pub fn format_frac_second(millis: i32, modifier: &[char]) -> (r: Vec<char>)
    requires
        0 <= millis < 1000,
    ensures
        r@ == fraction(millis as int, modifier@),
{
    let w: u128 = if modifier.len() == 0 {
        3
    } else {
        count_bytes(modifier)
    };
    let mut full: Vec<char> = Vec::new();
    push_padded(&mut full, millis as u64 * 1_000_000, 9);
    let ghost f = zero_padded((millis * 1_000_000) as nat, 9);
    assert(full@ =~= f);
    if w <= 9 {
        let r = part(full.as_slice(), 0, w as usize);
        assert(r@ =~= f.take(w as int));
        r
    } else {
        push_many(&mut full, '0', w - 9);
        full
    }
}

// ── Components ───────────────────────────────────────────────────────────────

/// The ISO year and week of an epoch day.
pub open spec fn iso_week_of(day: int) -> (int, int) {
    choose|p: (int, int)| is_iso_week(day, p.0, p.1)
}

proof fn lemma_iso_week_unique(day: int, y: int, n: int)
    requires
        is_iso_week(day, y, n),
    ensures
        iso_week_of(day) == (y, n),
{
    let p = (y, n);
    assert(is_iso_week(day, p.0, p.1));
    let (a, b) = iso_week_of(day);
    let t = week_thursday(day);
    lemma_first_days(y);
    lemma_first_days(a);
    if a < y {
        lemma_years_ordered(a + 1, y);
    } else if y < a {
        lemma_years_ordered(y + 1, a);
    }
}

proof fn lemma_first_days(y: int)
    ensures
        days_before_month(y, 1) == 0,
        days_before_month(y + 1, 1) == 0,
{
}

/// The date of an epoch day.
pub open spec fn date_of(day: int) -> (int, int, int) {
    choose|p: (int, int, int)| valid_date(p.0, p.1, p.2) && epoch_day(p.0, p.1, p.2) == day
}

pub proof fn lemma_date_unique(y: int, m: int, d: int)
    requires
        valid_date(y, m, d),
    ensures
        date_of(epoch_day(y, m, d)) == (y, m, d),
{
    let p = (y, m, d);
    assert(valid_date(p.0, p.1, p.2));
    let (a, b, c) = date_of(epoch_day(y, m, d));
    law_epoch_day_injective(y, m, d, a, b, c);
}

/// A modifier for minutes and seconds, which have two digits by default.
pub open spec fn two_by_default(modifier: Seq<char>) -> Seq<char> {
    if modifier.len() == 0 {
        "01"@
    } else {
        modifier
    }
}

/// What a variable marker with its white space removed gives.
pub open spec fn token_text(token: Seq<char>, t: Moment) -> Result<Seq<char>, Seq<char>> {
    let c = token[0];
    let m = token.skip(1);
    let day = epoch_day(t.year as int, t.month as int, t.day as int);
    if token.len() == 0 {
        Err("D3132"@)
    } else if c == 'Y' {
        year_component(t.year as int, m)
    } else if c == 'M' {
        Ok(month_token(t.month as int, m))
    } else if c == 'D' {
        Ok(day_component(t.day as int, m))
    } else if c == 'H' {
        Ok(integer_mod(t.hour as int, m))
    } else if c == 'h' {
        Ok(integer_mod((t.hour + 11) % 12 + 1, m))
    } else if c == 'm' {
        Ok(integer_mod(t.minute as int, two_by_default(m)))
    } else if c == 's' {
        Ok(integer_mod(t.second as int, two_by_default(m)))
    } else if c == 'f' {
        Ok(fraction(t.millis as int, m))
    } else if c == 'F' {
        Ok(weekday_token(t.weekday as int, m))
    } else if c == 'Z' || c == 'z' {
        zone_text(c, m, t.tz as int)
    } else if c == 'P' {
        Ok(ampm(t.hour as int, m))
    } else if c == 'E' || c == 'C' {
        Ok("ISO"@)
    } else if c == 'd' {
        Ok(day_of_year_token(days_before_month(t.year as int, t.month as int) + t.day, m))
    } else if c == 'W' {
        Ok(integer_mod(iso_week_of(day).1, m))
    } else if c == 'X' {
        Ok(year_token(iso_week_of(day).0, m))
    } else if c == 'w' {
        Ok(integer_mod((date_of(week_thursday(day)).2 + 6) / 7, m))
    } else if c == 'x' {
        Ok(week_month(date_of(week_thursday(day)).1, m))
    } else {
        Err("D3132"@)
    }
}

/// What the components of a moment must satisfy to be written.
pub open spec fn writable(t: Moment) -> bool {
    &&& valid_date(t.year as int, t.month as int, t.day as int)
    &&& -400_000_000 <= t.year <= 400_000_000
    &&& t.hour < 24
    &&& t.minute < 60
    &&& t.second < 60
    &&& 0 <= t.millis < 1000
    &&& t.weekday < 7
    &&& t.tz > i32::MIN
}

fn unknown_component(component: &[char]) -> (r: JsonataError)
    ensures
        r.code@ == "D3132"@,
{
    JsonataError::about("D3132", "unknown component specifier \"", component, "\" in the date/time picture string")
}

fn modifier_or_two(m: Vec<char>) -> (r: Vec<char>)
    ensures
        r@ == two_by_default(m@),
{
    if m.len() == 0 {
        chars_of("01")
    } else {
        m
    }
}

/// Write one variable marker.
pub fn format_token(token: &[char], t: &Moment) -> (r: Result<Vec<char>, JsonataError>)
    requires
        writable(*t),
    ensures
        out_chars(r) == token_text(token@, *t),
{
    if token.len() == 0 {
        return Err(unknown_component(token));
    }
    proof {
        lemma_thursday_has_date(t.year as int, t.month as int, t.day as int);
    }
    let c: char = token[0];
    let m = part(token, 1, token.len());
    assert(m@ =~= token@.skip(1));
    match c {
        'Y' => format_year_component(t.year, m.as_slice()),
        'M' => Ok(format_month_token(t.month, m.as_slice())),
        'D' => Ok(format_day_component(t.day, m.as_slice())),
        'H' => Ok(format_integer_mod(t.hour as i64, m.as_slice())),
        'h' => Ok(format_integer_mod((t.hour as i64 + 11) % 12 + 1, m.as_slice())),
        'm' => Ok(format_integer_mod(t.minute as i64, modifier_or_two(m).as_slice())),
        's' => Ok(format_integer_mod(t.second as i64, modifier_or_two(m).as_slice())),
        'f' => Ok(format_frac_second(t.millis, m.as_slice())),
        'F' => Ok(format_weekday_token(t.weekday, m.as_slice())),
        'Z' | 'z' => format_timezone(c, m.as_slice(), t.tz),
        'P' => Ok(format_ampm(t.hour, m.as_slice())),
        'E' | 'C' => Ok(chars_of("ISO")),
        'd' => {
            let doy: u32 = day_of_year(t.year, t.month, t.day);
            Ok(format_day_of_year_token(doy, m.as_slice()))
        },
        'W' => {
            let (y, w) = iso_week(t.year, t.month, t.day);
            proof {
                lemma_iso_week_unique(epoch_day(t.year as int, t.month as int, t.day as int), y as int, w as int);
            }
            Ok(format_integer_mod(w as i64, m.as_slice()))
        },
        'X' => {
            let (y, w) = iso_week(t.year, t.month, t.day);
            proof {
                lemma_iso_week_unique(epoch_day(t.year as int, t.month as int, t.day as int), y as int, w as int);
            }
            Ok(format_year_token(y, m.as_slice()))
        },
        'w' => {
            let (ty, tm, td) = iso_week_thursday(t.year, t.month, t.day);
            proof {
                lemma_date_unique(ty as int, tm as int, td as int);
            }
            Ok(format_integer_mod(week_of_month(td) as i64, m.as_slice()))
        },
        'x' => {
            let (ty, tm, td) = iso_week_thursday(t.year, t.month, t.day);
            proof {
                lemma_date_unique(ty as int, tm as int, td as int);
            }
            Ok(format_iso_week_month(tm, m.as_slice()))
        },
        _ => Err(unknown_component(&[token[0]])),
    }
}

// ── Pictures ─────────────────────────────────────────────────────────────────

/// Whether a variable marker that starts at or after `i` is not closed.
pub open spec fn unclosed(p: Seq<char>, i: int) -> bool
    decreases p.len() - i,
    when 0 <= i
    via unclosed_decreases
{
    if i >= p.len() {
        false
    } else if p[i] == '[' {
        if i + 1 < p.len() && p[i + 1] == '[' {
            unclosed(p, i + 2)
        } else {
            match find_char(p, ']', i + 1) {
                Some(j) => unclosed(p, j + 1),
                None => true,
            }
        }
    } else {
        unclosed(p, i + 1)
    }
}

#[via_fn]
proof fn unclosed_decreases(p: Seq<char>, i: int) {
    if i < p.len() {
        lemma_find_after(p, ']', i + 1);
    }
}

pub proof fn lemma_find_after(p: Seq<char>, c: char, from: int)
    requires
        0 <= from,
    ensures
        match find_char(p, c, from) {
            Some(j) => from <= j < p.len() && p[j] == c,
            None => true,
        },
    decreases p.len() - from,
{
    if from < p.len() && p[from] != c {
        lemma_find_after(p, c, from + 1);
    }
}

/// Characters that are removed from inside a variable marker.
pub open spec fn marker_space(c: char) -> bool {
    c == ' ' || c == '\n' || c == '\r' || c == '\t'
}

/// A variable marker without white space.
pub open spec fn squeezed(s: Seq<char>) -> Seq<char>
    decreases s.len(),
{
    if s.len() == 0 {
        Seq::empty()
    } else if marker_space(s.last()) {
        squeezed(s.drop_last())
    } else {
        squeezed(s.drop_last()).push(s.last())
    }
}

/// The part of a text between two positions without white space.
pub fn squeeze(s: &[char], from: usize, to: usize) -> (r: Vec<char>)
    requires
        from <= to <= s@.len(),
    ensures
        r@ == squeezed(s@.subrange(from as int, to as int)),
{
    let ghost t = s@.subrange(from as int, to as int);
    let mut r: Vec<char> = Vec::new();
    let mut i: usize = from;
    assert(t.take(0) =~= Seq::empty());
    while i < to
        invariant
            from <= i <= to <= s@.len(),
            t == s@.subrange(from as int, to as int),
            r@ == squeezed(t.take(i - from)),
        decreases to - i,
    {
        let c: char = s[i];
        let ghost k = i - from;
        assert(t.take(k + 1).drop_last() =~= t.take(k));
        assert(t.take(k + 1).last() == c);
        if !(c == ' ' || c == '\n' || c == '\r' || c == '\t') {
            r.push(c);
        }
        i = i + 1;
    }
    assert(t.take(i - from) =~= t);
    r
}

/// What a picture gives from position `i` on.
pub open spec fn picture_text(p: Seq<char>, i: int, t: Moment) -> Result<Seq<char>, Seq<char>>
    decreases p.len() - i,
    when 0 <= i
    via picture_decreases
{
    if i >= p.len() {
        Ok(Seq::empty())
    } else if p[i] == '[' {
        if i + 1 < p.len() && p[i + 1] == '[' {
            before(seq!['['], picture_text(p, i + 2, t))
        } else {
            match find_char(p, ']', i + 1) {
                Some(j) => match token_text(squeezed(p.subrange(i + 1, j)), t) {
                    Ok(s) => before(s, picture_text(p, j + 1, t)),
                    Err(e) => Err(e),
                },
                None => Err("D3135"@),
            }
        }
    } else if p[i] == ']' && i + 1 < p.len() && p[i + 1] == ']' {
        before(seq![']'], picture_text(p, i + 2, t))
    } else {
        before(seq![p[i]], picture_text(p, i + 1, t))
    }
}

#[via_fn]
proof fn picture_decreases(p: Seq<char>, i: int, t: Moment) {
    if i < p.len() {
        lemma_find_after(p, ']', i + 1);
    }
}

/// A text put in front of another, if there is one.
pub open spec fn before(s: Seq<char>, rest: Result<Seq<char>, Seq<char>>) -> Result<Seq<char>, Seq<char>> {
    match rest {
        Ok(t) => Ok(s + t),
        Err(e) => Err(e),
    }
}

proof fn lemma_before(a: Seq<char>, b: Seq<char>, r: Result<Seq<char>, Seq<char>>)
    ensures
        before(a, before(b, r)) == before(a + b, r),
{
    match r {
        Ok(t) => {
            assert(a + (b + t) =~= (a + b) + t);
        },
        Err(_) => {},
    }
}

/// A moment by a picture. An unclosed marker is found before anything is written.
pub open spec fn formatted(p: Seq<char>, t: Moment) -> Result<Seq<char>, Seq<char>> {
    if unclosed(p, 0) {
        Err("D3135"@)
    } else {
        picture_text(p, 0, t)
    }
}

fn has_unclosed(p: &[char]) -> (r: bool)
    ensures
        r == unclosed(p@, 0),
{
    let mut i: usize = 0;
    while i < p.len()
        invariant
            i <= p.len(),
            unclosed(p@, 0) == unclosed(p@, i as int),
        decreases p.len() - i,
    {
        if p[i] == '[' {
            if i + 1 < p.len() && p[i + 1] == '[' {
                i = i + 2;
            } else {
                match find(p, ']', i + 1) {
                    Some(j) => {
                        i = j + 1;
                    },
                    None => {
                        return true;
                    },
                }
            }
        } else {
            i = i + 1;
        }
    }
    false
}

/// Write a moment by a picture.
pub fn format_moment(p: &[char], t: &Moment) -> (r: Result<Vec<char>, JsonataError>)
    requires
        writable(*t),
    ensures
        out_chars(r) == formatted(p@, *t),
{
    if has_unclosed(p) {
        return Err(JsonataError::new("D3135", "the picture string has an unclosed variable marker '[...'"));
    }
    let mut out: Vec<char> = Vec::new();
    let mut i: usize = 0;
    let ghost whole = picture_text(p@, 0, *t);
    assert(whole == before(out@, whole)) by {
        match whole {
            Ok(s) => {
                assert(out@ + s =~= s);
            },
            Err(_) => {},
        }
    }
    while i < p.len()
        invariant
            i <= p.len(),
            writable(*t),
            !unclosed(p@, 0),
            whole == picture_text(p@, 0, *t),
            whole == before(out@, picture_text(p@, i as int, *t)),
        decreases p.len() - i,
    {
        let c: char = p[i];
        let ghost done = out@;
        if c == '[' {
            if i + 1 < p.len() && p[i + 1] == '[' {
                out.push('[');
                proof {
                    lemma_before(done, seq!['['], picture_text(p@, i + 2, *t));
                    assert(out@ =~= done + seq!['[']);
                }
                i = i + 2;
            } else {
                match find(p, ']', i + 1) {
                    Some(j) => {
                        let token = squeeze(p, i + 1, j);
                        match format_token(token.as_slice(), t) {
                            Ok(s) => {
                                push_all(&mut out, s.as_slice());
                                proof {
                                    lemma_before(done, s@, picture_text(p@, j + 1, *t));
                                }
                                i = j + 1;
                            },
                            Err(e) => {
                                return Err(e);
                            },
                        }
                    },
                    None => {
                        return Err(
                            JsonataError::new("D3135", "the picture string has an unclosed variable marker '[...'"),
                        );
                    },
                }
            }
        } else if c == ']' && i + 1 < p.len() && p[i + 1] == ']' {
            out.push(']');
            proof {
                lemma_before(done, seq![']'], picture_text(p@, i + 2, *t));
                assert(out@ =~= done + seq![']']);
            }
            i = i + 2;
        } else {
            out.push(c);
            proof {
                lemma_before(done, seq![c], picture_text(p@, i + 1, *t));
                assert(out@ =~= done + seq![c]);
            }
            i = i + 1;
        }
    }
    assert(out@ + Seq::<char>::empty() =~= out@);
    Ok(out)
}

/// Write epoch milliseconds by a picture, as characters.
pub fn picture_chars(ms: i64, picture: &[char], tz: i32) -> (r: Result<Vec<char>, JsonataError>)
    requires
        tz > i32::MIN,
    ensures
        out_chars(r) == formatted(picture@, moment_of(ms as int, tz as int)),
{
    let t = moment_at(ms, tz);
    format_moment(picture, &t)
}

/// Text, or the code of an error, as contracts speak of them.
pub open spec fn out_text(r: Result<String, JsonataError>) -> Result<Seq<char>, Seq<char>> {
    match r {
        Ok(t) => Ok(t@),
        Err(e) => Err(e.code@),
    }
}

/// Write epoch milliseconds by a picture, seen at an offset in seconds.
pub fn format_with_picture(ms: i64, picture: &str, tz_offset_secs: i32) -> (r: Result<String, JsonataError>)
    requires
        tz_offset_secs > i32::MIN,
    ensures
        out_text(r) == formatted(picture@, moment_of(ms as int, tz_offset_secs as int)),
{
    match picture_chars(ms, chars_of(picture).as_slice(), tz_offset_secs) {
        Ok(t) => Ok(text_of(t.as_slice())),
        Err(e) => Err(e),
    }
}

// ── ISO 8601 ─────────────────────────────────────────────────────────────────

/// A year with at least four characters, sign included.
pub open spec fn iso_year(y: int) -> Seq<char> {
    if y < 0 {
        seq!['-'] + zero_padded((-y) as nat, 3)
    } else {
        zero_padded(y as nat, 4)
    }
}

/// Date and time of day in ISO 8601 notation, to the millisecond.
pub open spec fn iso_base(t: Moment) -> Seq<char> {
    iso_year(t.year as int) + "-"@ + zero_padded(t.month as nat, 2) + "-"@ + zero_padded(t.day as nat, 2) + "T"@
        + zero_padded(t.hour as nat, 2) + ":"@ + zero_padded(t.minute as nat, 2) + ":"@ + zero_padded(
        t.second as nat,
        2,
    ) + "."@ + zero_padded(t.millis as nat, 3)
}

/// A moment in ISO 8601 notation.
pub open spec fn iso_text(t: Moment) -> Seq<char> {
    if t.tz == 0 {
        iso_base(t) + "Z"@
    } else {
        iso_base(t) + super::tz::offset_text(t.tz as int, ":"@, 2)
    }
}

/// A moment in ISO 8601 notation, as characters.
pub fn iso_chars(t: &Moment) -> (r: Vec<char>)
    requires
        t.tz > i32::MIN,
        t.millis >= 0,
    ensures
        r@ == iso_text(*t),
{
    let mut out: Vec<char> = Vec::new();
    if t.year < 0 {
        out.push('-');
        push_padded(&mut out, (-(t.year as i64)) as u64, 3);
    } else {
        push_padded(&mut out, t.year as u64, 4);
    }
    assert(out@ =~= iso_year(t.year as int));
    push_text(&mut out, "-");
    push_padded(&mut out, t.month as u64, 2);
    push_text(&mut out, "-");
    push_padded(&mut out, t.day as u64, 2);
    push_text(&mut out, "T");
    push_padded(&mut out, t.hour as u64, 2);
    push_text(&mut out, ":");
    push_padded(&mut out, t.minute as u64, 2);
    push_text(&mut out, ":");
    push_padded(&mut out, t.second as u64, 2);
    push_text(&mut out, ".");
    push_padded(&mut out, t.millis as u64, 3);
    if t.tz == 0 {
        push_text(&mut out, "Z");
    } else {
        super::tz::push_offset(&mut out, t.tz, ":", 2);
    }
    out
}

/// Write epoch milliseconds in ISO 8601 notation, seen at an offset in seconds.
pub fn format_default_iso(ms: i64, tz_offset_secs: i32) -> (r: String)
    requires
        tz_offset_secs > i32::MIN,
    ensures
        r@ == iso_text(moment_of(ms as int, tz_offset_secs as int)),
{
    let t = moment_at(ms, tz_offset_secs);
    text_of(iso_chars(&t).as_slice())
}

} // verus!
